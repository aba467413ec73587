use resharp_grep::args::{parse, parse_u64, Args, ColorMode, FilesizeError, PatternError};
use resharp_grep::lines::{build_line_index, count_lines, get_line, is_binary, line_end, offset_to_line};
use resharp_grep::paginate::{count_newlines, find_nth_newline, paginate_chunk};
use resharp_grep::printer::{
    adjust_match_ranges, bytes_equal, get_indent, path_line, count_digits, find_enclosing_scope, looks_like_scope_marker, prefix_width,
    results_printable, trim_line, write_results_with_unique, Paint, PrinterOpts, Report, UniqueSet,
};
use resharp_grep::engine::Matcher;
use resharp_grep::search::{highlight_ranges, search_buffer, LineMatch, SearchResult};
use resharp_grep::text::trim;

#[test]
fn line_index_skips_final_newline() {
    assert_eq!(build_line_index(b"ab\ncd\n"), vec![0, 3]);
    assert_eq!(build_line_index(b"ab\ncd"), vec![0, 3]);
    assert_eq!(build_line_index(b""), vec![0]);
    assert_eq!(build_line_index(b"\n\n"), vec![0, 1]);
}

#[test]
fn count_lines_agrees_with_index() {
    for buf in [&b"ab\ncd\n"[..], b"ab\ncd", b"\n\n", b"x", b"a\nb\nc"] {
        assert_eq!(count_lines(buf), build_line_index(buf).len());
    }
    assert_eq!(count_lines(b""), 0);
}

#[test]
fn offset_to_line_finds_the_line() {
    let starts = build_line_index(b"ab\ncd\nef");
    assert_eq!(offset_to_line(&starts, 0), 0);
    assert_eq!(offset_to_line(&starts, 2), 0);
    assert_eq!(offset_to_line(&starts, 3), 1);
    assert_eq!(offset_to_line(&starts, 7), 2);
    assert_eq!(offset_to_line(&starts, 100), 2);
}

#[test]
fn line_end_stops_at_newline() {
    assert_eq!(line_end(b"ab\ncd", 0), 2);
    assert_eq!(line_end(b"ab\ncd", 3), 5);
}

#[test]
fn get_line_strips_line_endings() {
    let buf = b"one\r\ntwo\nthree";
    let starts = build_line_index(buf);
    assert_eq!(get_line(buf, &starts, 0), b"one");
    assert_eq!(get_line(buf, &starts, 1), b"two");
    assert_eq!(get_line(buf, &starts, 2), b"three");
}

#[test]
fn binary_detection_looks_at_the_head_only() {
    assert!(is_binary(b"ab\0cd"));
    assert!(!is_binary(b"abcd"));
    let mut late = vec![b'a'; 9000];
    late.push(0);
    assert!(!is_binary(&late));
}

#[test]
fn nth_newline() {
    assert_eq!(find_nth_newline(b"a\nb\nc\n", 1), 2);
    assert_eq!(find_nth_newline(b"a\nb\nc\n", 2), 4);
    assert_eq!(find_nth_newline(b"a\nb\nc\n", 5), 6);
    assert_eq!(find_nth_newline(b"a\nb", 0), 2);
    assert_eq!(count_newlines(b"a\nb\nc\n"), 3);
}

#[test]
fn paginate_offset_then_head() {
    let out = b"1\n2\n3\n4\n5\n";
    let mut offset = 1usize;
    let mut head = Some(2usize);
    let (part, truncated) = paginate_chunk(out, &mut offset, &mut head);
    assert_eq!(part, Some(&b"2\n3\n"[..]));
    assert!(truncated);
    assert_eq!(offset, 0);
    assert_eq!(head, Some(0));
}

#[test]
fn paginate_skips_whole_chunk_within_offset() {
    let mut offset = 5usize;
    let mut head = None;
    let (part, truncated) = paginate_chunk(b"a\nb\n", &mut offset, &mut head);
    assert_eq!(part, None);
    assert!(!truncated);
    assert_eq!(offset, 3);
}

#[test]
fn paginate_budget_carries_over() {
    let mut offset = 0usize;
    let mut head = Some(3usize);
    let (p1, t1) = paginate_chunk(b"a\nb\n", &mut offset, &mut head);
    assert_eq!(p1, Some(&b"a\nb\n"[..]));
    assert!(!t1);
    assert_eq!(head, Some(1));
    let (p2, t2) = paginate_chunk(b"c\nd\n", &mut offset, &mut head);
    assert_eq!(p2, Some(&b"c\n"[..]));
    assert!(t2);
    let (p3, t3) = paginate_chunk(b"e\n", &mut offset, &mut head);
    assert_eq!(p3, None);
    assert!(t3);
}

#[test]
fn digits() {
    assert_eq!(count_digits(0), 1);
    assert_eq!(count_digits(9), 1);
    assert_eq!(count_digits(10), 2);
    assert_eq!(count_digits(12345), 5);
    assert_eq!(count_digits(usize::MAX), usize::MAX.to_string().len());
}

#[test]
fn adjust_ranges_clips_to_window() {
    assert_eq!(adjust_match_ranges(&[(0, 2), (5, 9), (12, 14)], 4, 10), vec![(1, 5)]);
    assert_eq!(adjust_match_ranges(&[(3, 8)], 4, 6), vec![(0, 2)]);
    assert_eq!(adjust_match_ranges(&[(1, 2)], 4, 6), vec![]);
}

#[test]
fn trim_line_short_line_unchanged() {
    let (l, r, left, right) = trim_line(b"short", &[(0, 2)], 10);
    assert_eq!(l, b"short");
    assert_eq!(r, vec![(0, 2)]);
    assert!(!left && !right);
}

#[test]
fn trim_line_cuts_right_when_match_is_early() {
    let (l, r, left, right) = trim_line(b"abcdefghijklmnop", &[(1, 3)], 8);
    assert_eq!(l, b"abcdefg");
    assert_eq!(r, vec![(1, 3)]);
    assert!(!left);
    assert!(right);
}

#[test]
fn trim_line_centers_late_match() {
    let (l, r, left, right) = trim_line(b"abcdefghijklmnopqrst", &[(14, 16)], 8);
    assert_eq!(l, b"mnopqr");
    assert_eq!(r, vec![(2, 4)]);
    assert!(left);
    assert!(right);
}

#[test]
fn scope_markers() {
    assert!(looks_like_scope_marker("fn main() {"));
    assert!(looks_like_scope_marker("export default function x()"));
    assert!(looks_like_scope_marker("impl<T> Foo<T> {"));
    assert!(!looks_like_scope_marker("let x = 1;"));
    assert!(!looks_like_scope_marker(""));
}

#[test]
fn enclosing_scope_is_innermost_less_indented_marker() {
    let buf = b"impl Foo {\n    fn bar(&self) {\n\n        self.x.unwrap();\n    }\n}\n";
    let starts = build_line_index(buf);
    assert_eq!(find_enclosing_scope(buf, &starts, 3), Some((1, "fn bar(&self) {".to_string())));
    assert_eq!(find_enclosing_scope(buf, &starts, 1), Some((0, "impl Foo {".to_string())));
    assert_eq!(find_enclosing_scope(buf, &starts, 0), None);
}

#[test]
fn enclosing_scope_of_invalid_utf8_header_is_skipped() {
    let buf = b"fn \xff() {\n    x\n";
    let starts = build_line_index(buf);
    assert_eq!(find_enclosing_scope(buf, &starts, 1), None);
}

#[test]
fn unique_set_accepts_each_key_once() {
    let mut s = UniqueSet::new();
    assert!(s.check(b"a"));
    assert!(s.check(b"b"));
    assert!(!s.check(b"a"));
    assert!(!s.check(b"b"));
    assert!(s.check(b""));
    assert!(!s.check(b""));
}

#[test]
fn bytes_equal_compares_contents() {
    assert!(bytes_equal(b"abc", b"abc"));
    assert!(!bytes_equal(b"abc", b"abd"));
    assert!(!bytes_equal(b"ab", b"abc"));
}

fn opts_for(a: Args) -> PrinterOpts {
    PrinterOpts::from_args(&parse(a, false), false, false, false, 80)
}

#[test]
fn prefix_width_counts_each_field() {
    let mut a = Args::default();
    a.line_number = true;
    a.byte_offset = true;
    a.column = true;
    let opts = opts_for(a);
    let lm = LineMatch { line_number: 9, line_start: 123, match_ranges: vec![(4, 5)] };
    // "10:" + "5:" + "123:"
    assert_eq!(prefix_width(None, &opts, &lm), 3 + 2 + 4);
}

#[test]
fn printer_opts_from_args() {
    let mut a = Args::default();
    a.pattern = Some("x".to_string());
    a.paths = vec!["a".to_string(), "b".to_string()];
    a.context = Some(2);
    a.after_context = Some(1);
    a.trim = true;
    let args = parse(a, false);
    let o = PrinterOpts::from_args(&args, false, false, false, 77);
    assert!(o.show_path);
    assert!(o.line_number);
    assert!(!o.heading);
    assert_eq!(o.before_ctx, 2);
    assert_eq!(o.after_ctx, 1);
    assert_eq!(o.trim_width, Some(77));
    let o = PrinterOpts::from_args(&args, false, false, true, 77);
    assert!(o.heading);
    assert!(!o.show_path);
    let mut v = Args::default();
    v.vimgrep = true;
    let o = PrinterOpts::from_args(&v, false, false, true, 77);
    assert!(o.vimgrep && o.column && o.line_number && o.show_path && !o.heading);
}

#[test]
fn count_and_file_modes() {
    let buf = b"apple\npear\n";
    let matches = vec![LineMatch { line_number: 0, line_start: 0, match_ranges: vec![(0, 5)] }];
    let mut a = Args::default();
    a.count = true;
    let opts = opts_for(a);
    let mut out = Report::new();
    let mut seen = UniqueSet::new();
    write_results_with_unique(&mut out, buf, &matches, Some("f.txt"), &opts, &mut seen);
    let pieces: Vec<(Paint, Vec<u8>)> = out.pieces.iter().map(|p| (p.paint, p.bytes.clone())).collect();
    assert_eq!(
        pieces,
        vec![(Paint::Magenta, b"f.txt".to_vec()), (Paint::Plain, b":".to_vec()), (Paint::Plain, b"1\n".to_vec())]
    );

    let mut a = Args::default();
    a.files_with_matches = true;
    a.null = true;
    let opts = opts_for(a);
    let mut out = Report::new();
    write_results_with_unique(&mut out, buf, &matches, Some("f.txt"), &opts, &mut seen);
    assert_eq!(out.pieces.len(), 1);
    assert_eq!(out.pieces[0].bytes, b"f.txt\0".to_vec());

    let mut a = Args::default();
    a.files_without_match = true;
    let opts = opts_for(a);
    let mut out = Report::new();
    write_results_with_unique(&mut out, buf, &matches, Some("f.txt"), &opts, &mut seen);
    assert!(out.pieces.is_empty());
    write_results_with_unique(&mut out, buf, &[], Some("g.txt"), &opts, &mut seen);
    assert_eq!(out.pieces[0].bytes, b"g.txt".to_vec());
    assert_eq!(out.pieces[1].bytes, b"\n".to_vec());
}

#[test]
fn heading_counts_lines_with_ranges() {
    let buf = b"apple\npear\napple\n";
    let matches = vec![
        LineMatch { line_number: 0, line_start: 0, match_ranges: vec![(0, 5)] },
        LineMatch { line_number: 2, line_start: 11, match_ranges: vec![(0, 5)] },
    ];
    let mut a = Args::default();
    a.heading = true;
    let opts = opts_for(a);
    let mut out = Report::new();
    let mut seen = UniqueSet::new();
    write_results_with_unique(&mut out, buf, &matches, Some("f"), &opts, &mut seen);
    assert_eq!(out.pieces[0].bytes, b"f".to_vec());
    assert_eq!(out.pieces[1].paint, Paint::Green);
    assert_eq!(out.pieces[1].bytes, b" (2)".to_vec());
    let text: Vec<u8> = out.pieces.iter().flat_map(|p| p.bytes.clone()).collect();
    assert_eq!(String::from_utf8(text).unwrap(), "f (2)\napple\napple\n");
}

#[test]
fn only_matching_range_past_line_text_is_not_printable() {
    let buf = b"ab\r\ncd\n";
    let mut a = Args::default();
    a.only_matching = true;
    let opts = opts_for(a);
    let reach = vec![LineMatch { line_number: 0, line_start: 0, match_ranges: vec![(0, 3)] }];
    assert!(!results_printable(buf, &reach, &opts));
    let fits = vec![LineMatch { line_number: 0, line_start: 0, match_ranges: vec![(0, 2)] }];
    assert!(results_printable(buf, &fits, &opts));
    let far = vec![LineMatch { line_number: 0, line_start: usize::MAX, match_ranges: vec![(0, 1)] }];
    assert!(!results_printable(buf, &far, &opts));
    let beyond = vec![LineMatch { line_number: 5, line_start: 0, match_ranges: vec![] }];
    assert!(!results_printable(buf, &beyond, &opts));
}

#[test]
fn search_result_fields() {
    let r = SearchResult { matches: vec![], match_count: 0, had_error: false };
    assert!(r.matches.is_empty() && r.match_count == 0 && !r.had_error);
}

#[test]
fn parse_merges_globs_and_moves_pattern_to_paths() {
    let mut a = Args::default();
    a.pattern = Some("src".to_string());
    a.regexp = vec!["x".to_string()];
    a.glob = vec!["*.rs".to_string()];
    a.include_glob = vec!["*.md".to_string()];
    a.exclude_glob = vec!["target".to_string()];
    let p = parse(a, false);
    assert_eq!(p.glob, vec!["*.rs".to_string(), "*.md".to_string(), "!target".to_string()]);
    assert!(p.include_glob.is_empty() && p.exclude_glob.is_empty());
    assert_eq!(p.pattern, None);
    assert_eq!(p.paths, vec!["src".to_string()]);
}

#[test]
fn parse_file_scope_with_only_nots_inverts() {
    let mut a = Args::default();
    a.scope = Some("file".to_string());
    a.not = vec!["tokio".to_string()];
    let p = parse(a, false);
    assert_eq!(p.regexp, vec!["tokio".to_string()]);
    assert!(p.not.is_empty());
    assert!(p.files_without_match);
    assert!(!p.files_with_matches);
}

#[test]
fn parse_file_scope_implies_files_with_matches() {
    let mut a = Args::default();
    a.scope = Some("file".to_string());
    a.pattern = Some("serde".to_string());
    let p = parse(a, false);
    assert!(p.files_with_matches);
}

#[test]
fn parse_scope_paragraph_sets_paragraph_mode() {
    let mut a = Args::default();
    a.scope = Some("paragraph".to_string());
    a.pattern = Some("x".to_string());
    let p = parse(a, false);
    assert_eq!(p.paragraphs, Some(vec![]));
    assert!(p.is_paragraph_mode());
}

#[test]
fn parse_and_without_base_takes_existing_path() {
    let mut a = Args::default();
    a.pattern = Some("src".to_string());
    a.and = vec!["x".to_string()];
    let p = parse(a, true);
    assert_eq!(p.pattern, None);
    assert_eq!(p.paths, vec!["src".to_string()]);
    let mut a = Args::default();
    a.pattern = Some("src".to_string());
    a.and = vec!["x".to_string()];
    let p = parse(a, false);
    assert_eq!(p.pattern, Some("src".to_string()));
}

#[test]
fn effective_scope_order() {
    let mut a = Args::default();
    assert_eq!(a.effective_scope(), "line");
    a.near = Some(3);
    assert_eq!(a.effective_scope(), "multiline");
    a.paragraphs = Some(vec![]);
    assert_eq!(a.effective_scope(), "paragraph");
    a.scope = Some("---".to_string());
    assert_eq!(a.effective_scope(), "---");
}

#[test]
fn resolve_pattern_errors() {
    let mut a = Args::default();
    assert!(matches!(a.resolve_pattern(&Vec::new()), Err(PatternError::NoPattern)));
    a.paragraphs = Some(vec!["w".to_string()]);
    a.regexp = vec!["e".to_string()];
    assert!(matches!(a.resolve_pattern(&Vec::new()), Err(PatternError::WordsWithRegexp)));
    let mut a = Args::default();
    a.and = vec!["one".to_string()];
    a.near = Some(2);
    assert!(matches!(a.resolve_pattern(&Vec::new()), Err(PatternError::NearNeedsTwoTerms)));
    let mut a = Args::default();
    a.pattern = Some("x".to_string());
    a.near = Some(2);
    assert!(matches!(a.resolve_pattern(&Vec::new()), Err(PatternError::NearNeedsTwoTerms)));
    let mut a = Args::default();
    a.pattern_file = vec!["pats.txt".to_string()];
    match a.resolve_pattern(&vec![Err("gone".to_string())]) {
        Err(PatternError::PatternFile(path, msg)) => {
            assert_eq!(path, "pats.txt");
            assert_eq!(msg, "gone");
        }
        _ => panic!("expected a pattern file error"),
    }
}

#[test]
fn resolve_pattern_shapes() {
    let mut a = Args::default();
    a.pattern = Some("apple".to_string());
    assert_eq!(a.resolve_pattern(&Vec::new()).ok().unwrap(), ("(apple)&(.*)".to_string(), vec![]));
    let mut a = Args::default();
    a.pattern = Some("error".to_string());
    a.not = vec!["debug".to_string()];
    let (p, nots) = a.resolve_pattern(&Vec::new()).ok().unwrap();
    assert_eq!(p, "(^((.*(error).*)&~(.*(debug).*))$)&(.*)");
    assert!(nots.is_empty());
    let mut a = Args::default();
    a.pattern = Some("serde".to_string());
    a.scope = Some("file".to_string());
    a.not = vec!["tokio".to_string()];
    let (p, nots) = a.resolve_pattern(&Vec::new()).ok().unwrap();
    assert_eq!(p, "serde");
    assert_eq!(nots, vec!["(_*(tokio)_*)".to_string()]);
}

#[test]
fn resolve_pattern_reads_pattern_file_lines() {
    let mut a = Args::default();
    a.pattern_file = vec!["pats.txt".to_string()];
    let (p, _) = a.resolve_pattern(&vec![Ok("apple\n\nbanana\n".to_string())]).ok().unwrap();
    assert_eq!(p, "((apple)|(banana))&(.*)");
}

#[test]
fn resolve_pattern_fixed_words_escaped() {
    let mut a = Args::default();
    a.fixed_strings = Some(vec!["a.b".to_string()]);
    let (p, _) = a.resolve_pattern(&Vec::new()).ok().unwrap();
    assert_eq!(p, "(a\\.b)&(.*)");
}

#[test]
fn resolve_pattern_smart_case_sees_uppercase() {
    let mut a = Args::default();
    a.pattern = Some("abc".to_string());
    a.smart_case = true;
    assert_eq!(a.resolve_pattern(&Vec::new()).ok().unwrap().0, "((?i)abc)&(.*)");
    a.pattern = Some("aÉc".to_string());
    assert_eq!(a.resolve_pattern(&Vec::new()).ok().unwrap().0, "(aÉc)&(.*)");
}

#[test]
fn highlight_pattern_only_with_constraints() {
    let mut a = Args::default();
    a.pattern = Some("x".to_string());
    assert_eq!(a.resolve_highlight_pattern(), None);
    a.and = vec!["y".to_string()];
    assert_eq!(a.resolve_highlight_pattern(), Some("(x)|(y)".to_string()));
}

#[test]
fn paragraph_shorthand_gives_same_patterns() {
    let mut p = Args::default();
    p.paragraphs = Some(vec!["word".to_string()]);
    let mut s = Args::default();
    s.scope = Some("paragraph".to_string());
    s.and = vec!["word".to_string()];
    let (p, s) = (parse(p, false), parse(s, false));
    assert_eq!(p.resolve_pattern(&Vec::new()).ok(), s.resolve_pattern(&Vec::new()).ok());
    assert_eq!(p.resolve_highlight_pattern(), s.resolve_highlight_pattern());
}

#[test]
fn max_filesize_values() {
    let mut a = Args::default();
    assert_eq!(a.parse_max_filesize(), Ok(None));
    a.max_filesize = Some(" 10K ".to_string());
    assert_eq!(a.parse_max_filesize(), Ok(Some(10240)));
    a.max_filesize = Some("2m".to_string());
    assert_eq!(a.parse_max_filesize(), Ok(Some(2 * 1024 * 1024)));
    a.max_filesize = Some("1G".to_string());
    assert_eq!(a.parse_max_filesize(), Ok(Some(1024 * 1024 * 1024)));
    a.max_filesize = Some("12".to_string());
    assert_eq!(a.parse_max_filesize(), Ok(Some(12)));
    a.max_filesize = Some(" lots ".to_string());
    assert_eq!(a.parse_max_filesize(), Err(FilesizeError::Invalid("lots".to_string())));
}

#[test]
fn parse_u64_like_std() {
    assert_eq!(parse_u64("42"), Some(42));
    assert_eq!(parse_u64("+7"), Some(7));
    assert_eq!(parse_u64(""), None);
    assert_eq!(parse_u64("-1"), None);
    assert_eq!(parse_u64("18446744073709551615"), Some(u64::MAX));
    assert_eq!(parse_u64("18446744073709551616"), None);
}

#[test]
fn color_choices() {
    let mut a = Args::default();
    assert_eq!(a.color_choice(false, true), ColorMode::Auto);
    assert_eq!(a.color_choice(false, false), ColorMode::Never);
    assert_eq!(a.color_choice(true, true), ColorMode::Never);
    a.color = "always".to_string();
    assert_eq!(a.color_choice(false, false), ColorMode::Always);
    a.json = true;
    assert_eq!(a.color_choice(false, false), ColorMode::Never);
}

#[test]
fn small_option_helpers() {
    let mut a = Args::default();
    assert!(!a.use_mmap(10));
    assert!(a.use_mmap(1 << 20));
    a.mmap = true;
    assert!(a.use_mmap(10));
    a.no_mmap = true;
    assert!(!a.use_mmap(1 << 30));
    assert_eq!(a.resolved_paths(), vec![".".to_string()]);
    a.unrestricted = 3;
    assert!(a.effective_hidden() && a.effective_no_ignore() && a.search_binary());
    a.max_count = Some(5);
    a.max_total = Some(7);
    assert_eq!(a.effective_max(0), Some(5));
    assert_eq!(a.effective_max(4), Some(3));
    assert_eq!(a.effective_max(9), Some(0));
    assert!(a.show_line_number(true));
    a.no_line_number = true;
    assert!(!a.show_line_number(true));
    assert!(!a.is_fixed_strings());
    a.fixed_strings = Some(vec![]);
    assert!(a.is_fixed_strings());
}

#[test]
fn path_lines() {
    let mut out = Vec::new();
    path_line(&mut out, "/a/b.txt", false);
    path_line(&mut out, "/c", true);
    let pieces: Vec<(Paint, Vec<u8>)> = out.iter().map(|p| (p.paint, p.bytes.clone())).collect();
    assert_eq!(
        pieces,
        vec![
            (Paint::Magenta, b"/a/b.txt".to_vec()),
            (Paint::Plain, b"\n".to_vec()),
            (Paint::Plain, b"/c\0".to_vec()),
        ]
    );
}

#[test]
fn indent_counts_spaces_and_tabs() {
    let buf = b"a\n  \tb\n\n    \n";
    let starts = build_line_index(buf);
    assert_eq!(get_indent(buf, &starts, 0), 0);
    assert_eq!(get_indent(buf, &starts, 1), 3);
    assert_eq!(get_indent(buf, &starts, 2), 0);
    assert_eq!(get_indent(buf, &starts, 3), 4);
}

#[test]
fn bad_pattern_is_refused() {
    assert!(resharp_grep::engine::Matcher::compile("[invalid", 65535).is_err());
    assert!(resharp_grep::engine::Matcher::compile("[valid]", 65535).is_ok());
}

#[test]
fn matcher_finds_ordered_ranges() {
    let m = resharp_grep::engine::Matcher::compile("a+", 65535).unwrap();
    assert_eq!(m.find_all(b"baab a").unwrap(), vec![(1, 3), (5, 6)]);
    assert_eq!(m.is_match(b"xyz"), Some(false));
    assert_eq!(m.is_match(b"xya"), Some(true));
}

#[test]
fn engine_answers_on_empty_input() {
    let m = resharp_grep::engine::Matcher::compile("x*", 65535).unwrap();
    assert_eq!(m.is_match(b""), Some(true));
    assert!(m.find_all(b"").is_some());
    let never = resharp_grep::engine::Matcher::compile("x", 65535).unwrap();
    assert_eq!(never.is_match(b""), Some(false));
    assert_eq!(never.find_all(b""), Some(vec![]));
    assert!(resharp_grep::search::any_not_matches(&[never, m], b""));
    let never = resharp_grep::engine::Matcher::compile("x", 65535).unwrap();
    assert!(!resharp_grep::search::any_not_matches(&[never], b""));
}

#[test]
fn highlight_ranges_prefers_found_matches() {
    let old = vec![(0, 3)];
    assert_eq!(highlight_ranges(old.clone(), Some(vec![(1, 2), (4, 6)])), vec![(1, 2), (4, 6)]);
    assert_eq!(highlight_ranges(old.clone(), Some(vec![])), vec![(0, 3)]);
    assert_eq!(highlight_ranges(old, None), vec![(0, 3)]);
}

#[test]
fn trim_removes_unicode_whitespace() {
    assert_eq!(trim("\u{3000}\t abc \u{2028}\u{85}"), "abc");
    assert_eq!(trim("\u{200b}x\u{200b}"), "\u{200b}x\u{200b}");
    assert_eq!(trim(" \u{a0} "), "");
}

fn line_len(buf: &[u8], start: usize) -> usize {
    buf[start..].iter().position(|&b| b == b'\n').unwrap_or(buf.len() - start)
}

#[test]
fn search_ranges_stay_within_their_lines() {
    let buf = b"xab\ncdy\nzzz\nab";
    let re = Matcher::compile("b\ncd", 65535).unwrap();
    let res = search_buffer(&re, None, buf, &Args::default(), None);
    assert!(!res.had_error);
    let lines: Vec<(usize, usize, Vec<(usize, usize)>)> =
        res.matches.iter().map(|m| (m.line_number, m.line_start, m.match_ranges.clone())).collect();
    assert_eq!(lines, vec![(0, 0, vec![(2, 3)]), (1, 4, vec![(0, 2)])]);
    for lm in &res.matches {
        for &(s, e) in &lm.match_ranges {
            assert!(s <= e && e <= line_len(buf, lm.line_start));
        }
    }
    let hl = Matcher::compile("a", 65535).unwrap();
    let res = search_buffer(&re, Some(&hl), buf, &Args::default(), None);
    let lines: Vec<(usize, Vec<(usize, usize)>)> =
        res.matches.iter().map(|m| (m.line_number, m.match_ranges.clone())).collect();
    assert_eq!(lines, vec![(0, vec![(1, 2)]), (1, vec![(0, 2)])]);
}

#[test]
fn paginating_chunks_equals_paginating_the_whole() {
    let a: &[u8] = b"1\n2\n3\n";
    let b: &[u8] = b"4\n5\n6\n7\n";
    let whole = [a, b].concat();
    for (off, head) in [(0usize, None), (1, Some(3usize)), (2, Some(1)), (4, Some(2)), (3, Some(0)), (9, None), (1, Some(9))] {
        let (mut o1, mut h1) = (off, head);
        let (pa, ta) = paginate_chunk(a, &mut o1, &mut h1);
        let (pb, tb) = paginate_chunk(b, &mut o1, &mut h1);
        let (mut o2, mut h2) = (off, head);
        let (pc, tc) = paginate_chunk(&whole, &mut o2, &mut h2);
        let joined = [pa.unwrap_or(b""), pb.unwrap_or(b"")].concat();
        assert_eq!(joined, pc.unwrap_or(b"").to_vec());
        assert_eq!(ta || tb, tc);
        assert_eq!((o1, h1), (o2, h2));
    }
}

#[test]
fn prefix_width_is_the_printed_prefix_length() {
    let buf = b"alpha\nbeta gamma\n";
    let matches = vec![LineMatch { line_number: 1, line_start: 6, match_ranges: vec![(5, 10)] }];
    let mut a = Args::default();
    a.line_number = true;
    a.byte_offset = true;
    a.column = true;
    let opts = opts_for(a);
    let mut out = Report::new();
    let mut seen = UniqueSet::new();
    write_results_with_unique(&mut out, buf, &matches, Some("f.txt"), &opts, &mut seen);
    let mut bytes = Vec::new();
    for p in &out.pieces {
        bytes.extend_from_slice(&p.bytes);
    }
    let printed = String::from_utf8(bytes).unwrap();
    let body = printed.find("beta").unwrap();
    assert_eq!(prefix_width(Some("f.txt"), &opts, &matches[0]), body);
}

#[test]
fn unique_text_skips_repeated_lines() {
    let buf = b"same\nother\nsame\n";
    let matches = vec![
        LineMatch { line_number: 0, line_start: 0, match_ranges: vec![(0, 4)] },
        LineMatch { line_number: 1, line_start: 5, match_ranges: vec![(0, 5)] },
        LineMatch { line_number: 2, line_start: 11, match_ranges: vec![(0, 4)] },
    ];
    let mut a = Args::default();
    a.unique = true;
    let opts = opts_for(a);
    let mut seen = UniqueSet::new();
    let mut out = Report::new();
    write_results_with_unique(&mut out, buf, &matches, None, &opts, &mut seen);
    let mut bytes = Vec::new();
    for p in &out.pieces {
        bytes.extend_from_slice(&p.bytes);
    }
    assert_eq!(bytes, b"same\nother\n".to_vec());
    let mut out = Report::new();
    write_results_with_unique(&mut out, buf, &matches[1..2], None, &opts, &mut seen);
    assert!(out.pieces.is_empty());
}
