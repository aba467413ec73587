use resharp_grep::args::{parse, Args};
use resharp_grep::engine::Matcher;
use resharp_grep::printer::{PrinterOpts, Report};
use resharp_grep::report::search_stdin;
use resharp_grep::walk::exit_status;

/// Searches `input` as standard input with the options `raw`, the way the
/// program does: (the text printed, without colors and trailing blanks; the
/// exit status).
fn run_stdin(raw: Args, input: &str) -> (String, u8) {
    let args = parse(raw, false);
    let (pattern, nots) = match args.resolve_pattern(&Vec::new()) {
        Ok(p) => p,
        Err(_) => panic!("no pattern could be built"),
    };
    let re = Matcher::compile(&pattern, args.dfa_capacity).unwrap();
    let highlight = args
        .resolve_highlight_pattern()
        .map(|p| Matcher::compile(&p, args.dfa_capacity).unwrap());
    let not_res: Vec<Matcher> = nots
        .iter()
        .map(|n| Matcher::compile(n, args.dfa_capacity).unwrap())
        .collect();
    let opts = PrinterOpts::from_args(&args, false, false, false, 120);
    let mut out = Report::new();
    let (found, _) =
        search_stdin(&re, highlight.as_ref(), &not_res, input.as_bytes(), &args, &opts, &mut out).unwrap();
    (text(&out), exit_status(found, false))
}

fn text(r: &Report) -> String {
    let mut bytes = Vec::new();
    for p in &r.pieces {
        bytes.extend_from_slice(&p.bytes);
    }
    String::from_utf8_lossy(&bytes).trim_end().to_string()
}

fn pat(p: &str) -> Args {
    let mut a = Args::default();
    a.pattern = Some(p.to_string());
    a
}

fn numbered(p: &str) -> Args {
    let mut a = pat(p);
    a.line_number = true;
    a
}

const FRUITS: &str = "apple pie\nbanana split\napple sauce\ncherry tart\ngrape juice\n";
const HELLOS: &str = "hello world\nHello World\nHELLO WORLD\nhello\n";

#[test]
fn stdin_match() {
    let (out, _) = run_stdin(pat("apple"), "apple pie\nbanana split\napple sauce\n");
    assert_eq!(out, "apple pie\napple sauce");
}

#[test]
fn no_match_empty() {
    let (out, code) = run_stdin(pat("xyz"), "abc\n");
    assert_eq!(out, "");
    assert_eq!(code, 1);
}

#[test]
fn regex_char_class() {
    let (out, _) = run_stdin(numbered("[ac].*e"), "apple pie\nbanana split\napple sauce\ncherry tart\n");
    assert_eq!(out, "1:apple pie\n3:apple sauce\n4:cherry tart");
}

#[test]
fn regex_anchor_start() {
    let (out, _) = run_stdin(numbered("^apple"), FRUITS);
    assert_eq!(out, "1:apple pie\n3:apple sauce");
}

#[test]
fn regex_anchor_end() {
    let (out, _) = run_stdin(numbered("e$"), FRUITS);
    assert_eq!(out, "1:apple pie\n3:apple sauce\n5:grape juice");
}

#[test]
fn no_trailing_newline() {
    let (out, _) = run_stdin(numbered("newline"), "no newline at end");
    assert_eq!(out, "1:no newline at end");
}

#[test]
fn empty_input() {
    let (out, code) = run_stdin(pat("test"), "");
    assert_eq!(out, "");
    assert_eq!(code, 1);
}

#[test]
fn case_insensitive() {
    let mut a = numbered("hello");
    a.ignore_case = true;
    let (out, _) = run_stdin(a, HELLOS);
    assert_eq!(out, "1:hello world\n2:Hello World\n3:HELLO WORLD\n4:hello");
}

#[test]
fn case_sensitive() {
    let mut a = numbered("hello");
    a.case_sensitive = true;
    let (out, _) = run_stdin(a, HELLOS);
    assert_eq!(out, "1:hello world\n4:hello");
}

#[test]
fn smart_case_lower() {
    let mut a = numbered("hello");
    a.smart_case = true;
    let (out, _) = run_stdin(a, HELLOS);
    assert_eq!(out, "1:hello world\n2:Hello World\n3:HELLO WORLD\n4:hello");
}

#[test]
fn smart_case_upper() {
    let mut a = numbered("Hello");
    a.smart_case = true;
    let (out, _) = run_stdin(a, HELLOS);
    assert_eq!(out, "2:Hello World");
}

#[test]
fn case_insensitive_union_all_terms() {
    let input = "MIN\nMAX\n";
    let mut a = numbered("min|max");
    a.ignore_case = true;
    let (out, _) = run_stdin(a, input);
    assert_eq!(out, "1:MIN\n2:MAX", "min|max should match both MIN and MAX");
    let mut a = numbered("max|min");
    a.ignore_case = true;
    let (out, _) = run_stdin(a, input);
    assert_eq!(out, "1:MIN\n2:MAX", "max|min should match both MIN and MAX");
}

#[test]
fn invert_match() {
    let mut a = numbered("apple|sauce");
    a.invert_match = true;
    let (out, _) = run_stdin(a, FRUITS);
    assert_eq!(out, "2:banana split\n4:cherry tart\n5:grape juice");
}

#[test]
fn word_match() {
    let mut a = numbered("cat");
    a.word_regexp = true;
    let (out, _) = run_stdin(a, "the cat sat\ncatalog\nthe cat and dog\nscatter\n");
    assert_eq!(out, "1:the cat sat\n3:the cat and dog");
}

#[test]
fn line_match() {
    let mut a = numbered("hello");
    a.line_regexp = true;
    let (out, _) = run_stdin(a, HELLOS);
    assert_eq!(out, "4:hello");
}

#[test]
fn max_count() {
    let mut a = numbered("apple");
    a.max_count = Some(1);
    let (out, _) = run_stdin(a, "apple pie\nbanana split\napple sauce\n");
    assert_eq!(out, "1:apple pie");
}

#[test]
fn count() {
    let mut a = pat("apple");
    a.count = true;
    let (out, _) = run_stdin(a, FRUITS);
    assert_eq!(out, "2");
}

#[test]
fn only_matching() {
    let mut a = numbered("apple");
    a.only_matching = true;
    let (out, _) = run_stdin(a, FRUITS);
    assert_eq!(out, "1:apple\n3:apple");
}

#[test]
fn only_matching_multiple_per_line_column() {
    let mut a = pat("foo");
    a.only_matching = true;
    a.column = true;
    let (out, _) = run_stdin(a, "foo bar foo baz\n");
    assert_eq!(out, "1:foo\n9:foo");
}

#[test]
fn only_matching_multiple_per_line_byte_offset() {
    let mut a = pat("foo");
    a.only_matching = true;
    a.byte_offset = true;
    let (out, _) = run_stdin(a, "foo bar foo baz\n");
    assert_eq!(out, "0:foo\n8:foo");
}

#[test]
fn only_matching_multiple_per_line_vimgrep() {
    let mut a = pat("foo");
    a.only_matching = true;
    a.vimgrep = true;
    let (out, _) = run_stdin(a, "foo bar foo baz\n");
    assert_eq!(out, "1:1:foo\n1:9:foo");
}

#[test]
fn exclude_match_with_positive() {
    let mut a = Args::default();
    a.and = vec!["hello".to_string(), "world".to_string()];
    a.exclude_match = vec!["\"".to_string()];
    let (out, _) = run_stdin(a, "hello world\nhello \"world\"\n");
    assert_eq!(out, "hello world");
}

#[test]
fn and_alternation_grouped() {
    let mut a = Args::default();
    a.and = vec!["foo|bar".to_string()];
    let (out, _) = run_stdin(a, "foo line\nbar line\nbaz line\n");
    assert_eq!(out, "foo line\nbar line");
}

#[test]
fn not_alternation_grouped() {
    let mut a = pat("_*");
    a.not = vec!["aaa|ccc".to_string()];
    let (out, _) = run_stdin(a, "aaa\nbbb\nccc\n");
    assert_eq!(out, "bbb");
}

#[test]
fn column() {
    let mut a = numbered("bar");
    a.column = true;
    let (out, _) = run_stdin(a, "foo bar baz\n");
    assert_eq!(out, "1:5:foo bar baz");
}

#[test]
fn byte_offset() {
    let mut a = numbered("bbb");
    a.byte_offset = true;
    let (out, _) = run_stdin(a, "aaa\nbbb\nccc\n");
    assert_eq!(out, "2:4:bbb");
}

#[test]
fn after_context() {
    let mut a = numbered("banana");
    a.after_context = Some(1);
    let (out, _) = run_stdin(a, FRUITS);
    assert_eq!(out, "2:banana split\n3-apple sauce");
}

#[test]
fn before_context() {
    let mut a = numbered("banana");
    a.before_context = Some(1);
    let (out, _) = run_stdin(a, FRUITS);
    assert_eq!(out, "1-apple pie\n2:banana split");
}

#[test]
fn context_both() {
    let mut a = numbered("apple");
    a.context = Some(1);
    let (out, _) = run_stdin(a, FRUITS);
    assert_eq!(out, "1:apple pie\n2-banana split\n3:apple sauce\n4-cherry tart");
}

#[test]
fn context_separator() {
    let mut a = numbered("pie|juice");
    a.context = Some(1);
    let (out, _) = run_stdin(a, FRUITS);
    assert_eq!(out, "1:apple pie\n2-banana split\n--\n4-cherry tart\n5:grape juice");
}

#[test]
fn multiple_patterns_e() {
    let mut a = Args::default();
    a.line_number = true;
    a.regexp = vec!["apple".to_string(), "banana".to_string()];
    let (out, _) = run_stdin(a, FRUITS);
    assert_eq!(out, "1:apple pie\n2:banana split\n3:apple sauce");
}

#[test]
fn fixed_strings() {
    let mut a = Args::default();
    a.line_number = true;
    a.fixed_strings = Some(vec!["foo.bar".to_string()]);
    let (out, _) = run_stdin(a, "foo.bar\nfooXbar\n");
    assert_eq!(out, "1:foo.bar");
}

#[test]
fn fixed_strings_underscore() {
    let mut a = Args::default();
    a.line_number = true;
    a.fixed_strings = Some(vec!["a_b".to_string()]);
    let (out, _) = run_stdin(a, "a_b\naxb\nabc\n");
    assert_eq!(out, "1:a_b");
}

#[test]
fn fixed_strings_all_meta() {
    let mut a = Args::default();
    a.line_number = true;
    a.fixed_strings = Some(vec!["_&~".to_string()]);
    let (out, _) = run_stdin(a, "_&~\nabc\n");
    assert_eq!(out, "1:_&~");
}

#[test]
fn raw_underscore_literal() {
    let mut a = numbered("a_b");
    a.raw = true;
    let (out, _) = run_stdin(a, "a_b\naxb\nabc\n");
    assert_eq!(out, "1:a_b");
}

#[test]
fn raw_regex_still_works() {
    let mut a = numbered("a.b");
    a.raw = true;
    let (out, _) = run_stdin(a, "a_b\naxb\nabc\n");
    assert_eq!(out, "1:a_b\n2:axb");
}

#[test]
fn raw_backslash_preserved() {
    let mut a = numbered(r"\d+_\d+");
    a.raw = true;
    let (out, _) = run_stdin(a, "3_4\nabc\n12_34\n");
    assert_eq!(out, "1:3_4\n3:12_34");
}

#[test]
fn wildcard_underscore() {
    let (out, _) = run_stdin(numbered("_*apple_*"), FRUITS);
    assert_eq!(out, "1:apple pie\n3:apple sauce");
}

#[test]
fn intersection() {
    let (out, _) = run_stdin(numbered("(_*cat_*)&(_*the_*)"), "the cat sat\ncatalog\nthe cat and dog\nscatter\n");
    assert_eq!(out, "1:the cat sat\n3:the cat and dog");
}

#[test]
fn intersection_both() {
    let (out, _) = run_stdin(numbered("(_*cat_*)&(_*dog_*)"), "the cat sat\ncatalog\nthe cat and dog\nscatter\n");
    assert_eq!(out, "3:the cat and dog");
}

#[test]
fn scope_line_default() {
    let mut a = Args::default();
    a.line_number = true;
    a.and = vec!["cat".to_string(), "dog".to_string()];
    let (out, _) = run_stdin(a, "the cat and dog\ncat only\ndog only\n");
    assert_eq!(out, "1:the cat and dog");
}

#[test]
fn paragraphs_words_no_match_cross_para() {
    let mut a = Args::default();
    a.paragraphs = Some(vec!["cats".to_string(), "dogs".to_string()]);
    let (out, code) = run_stdin(a, "first paragraph about\ncats only\n\nsecond paragraph about\ndogs only\n");
    assert_eq!(out, "");
    assert_eq!(code, 1);
}

#[test]
fn paragraphs_words_match() {
    let mut a = Args::default();
    a.line_number = true;
    a.paragraphs = Some(vec!["cats".to_string(), "dogs".to_string()]);
    let input = "first paragraph about\ncats and dogs together\n\nsecond paragraph about\nfish and birds\n";
    let (out, code) = run_stdin(a, input);
    assert_eq!(code, 0);
    let lines: Vec<&str> = out.lines().take(2).collect();
    assert_eq!(lines, vec!["1:first paragraph about", "2:cats and dogs together"]);
}

#[test]
fn near_too_far() {
    let mut a = Args::default();
    a.near = Some(2);
    a.and = vec!["unsafe".to_string(), "unwrap".to_string()];
    let (out, code) = run_stdin(a, "unsafe {\n  a;\n  b;\n  c;\n  d;\n  e;\n  f.unwrap();\n}\n");
    assert_eq!(code, 1);
    assert_eq!(out, "");
}

#[test]
fn near_within_range() {
    let mut a = Args::default();
    a.near = Some(2);
    a.and = vec!["unsafe".to_string(), "unwrap".to_string()];
    let (out, code) = run_stdin(a, "unsafe {\n  f.unwrap();\n}\n");
    assert_eq!(code, 0);
    assert!(out.contains("unsafe"));
    assert!(out.contains("unwrap"));
}

#[test]
fn max_total_stdin() {
    let mut a = pat("apple");
    a.max_total = Some(2);
    let (out, _) = run_stdin(a, "apple 1\napple 2\napple 3\napple 4\n");
    assert_eq!(out.lines().count(), 2);
}

#[test]
fn unique_only_matching() {
    let mut a = pat("apple|banana");
    a.only_matching = true;
    a.unique = true;
    let (out, _) = run_stdin(a, "apple pie\nbanana split\napple sauce\nbanana cream\napple tart\n");
    assert_eq!(out.lines().count(), 2);
}

#[test]
fn unique_full_lines() {
    let mut a = pat("dup");
    a.unique = true;
    let (out, _) = run_stdin(a, "dup line\nother\ndup line\ndup line\n");
    assert_eq!(out.lines().count(), 1);
}

#[test]
fn show_scope_rust_impl_method() {
    let mut a = numbered("unwrap");
    a.show_scope = true;
    let (out, code) = run_stdin(a, "impl Foo {\n    fn bar(&self) {\n        self.x.unwrap();\n    }\n}\n");
    assert_eq!(code, 0);
    assert!(out.contains("2:  fn bar(&self) {"), "out was:\n{out}");
    assert!(out.contains("3:        self.x.unwrap();"), "out was:\n{out}");
    assert!(!out.contains("impl Foo"), "should pick innermost scope, got:\n{out}");
}

#[test]
fn show_scope_rust_dedupes_within_same_fn() {
    let mut a = numbered("unwrap");
    a.show_scope = true;
    let (out, code) = run_stdin(a, "fn process() {\n    a.unwrap();\n    b.unwrap();\n}\n");
    assert_eq!(code, 0);
    assert_eq!(out.matches("fn process()").count(), 1, "out was:\n{out}");
    assert!(out.contains("2:    a.unwrap();"), "out was:\n{out}");
    assert!(out.contains("3:    b.unwrap();"), "out was:\n{out}");
}

#[test]
fn show_scope_rust_skips_blank_lines() {
    let mut a = pat("unwrap");
    a.show_scope = true;
    let (out, code) = run_stdin(a, "fn outer() {\n    let x = 1;\n\n    val.unwrap();\n}\n");
    assert_eq!(code, 0);
    assert!(out.contains("fn outer() {"), "out was:\n{out}");
}

#[test]
fn show_scope_rust_no_enclosing_scope() {
    let mut a = numbered("unwrap_me");
    a.show_scope = true;
    let (out, code) = run_stdin(a, "let x = unwrap_me();\n");
    assert_eq!(code, 0);
    assert_eq!(out, "1:let x = unwrap_me();");
}

#[test]
fn passthru_shows_every_line_once() {
    let mut a = numbered("apple");
    a.passthru = true;
    let (out, code) = run_stdin(a, "apple pie\nbanana split\napple sauce\n");
    assert_eq!(code, 0);
    assert_eq!(out, "1:apple pie\n2:banana split\n3:apple sauce");
}

#[test]
fn replace_matched_text() {
    let mut a = pat("apple");
    a.replace = Some("pear".to_string());
    let (out, _) = run_stdin(a, "apple pie\nbanana split\n");
    assert_eq!(out, "pear pie");
}

#[test]
fn max_columns_skips_wide_lines() {
    let mut a = pat("x");
    a.max_columns = Some(3);
    let (out, code) = run_stdin(a, "xxxxxx\nxx\n");
    assert_eq!(code, 0);
    assert_eq!(out, "xx");
}

#[test]
fn quiet_prints_nothing_but_finds() {
    let mut a = pat("apple");
    a.quiet = true;
    let (out, code) = run_stdin(a, FRUITS);
    assert_eq!(out, "");
    assert_eq!(code, 0);
}

#[test]
fn not_excludes_whole_stdin_in_file_scope() {
    let mut a = pat("apple");
    a.scope = Some("file".to_string());
    a.not = vec!["cherry".to_string()];
    a.count = true;
    let (out, code) = run_stdin(a, FRUITS);
    assert_eq!(out, "");
    assert_eq!(code, 1);
}

#[test]
fn stdin_no_line_numbers_by_default() {
    let (out, code) = run_stdin(pat("apple"), "apple\nbanana\napple pie\n");
    assert_eq!(code, 0);
    assert_eq!(out, "apple\napple pie");
}

#[test]
fn stdin_line_numbers_with_flag() {
    let (out, code) = run_stdin(numbered("apple"), "apple\nbanana\napple pie\n");
    assert_eq!(code, 0);
    assert_eq!(out, "1:apple\n3:apple pie");
}

#[test]
fn e_flag_union() {
    let mut a = Args::default();
    a.regexp = vec!["foo".to_string(), "bar".to_string()];
    let (out, code) = run_stdin(a, "foo\nbar\nbaz\n");
    assert_eq!(code, 0);
    assert_eq!(out, "foo\nbar");
}

#[test]
fn e_flag_union_with_and() {
    let mut a = Args::default();
    a.regexp = vec!["foo".to_string(), "bar".to_string()];
    a.and = vec!["x".to_string()];
    let (out, code) = run_stdin(a, "foo x\nbar x\nfoo y\nbaz x\n");
    assert_eq!(code, 0);
    assert_eq!(out, "foo x\nbar x");
}

#[test]
fn e_flag_union_with_not() {
    let mut a = Args::default();
    a.regexp = vec!["foo".to_string(), "bar".to_string()];
    a.not = vec!["x".to_string()];
    let (out, code) = run_stdin(a, "foo x\nbar x\nfoo y\nbar z\nbaz\n");
    assert_eq!(code, 0);
    assert_eq!(out, "foo y\nbar z");
}

#[test]
fn exclude_match_alone() {
    let mut a = Args::default();
    a.only_matching = true;
    a.exclude_match = vec!["\"".to_string()];
    let (out, _) = run_stdin(a, "so I should investigate that.\",\"thinkingSignature\":\"EvsBClkIDBg\n");
    assert!(out.contains("so I should investigate that."), "got: {out:?}");
    assert!(out.contains("thinkingSignature"), "got: {out:?}");
    assert!(out.contains("EvsBClkIDBg"), "got: {out:?}");
    assert!(!out.contains('"'), "matches must not contain quote: {out:?}");
}

#[test]
fn exclude_match_alternation_grouped() {
    let mut a = Args::default();
    a.and = vec!["\\.unwrap[a-z_]*\\(".to_string()];
    a.exclude_match = vec!["unwrap_or|unwrap_err|unwrap_unchecked".to_string()];
    let input = "x.unwrap();\nx.unwrap_or(y);\nx.unwrap_err();\nx.unwrap_unchecked();\n";
    let (out, _) = run_stdin(a, input);
    assert_eq!(out, "x.unwrap();");
}

#[test]
fn exclude_match_differs_from_not() {
    let mut a = pat("_*");
    a.not = vec!["\"".to_string()];
    let (out_n, _) = run_stdin(a, "aaa\n\"bbb\"\nccc\n");
    assert_eq!(out_n, "aaa\nccc");
    let mut a = pat("_*");
    a.only_matching = true;
    a.exclude_match = vec!["\"".to_string()];
    let (out_e, _) = run_stdin(a, "aaa\n\"bbb\"\nccc\n");
    assert!(out_e.contains("aaa"), "got: {out_e:?}");
    assert!(out_e.contains("bbb"), "got: {out_e:?}");
    assert!(out_e.contains("ccc"), "got: {out_e:?}");
    assert!(!out_e.contains('"'), "got: {out_e:?}");
}

#[test]
fn lookahead_positive() {
    let (out, _) = run_stdin(numbered("(?=.*cat)(?=.*mat).*"), "the cat sat on the mat\nthe dog sat\ncat on mat\n");
    assert_eq!(out, "1:the cat sat on the mat\n3:cat on mat");
}

#[test]
fn lookbehind_positive() {
    let (out, _) = run_stdin(numbered("(?<=foo)bar"), "foobar\nbazbar\nfooqux\n");
    assert_eq!(out, "1:foobar");
}

#[test]
fn paragraphs_blocks_cross_para() {
    let mut a = Args::default();
    a.paragraphs = Some(vec!["(_*cats_*)&(_*fish_*)".to_string()]);
    let input = "first paragraph about\ncats and dogs together\n\nsecond paragraph about\nfish and birds\n\nthird paragraph with\ncats but no dogs\n";
    let (out, code) = run_stdin(a, input);
    assert_eq!(out, "");
    assert_eq!(code, 1);
}

#[test]
fn paragraphs_words_with_not() {
    let mut a = Args::default();
    a.paragraphs = Some(vec!["cats".to_string()]);
    a.not = vec!["dogs".to_string()];
    let (out, code) = run_stdin(a, "cats and dogs\nare friends\n\ncats and birds\nare enemies\n");
    assert_eq!(code, 0);
    assert!(out.contains("birds"));
    assert!(!out.contains("dogs"));
}

#[test]
fn scope_paragraph() {
    let mut a = Args::default();
    a.scope = Some("paragraph".to_string());
    a.and = vec!["cats".to_string(), "dogs".to_string()];
    let (out, code) = run_stdin(a, "cats and\ndogs together\n\nfish only\n");
    assert_eq!(code, 0);
    assert!(out.contains("cats and"));
    assert!(out.contains("dogs together"));
    assert!(!out.contains("fish"));
}

#[test]
fn scope_custom_no_cross() {
    let mut a = pat("(_*error_*)&(_*timeout_*)");
    a.scope = Some("\n\n".to_string());
    let (out, code) = run_stdin(a, "error here\n\ntimeout here\n");
    assert_eq!(out, "");
    assert_eq!(code, 1);
}

#[test]
fn trim_long_line() {
    let long = format!("{}FINDME{}", "x".repeat(200), "y".repeat(200));
    let mut a = pat("FINDME");
    a.trim = true;
    let (out, code) = run_stdin(a, &long);
    assert_eq!(code, 0);
    assert!(out.contains("FINDME"), "match should be visible");
    assert!(out.contains("\u{2026}"), "should have ellipsis");
    assert!(out.len() < long.len(), "output should be shorter than input");
}

#[test]
fn trim_short_line_unchanged() {
    let mut a = pat("hello");
    a.trim = true;
    a.no_line_number = true;
    let (out, code) = run_stdin(a, "hello world");
    assert_eq!(code, 0);
    assert_eq!(out, "hello world");
}

#[test]
fn trim_match_at_start() {
    let long = format!("FINDME{}", "x".repeat(300));
    let mut a = pat("FINDME");
    a.trim = true;
    a.no_line_number = true;
    let (out, code) = run_stdin(a, &long);
    assert_eq!(code, 0);
    assert!(out.starts_with("FINDME"), "match at start should remain at start");
    assert!(out.ends_with("\u{2026}"), "should end with ellipsis");
}

#[test]
fn vimgrep_basic() {
    let mut a = pat("hello");
    a.vimgrep = true;
    let (out, code) = run_stdin(a, "hello world\nfoo\nhello again");
    assert_eq!(code, 0);
    assert_eq!(out, "1:1:hello world\n3:1:hello again");
}

#[test]
fn vimgrep_multiple_matches_per_line() {
    let mut a = pat("aaa");
    a.vimgrep = true;
    let (out, code) = run_stdin(a, "aaa bbb aaa");
    assert_eq!(code, 0);
    assert_eq!(out, "1:1:aaa bbb aaa\n1:9:aaa bbb aaa");
}

#[test]
fn passthru_shows_all_lines() {
    let mut a = pat("foo");
    a.passthru = true;
    a.no_line_number = true;
    let (out, code) = run_stdin(a, "line one\nfoo bar\nline three\nfoo baz\nline five");
    assert_eq!(code, 0);
    let lines: Vec<&str> = out.lines().collect();
    assert_eq!(lines.len(), 5);
    assert_eq!(lines[0], "line one");
    assert_eq!(lines[1], "foo bar");
    assert_eq!(lines[4], "line five");
}

#[test]
fn passthru_no_match_exit_1() {
    let mut a = pat("xyz");
    a.passthru = true;
    let (_, code) = run_stdin(a, "no match here");
    assert_eq!(code, 1);
}

#[test]
fn max_columns_skips_long_lines() {
    let mut a = pat("match");
    a.max_columns = Some(20);
    a.no_line_number = true;
    let (out, code) = run_stdin(a, "short match\nthis is a very long line that also has match in it\nmatch again");
    assert_eq!(code, 0);
    let lines: Vec<&str> = out.lines().collect();
    assert_eq!(lines, vec!["short match", "match again"]);
}

#[test]
fn context_separator_custom() {
    let mut a = pat("x");
    a.context = Some(1);
    a.context_separator = "~~~".to_string();
    let (out, _) = run_stdin(a, "a\nx\nb\nc\nd\nx\ne");
    assert!(out.contains("~~~"), "should use custom separator");
    assert!(!out.contains("\n--\n"), "should not use default separator");
}

#[test]
fn context_separator_empty() {
    let mut a = pat("x");
    a.context = Some(1);
    a.context_separator = String::new();
    let (out, _) = run_stdin(a, "a\nx\nb\nc\nd\nx\ne");
    assert!(!out.contains("\n--\n"), "should suppress separator");
    assert_eq!(out, "a\nx\nb\nd\nx\ne");
}

#[test]
fn overlapping_context_prints_each_line_once() {
    let mut a = numbered("x");
    a.context = Some(2);
    let (out, _) = run_stdin(a, "a\nx\nb\nx\nc\n");
    assert_eq!(out, "1-a\n2:x\n3-b\n4:x\n5-c");
}

fn stdin_count(raw: Args, input: &str) -> (String, bool, usize) {
    let args = parse(raw, false);
    let (pattern, _) = match args.resolve_pattern(&Vec::new()) {
        Ok(p) => p,
        Err(_) => panic!("no pattern could be built"),
    };
    let re = Matcher::compile(&pattern, args.dfa_capacity).unwrap();
    let opts = PrinterOpts::from_args(&args, false, false, false, 120);
    let mut out = Report::new();
    let (found, count) = search_stdin(&re, None, &[], input.as_bytes(), &args, &opts, &mut out).unwrap();
    (text(&out), found, count)
}

#[test]
fn count_matches_stdin() {
    let mut a = pat("a");
    a.count_matches = true;
    let (out, found, count) = stdin_count(a, "a\nb\na\nc\na\n");
    assert_eq!(out, "");
    assert!(found);
    assert_eq!(count, 3);
}

#[test]
fn count_matches_no_matches() {
    let mut a = pat("z");
    a.count_matches = true;
    let (out, found, count) = stdin_count(a, "a\nb\nc\n");
    assert_eq!(out, "");
    assert!(!found);
    assert_eq!(count, 0);
}
