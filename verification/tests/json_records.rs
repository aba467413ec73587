use resharp_grep::args::{parse, Args};
use resharp_grep::engine::Matcher;
use resharp_grep::printer::{JsonRecord, PrinterOpts, Report, UniqueSet};
use resharp_grep::report::{search_file_to_writer, search_stdin};

fn matcher(args: &Args) -> Matcher {
    let (pattern, _) = match args.resolve_pattern(&Vec::new()) {
        Ok(p) => p,
        Err(_) => panic!("no pattern could be built"),
    };
    Matcher::compile(&pattern, args.dfa_capacity).unwrap()
}

fn stdin_records(raw: Args, input: &str) -> Vec<JsonRecord> {
    let args = parse(raw, false);
    let re = matcher(&args);
    let opts = PrinterOpts::from_args(&args, false, false, false, 120);
    let mut out = Report::new();
    search_stdin(&re, None, &[], input.as_bytes(), &args, &opts, &mut out).unwrap();
    assert!(out.pieces.is_empty());
    out.records
}

fn file_records(raw: Args, path: &str, contents: &str) -> Vec<JsonRecord> {
    let mut raw = raw;
    raw.paths = vec![path.to_string()];
    let args = parse(raw, false);
    let re = matcher(&args);
    let opts = PrinterOpts::from_args(&args, false, false, false, 120);
    let mut out = Report::new();
    let mut seen = UniqueSet::new();
    search_file_to_writer(&re, None, &[], contents.as_bytes(), path, &args, &opts, &mut out, None, &mut seen).unwrap();
    assert!(out.pieces.is_empty());
    out.records
}

fn json(p: &str) -> Args {
    let mut a = Args::default();
    a.pattern = Some(p.to_string());
    a.json = true;
    a
}

#[test]
fn json_basic() {
    let recs = stdin_records(json("apple"), "apple pie\nbanana\napple sauce\n");
    assert_eq!(recs.len(), 2);
    match &recs[0] {
        JsonRecord::Match(m) => {
            assert_eq!(m.line_number, 1);
            assert_eq!(m.submatches[0].match_text, "apple");
            assert_eq!(m.submatches[0].start, 0);
            assert_eq!(m.submatches[0].end, 5);
            assert_eq!(m.lines, "apple pie");
            assert_eq!(m.column, Some(1));
            assert_eq!(m.path, None);
        }
        _ => panic!("expected a match record"),
    }
    match &recs[1] {
        JsonRecord::Match(m) => assert_eq!(m.line_number, 3),
        _ => panic!("expected a match record"),
    }
}

#[test]
fn json_with_path() {
    let recs = file_records(json("hello"), "dir/test.txt", "hello world\n");
    assert_eq!(recs.len(), 1);
    match &recs[0] {
        JsonRecord::Match(m) => {
            assert!(m.path.as_deref().unwrap().contains("test.txt"));
            assert_eq!(m.line_number, 1);
        }
        _ => panic!("expected a match record"),
    }
}

#[test]
fn json_files_with_matches() {
    let mut a = json("hello");
    a.files_with_matches = true;
    let recs = file_records(a, "dir/test.txt", "hello world\n");
    assert_eq!(recs.len(), 1);
    match &recs[0] {
        JsonRecord::File(p) => assert!(p.contains("test.txt")),
        _ => panic!("expected a file record"),
    }
}

#[test]
fn json_count() {
    let mut a = json("apple");
    a.count = true;
    let recs = stdin_records(a, "apple pie\nbanana\napple sauce\n");
    assert_eq!(recs.len(), 1);
    match &recs[0] {
        JsonRecord::Count(path, n) => {
            assert_eq!(*path, None);
            assert_eq!(*n, 2);
        }
        _ => panic!("expected a count record"),
    }
}

#[test]
fn json_show_scope() {
    let mut a = json("unwrap");
    a.show_scope = true;
    let recs = stdin_records(a, "fn main() {\n    unwrap()\n}\n");
    assert_eq!(recs.len(), 1);
    match &recs[0] {
        JsonRecord::Match(m) => assert_eq!(m.scope.as_deref(), Some("fn main() {")),
        _ => panic!("expected a match record"),
    }
}

#[test]
fn show_scope_rust_json_impl() {
    let mut a = json("unwrap");
    a.show_scope = true;
    let recs = stdin_records(a, "impl Foo {\n    fn bar(&self) {\n        self.x.unwrap();\n    }\n}\n");
    match &recs[0] {
        JsonRecord::Match(m) => {
            assert_eq!(m.scope.as_deref(), Some("fn bar(&self) {"));
            assert_eq!(m.line_number, 3);
        }
        _ => panic!("expected a match record"),
    }
}

#[test]
fn json_files_without_match_names_the_file() {
    let mut a = json("zzz");
    a.files_without_match = true;
    let recs = file_records(a, "a.txt", "hello world\n");
    assert_eq!(recs.len(), 1);
    match &recs[0] {
        JsonRecord::File(p) => assert_eq!(p, "a.txt"),
        _ => panic!("expected a file record"),
    }
}

#[test]
fn json_byte_offset_and_invalid_utf8_line() {
    let mut a = json("b+");
    a.byte_offset = true;
    let args = parse(a, false);
    let re = matcher(&args);
    let opts = PrinterOpts::from_args(&args, false, false, false, 120);
    let mut out = Report::new();
    let input: &[u8] = b"aaa\n\xffbbb\n";
    search_stdin(&re, None, &[], input, &args, &opts, &mut out).unwrap();
    assert_eq!(out.records.len(), 1);
    match &out.records[0] {
        JsonRecord::Match(m) => {
            assert_eq!(m.byte_offset, Some(4));
            assert_eq!(m.line_number, 2);
            assert_eq!(m.lines, "\u{FFFD}bbb");
            assert_eq!(m.submatches[0].match_text, "bbb");
            assert_eq!(m.column, Some(2));
        }
        _ => panic!("expected a match record"),
    }
}

#[test]
fn json_unique_drops_repeated_lines() {
    let mut a = json("dup");
    a.unique = true;
    let recs = stdin_records(a, "dup\nother\ndup\n");
    assert_eq!(recs.len(), 1);
}

#[test]
fn find_all_no_trailing_newline_large_intersection() {
    let re = Matcher::compile("(_*MATCH_*)&(_*secret_*)", 65535).unwrap();
    let mut buf = Vec::new();
    buf.extend_from_slice(b"MATCH_START secret_token_here\n");
    for i in 0..50_000u32 {
        buf.extend_from_slice(format!("filler line number {i} with no interesting content\n").as_bytes());
    }
    buf.extend_from_slice(b"MATCH_MIDDLE another_secret\n");
    for i in 50_000..100_000u32 {
        buf.extend_from_slice(format!("filler line number {i} with no interesting content\n").as_bytes());
    }
    let mut buf_nl = buf.clone();
    buf_nl.extend_from_slice(b"MATCH_END final_secret\n");
    let matches_nl = re.find_all(&buf_nl).unwrap();
    let mut buf_no_nl = buf;
    buf_no_nl.extend_from_slice(b"MATCH_END final_secret");
    let matches_no_nl = re.find_all(&buf_no_nl).unwrap();
    assert_eq!(
        matches_nl.len(),
        matches_no_nl.len(),
        "trailing newline changes match count: with={}  without={}",
        matches_nl.len(),
        matches_no_nl.len(),
    );
}
