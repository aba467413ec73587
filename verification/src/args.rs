//! The options of a search and the pattern that they describe.
use vstd::prelude::*;

use crate::engine::{escape, escaped};
use crate::text::{trim, trimmed, split_lines, text_lines, chars_to_string, contains_uppercase, decimal, has_uppercase, str_eq, string_chars, usize_to_string};

verus! {

/// Everything the command line says about a search. Paths are kept as text.
pub struct Args {
    /// regex pattern (positional, mutually exclusive with -e/-f)
    pub pattern: Option<String>,
    /// paths to search (files or directories)
    pub paths: Vec<String>,
    /// regex patterns (repeatable, combined with |)
    pub regexp: Vec<String>,
    /// files containing patterns, one per line
    pub pattern_file: Vec<String>,
    /// case insensitive search
    pub ignore_case: bool,
    /// case sensitive search (overrides -i)
    pub case_sensitive: bool,
    /// smart case (insensitive unless pattern has uppercase)
    pub smart_case: bool,
    /// invert match (show non-matching lines)
    pub invert_match: bool,
    /// match only whole words
    pub word_regexp: bool,
    /// match only whole lines
    pub line_regexp: bool,
    /// stop after NUM matches per file
    pub max_count: Option<usize>,
    /// suppress output, exit 0 if match found
    pub quiet: bool,
    /// print count of matches per file
    pub count: bool,
    /// print only filenames with matches
    pub files_with_matches: bool,
    /// print only filenames without matches
    pub files_without_match: bool,
    /// print only matched parts
    pub only_matching: bool,
    /// show line numbers
    pub line_number: bool,
    /// suppress line numbers
    pub no_line_number: bool,
    /// show column number of first match
    pub column: bool,
    /// show byte offset of match
    pub byte_offset: bool,
    /// literal string mode (`Some` of no words), or literal constraints
    pub fixed_strings: Option<Vec<String>>,
    /// standard regex mode (disables &, ~, and _ operators)
    pub raw: bool,
    /// require PATTERN to also appear in match (repeatable)
    pub and: Vec<String>,
    /// exclude matches containing PATTERN (repeatable)
    pub not: Vec<String>,
    /// exclude PATTERN from match body itself (repeatable)
    pub exclude_match: Vec<String>,
    /// replace matches with TEXT in output
    pub replace: Option<String>,
    /// lines of context after match
    pub after_context: Option<usize>,
    /// lines of context before match
    pub before_context: Option<usize>,
    /// lines of context before and after match
    pub context: Option<usize>,
    /// color output: auto, always, never
    pub color: String,
    /// group results by file
    pub heading: bool,
    /// don't group results by file
    pub no_heading: bool,
    /// include/exclude globs
    pub glob: Vec<String>,
    /// case-insensitive globs
    pub iglob: Vec<String>,
    /// alias for -g GLOB
    pub include_glob: Vec<String>,
    /// alias for -g !GLOB
    pub exclude_glob: Vec<String>,
    /// search only files matching TYPE
    pub file_type: Vec<String>,
    /// exclude files matching TYPE
    pub type_not: Vec<String>,
    /// list files matching globs/types (no content search)
    pub files: bool,
    /// list available file types
    pub type_list: bool,
    /// search hidden files and directories
    pub hidden: bool,
    /// don't respect ignore files
    pub no_ignore: bool,
    /// don't respect .gitignore
    pub no_ignore_vcs: bool,
    /// additional ignore files
    pub ignore_file: Vec<String>,
    /// reduce filtering (-u: hidden, -uu: +no-ignore, -uuu: +binary)
    pub unrestricted: u8,
    /// follow symbolic links
    pub follow: bool,
    /// number of search threads (0 = auto)
    pub threads: Option<usize>,
    /// max directory depth
    pub max_depth: Option<usize>,
    /// skip files larger than NUM bytes (supports K, M, G suffixes)
    pub max_filesize: Option<String>,
    /// sort results by path
    pub sort: Option<String>,
    /// allow matches to span multiple lines
    pub multiline: bool,
    /// paragraph scope, or word intersection
    pub paragraphs: Option<Vec<String>>,
    /// use memory-mapped I/O
    pub mmap: bool,
    /// disable memory-mapped I/O
    pub no_mmap: bool,
    /// max DFA state capacity
    pub dfa_capacity: usize,
    /// DFA precompilation threshold
    pub dfa_threshold: usize,
    /// scope for intersection (line, paragraph, file, or a boundary regex)
    pub scope: Option<String>,
    /// find patterns within N lines of each other
    pub near: Option<usize>,
    /// stop after NUM total matches across all files
    pub max_total: Option<usize>,
    /// deduplicate matched strings
    pub unique: bool,
    /// print summary stats
    pub stats: bool,
    /// NUL byte as separator
    pub null: bool,
    /// run CMD on each matched file
    pub exec_command: Option<String>,
    /// output results as JSON
    pub json: bool,
    /// show the enclosing function or block header for each match
    pub show_scope: bool,
    /// truncate long lines to fit terminal width
    pub trim: bool,
    /// output file:line:col:text
    pub vimgrep: bool,
    /// limit total output lines
    pub head: Option<usize>,
    /// skip first N output lines
    pub offset: Option<usize>,
    /// print only the total match count
    pub count_matches: bool,
    /// suppress path prefix in output
    pub no_filename: bool,
    /// print all lines, highlighting matches
    pub passthru: bool,
    /// skip lines longer than NUM columns
    pub max_columns: Option<usize>,
    /// separator between context groups
    pub context_separator: String,
}

impl Default for Args {
    /// The options of a command line that gives none: every flag off, no
    /// pattern or path, `--color auto`, a DFA capacity of 65535 and `--` as
    /// the context separator.
    fn default() -> (a: Args)
        ensures
            a.pattern is None,
            a.paths@.len() == 0,
            a.regexp@.len() == 0,
            a.pattern_file@.len() == 0,
            !a.ignore_case,
            !a.case_sensitive,
            !a.smart_case,
            !a.invert_match,
            !a.word_regexp,
            !a.line_regexp,
            a.max_count is None,
            !a.quiet,
            !a.count,
            !a.files_with_matches,
            !a.files_without_match,
            !a.only_matching,
            !a.line_number,
            !a.no_line_number,
            !a.column,
            !a.byte_offset,
            a.fixed_strings is None,
            !a.raw,
            a.and@.len() == 0,
            a.not@.len() == 0,
            a.exclude_match@.len() == 0,
            a.replace is None,
            a.after_context is None,
            a.before_context is None,
            a.context is None,
            a.color@ == "auto"@,
            !a.heading,
            !a.no_heading,
            a.glob@.len() == 0,
            a.iglob@.len() == 0,
            a.include_glob@.len() == 0,
            a.exclude_glob@.len() == 0,
            a.file_type@.len() == 0,
            a.type_not@.len() == 0,
            !a.files,
            !a.type_list,
            !a.hidden,
            !a.no_ignore,
            !a.no_ignore_vcs,
            a.ignore_file@.len() == 0,
            a.unrestricted == 0,
            !a.follow,
            a.threads is None,
            a.max_depth is None,
            a.max_filesize is None,
            a.sort is None,
            !a.multiline,
            a.paragraphs is None,
            !a.mmap,
            !a.no_mmap,
            a.dfa_capacity == 65535,
            a.dfa_threshold == 0,
            a.scope is None,
            a.near is None,
            a.max_total is None,
            !a.unique,
            !a.stats,
            !a.null,
            a.exec_command is None,
            !a.json,
            !a.show_scope,
            !a.trim,
            !a.vimgrep,
            a.head is None,
            a.offset is None,
            !a.count_matches,
            !a.no_filename,
            !a.passthru,
            a.max_columns is None,
            a.context_separator@ == "--"@,
    {
        Args {
            pattern: None,
            paths: Vec::new(),
            regexp: Vec::new(),
            pattern_file: Vec::new(),
            ignore_case: false,
            case_sensitive: false,
            smart_case: false,
            invert_match: false,
            word_regexp: false,
            line_regexp: false,
            max_count: None,
            quiet: false,
            count: false,
            files_with_matches: false,
            files_without_match: false,
            only_matching: false,
            line_number: false,
            no_line_number: false,
            column: false,
            byte_offset: false,
            fixed_strings: None,
            raw: false,
            and: Vec::new(),
            not: Vec::new(),
            exclude_match: Vec::new(),
            replace: None,
            after_context: None,
            before_context: None,
            context: None,
            color: "auto".to_string(),
            heading: false,
            no_heading: false,
            glob: Vec::new(),
            iglob: Vec::new(),
            include_glob: Vec::new(),
            exclude_glob: Vec::new(),
            file_type: Vec::new(),
            type_not: Vec::new(),
            files: false,
            type_list: false,
            hidden: false,
            no_ignore: false,
            no_ignore_vcs: false,
            ignore_file: Vec::new(),
            unrestricted: 0,
            follow: false,
            threads: None,
            max_depth: None,
            max_filesize: None,
            sort: None,
            multiline: false,
            paragraphs: None,
            mmap: false,
            no_mmap: false,
            dfa_capacity: 65535,
            dfa_threshold: 0,
            scope: None,
            near: None,
            max_total: None,
            unique: false,
            stats: false,
            null: false,
            exec_command: None,
            json: false,
            show_scope: false,
            trim: false,
            vimgrep: false,
            head: None,
            offset: None,
            count_matches: false,
            no_filename: false,
            passthru: false,
            max_columns: None,
            context_separator: "--".to_string(),
        }
    }
}

/// The literal words given with `-F`.
pub open spec fn fixed_words_of(a: &Args) -> Seq<Seq<char>> {
    match a.fixed_strings {
        Some(w) => w.deep_view(),
        None => Seq::empty(),
    }
}

/// `-F` with no words: the whole pattern is a literal string.
pub open spec fn fixed_strings_mode(a: &Args) -> bool {
    a.fixed_strings matches Some(w) && w@.len() == 0
}

/// The scope within which the terms of a search must meet.
pub open spec fn scope_of(a: &Args) -> Seq<char> {
    match a.scope {
        Some(s) => s@,
        None => if a.paragraphs is Some {
            "paragraph"@
        } else if a.multiline || a.near is Some {
            "multiline"@
        } else {
            "line"@
        },
    }
}

/// Whether pattern `p` is matched without regard to case.
pub open spec fn ignores_case(a: &Args, p: Seq<char>) -> bool {
    if a.case_sensitive {
        false
    } else if a.ignore_case {
        true
    } else if a.smart_case {
        !has_uppercase(p)
    } else {
        false
    }
}

/// `p` in standard regex syntax made safe for `resharp`: `_`, `&` and `~` get
/// a backslash, and whatever follows a backslash is kept as it is.
pub open spec fn raw_escaped(p: Seq<char>) -> Seq<char>
    decreases p.len(),
{
    if p.len() == 0 {
        Seq::empty()
    } else if p[0] == '\\' {
        if p.len() >= 2 {
            seq!['\\', p[1]] + raw_escaped(p.skip(2))
        } else {
            seq!['\\']
        }
    } else if p[0] == '_' || p[0] == '&' || p[0] == '~' {
        seq!['\\', p[0]] + raw_escaped(p.skip(1))
    } else {
        seq![p[0]] + raw_escaped(p.skip(1))
    }
}

/// One term of the search as the options shape it: escaped for `-F` or `-R`,
/// bounded by words (`-w`) or lines (`-x`), made case-insensitive, and, with a
/// wildcard, surrounded by it on each side that is not anchored.
pub open spec fn wrapped(a: &Args, p: Seq<char>, wild: Option<Seq<char>>) -> Seq<char> {
    let p1 = if fixed_strings_mode(a) { escaped(p) } else if a.raw { raw_escaped(p) } else { p };
    let p2 = if a.word_regexp { "\\b("@ + p1 + ")\\b"@ } else { p1 };
    let p3 = if a.line_regexp { "^("@ + p2 + ")$"@ } else { p2 };
    let p4 = if ignores_case(a, p3) { "(?i)"@ + p3 } else { p3 };
    match wild {
        Some(w) => {
            let prefix = if p4.len() > 0 && p4[0] == '^' { Seq::empty() } else { w };
            let suffix = if p4.len() > 0 && p4.last() == '$' { Seq::empty() } else { w };
            "("@ + prefix + "("@ + p4 + ")"@ + suffix + ")"@
        },
        None => p4,
    }
}

/// What `--max-total` of `mt` leaves after `total` matches.
pub open spec fn left_of(mt: usize, total: usize) -> usize {
    if mt < total { 0 } else { (mt - total) as usize }
}

/// The match limit for a file after `total` matches in earlier files: the
/// smaller of `--max-count` and what `--max-total` leaves, when either is set.
pub open spec fn match_limit(a: &Args, total: usize) -> Option<usize> {
    match (a.max_count, a.max_total) {
        (Some(mc), Some(mt)) => Some(if mc < left_of(mt, total) { mc } else { left_of(mt, total) }),
        (Some(mc), None) => Some(mc),
        (None, Some(mt)) => Some(left_of(mt, total)),
        (None, None) => None,
    }
}

/// Concatenates the text of `s` and `t`.
pub(crate) fn concat2(s: &str, t: &str) -> (r: String)
    ensures
        r@ == s@ + t@,
{
    let mut r = String::from_str(s);
    r.append(t);
    r
}

/// Concatenates `a`, `b` and `c`.
pub(crate) fn concat3(a: &str, b: &str, c: &str) -> (r: String)
    ensures
        r@ == a@ + b@ + c@,
{
    let mut r = String::from_str(a);
    r.append(b);
    r.append(c);
    r
}

impl Args {
    /// `-F` given with no words: the pattern is a literal string.
    pub fn is_fixed_strings(&self) -> (b: bool)
        ensures
            b == fixed_strings_mode(self),
    {
        match &self.fixed_strings {
            Some(v) => v.len() == 0,
            None => false,
        }
    }

    /// Whether the search is scoped to paragraphs (`-p`).
    pub fn is_paragraph_mode(&self) -> (b: bool)
        ensures
            b == self.paragraphs is Some,
    {
        self.paragraphs.is_some()
    }

    /// The scope within which the terms must meet: the one given with
    /// `--scope`, else `paragraph` with `-p`, `multiline` with `--multiline`
    /// or `--near`, and `line` otherwise.
    pub fn effective_scope(&self) -> (scope: &str)
        ensures
            scope@ == scope_of(self),
    {
        match &self.scope {
            Some(s) => s.as_str(),
            None => {
                if self.is_paragraph_mode() {
                    "paragraph"
                } else if self.multiline || self.near.is_some() {
                    "multiline"
                } else {
                    "line"
                }
            },
        }
    }

    fn escape_resharp(pattern: &str) -> (out: String)
        ensures
            out@ == raw_escaped(pattern@),
    {
        let chars = string_chars(pattern);
        let mut out: Vec<char> = Vec::new();
        let mut i: usize = 0;
        proof {
            assert(pattern@.skip(0) =~= pattern@);
            assert(out@ + raw_escaped(pattern@) =~= raw_escaped(pattern@));
        }
        while i < chars.len()
            invariant
                i <= chars@.len(),
                chars@ == pattern@,
                out@ + raw_escaped(pattern@.skip(i as int)) == raw_escaped(pattern@),
            decreases chars@.len() - i,
        {
            let c = chars[i];
            let ghost rest = pattern@.skip(i as int);
            assert(rest[0] == c);
            if c == '\\' {
                out.push('\\');
                if i + 1 < chars.len() {
                    out.push(chars[i + 1]);
                    assert(rest.skip(2) =~= pattern@.skip(i + 2));
                    assert(rest[1] == chars@[i + 1]);
                    i = i + 2;
                } else {
                    assert(pattern@.skip(i + 1) =~= Seq::<char>::empty());
                    i = i + 1;
                }
            } else if c == '_' || c == '&' || c == '~' {
                out.push('\\');
                out.push(c);
                assert(rest.skip(1) =~= pattern@.skip(i + 1));
                i = i + 1;
            } else {
                out.push(c);
                assert(rest.skip(1) =~= pattern@.skip(i + 1));
                i = i + 1;
            }
            proof {
                assert(out@ + raw_escaped(pattern@.skip(i as int)) =~= raw_escaped(pattern@));
            }
        }
        proof {
            assert(pattern@.skip(i as int) =~= Seq::<char>::empty());
            assert(out@ =~= out@ + raw_escaped(pattern@.skip(i as int)));
        }
        chars_to_string(&out)
    }

    fn should_ignore_case(&self, pattern: &str) -> (b: bool)
        ensures
            b == ignores_case(self, pattern@),
    {
        if self.case_sensitive {
            return false;
        }
        if self.ignore_case {
            return true;
        }
        if self.smart_case {
            return !contains_uppercase(pattern);
        }
        false
    }

    fn wrap_pattern(&self, pattern: &str, wild: Option<&str>) -> (out: String)
        ensures
            out@ == wrapped(self, pattern@, match wild { Some(w) => Some(w@), None => None }),
    {
        let mut p = if self.is_fixed_strings() {
            escape(pattern)
        } else if self.raw {
            Self::escape_resharp(pattern)
        } else {
            String::from_str(pattern)
        };
        if self.word_regexp {
            p = concat3("\\b(", p.as_str(), ")\\b");
        }
        if self.line_regexp {
            p = concat3("^(", p.as_str(), ")$");
        }
        if self.should_ignore_case(p.as_str()) {
            p = concat2("(?i)", p.as_str());
        }
        match wild {
            Some(w) => {
                let chars = string_chars(p.as_str());
                let n = chars.len();
                let prefix = if n > 0 && chars[0] == '^' { "" } else { w };
                let suffix = if n > 0 && chars[n - 1] == '$' { "" } else { w };
                let mut out = String::from_str("(");
                out.append(prefix);
                out.append("(");
                out.append(p.as_str());
                out.append(")");
                out.append(suffix);
                out.append(")");
                proof {
                    reveal_strlit("");
                }
                out
            },
            None => p,
        }
    }
}

/// Why no pattern can be built from the options.
#[derive(Debug)]
pub enum PatternError {
    /// `-e`/`-f` given together with `-W`/`-p`/`-F` words.
    WordsWithRegexp,
    /// `--near` with fewer than two terms.
    NearNeedsTwoTerms,
    /// No pattern at all.
    NoPattern,
    /// A pattern file could not be read: its path and the reason.
    PatternFile(String, String),
}

impl PatternError {
    /// The message that reports the error.
    pub fn message(&self) -> (m: String)
        ensures
            m@ == match self {
                PatternError::WordsWithRegexp => "-e/-f cannot be combined with -W/-p/-F word patterns"@,
                PatternError::NearNeedsTwoTerms => "--near requires at least 2 terms (use -W, --and, or & in pattern)"@,
                PatternError::NoPattern => "no pattern provided"@,
                PatternError::PatternFile(path, why) => "failed to read pattern file "@ + path@ + ": "@ + why@,
            },
    {
        match self {
            PatternError::WordsWithRegexp => "-e/-f cannot be combined with -W/-p/-F word patterns".to_string(),
            PatternError::NearNeedsTwoTerms => "--near requires at least 2 terms (use -W, --and, or & in pattern)".to_string(),
            PatternError::NoPattern => "no pattern provided".to_string(),
            PatternError::PatternFile(path, why) => {
                let mut m = concat3("failed to read pattern file ", path.as_str(), ": ");
                m.append(why.as_str());
                m
            },
        }
    }
}

/// An optional string slice as an optional sequence of characters.
pub open spec fn opt_chars(s: Option<&str>) -> Option<Seq<char>> {
    match s {
        Some(t) => Some(t@),
        None => None,
    }
}

/// The wildcard that pads terms within a scope: `.*` within a line, `_*` elsewhere.
pub open spec fn wild_of(scope: Seq<char>) -> Seq<char> {
    if scope == "line"@ { ".*"@ } else { "_*"@ }
}

/// Every pattern of `ps`, wrapped.
pub open spec fn wrapped_all(a: &Args, ps: Seq<Seq<char>>, wild: Option<Seq<char>>) -> Seq<Seq<char>> {
    Seq::new(ps.len(), |i: int| wrapped(a, ps[i], wild))
}

/// The patterns `ps` joined with `sep` between each two.
pub open spec fn joined(ps: Seq<Seq<char>>, sep: Seq<char>) -> Seq<char>
    decreases ps.len(),
{
    if ps.len() == 0 {
        Seq::empty()
    } else if ps.len() == 1 {
        ps[0]
    } else {
        joined(ps.drop_last(), sep) + sep + ps.last()
    }
}

/// The alternation of `ps`: the one pattern itself, or each in parentheses joined with `|`.
pub open spec fn union_of(ps: Seq<Seq<char>>) -> Seq<char> {
    if ps.len() == 1 {
        ps[0]
    } else {
        joined(Seq::new(ps.len(), |i: int| "("@ + ps[i] + ")"@), "|"@)
    }
}

/// `c` followed by `op` and each of `terms` in turn.
pub open spec fn chained(c: Seq<char>, op: Seq<char>, terms: Seq<Seq<char>>) -> Seq<char>
    decreases terms.len(),
{
    if terms.len() == 0 {
        c
    } else {
        chained(c, op, terms.drop_last()) + op + terms.last()
    }
}

/// The `--not` terms applied to `c` within `scope`: in file scope they are
/// handed back to be tested on whole files; elsewhere each is subtracted.
pub open spec fn nots_applied(a: &Args, c: Seq<char>, scope: Seq<char>, wild: Seq<char>) -> (Seq<char>, Seq<Seq<char>>) {
    if a.not@.len() == 0 {
        (c, Seq::empty())
    } else {
        let nots = wrapped_all(a, a.not.deep_view(), Some(wild));
        if scope == "file"@ {
            (c, nots)
        } else {
            (chained(c, "&~"@, nots), Seq::empty())
        }
    }
}

/// The `--and` and `--not` terms applied to pattern `c`, with the `--not`
/// terms left to test on whole files.
pub open spec fn and_not_applied(a: &Args, c: Seq<char>) -> (Seq<char>, Seq<Seq<char>>) {
    let has_and = a.and@.len() > 0;
    let has_not = a.not@.len() > 0;
    let scope = scope_of(a);
    let wild = wild_of(scope);
    if !has_and && !has_not {
        (c, Seq::empty())
    } else if scope == "file"@ && has_not && !has_and {
        (c, wrapped_all(a, a.not.deep_view(), Some(wild)))
    } else {
        let c1 = "("@ + wild + "("@ + c + ")"@ + wild + ")"@;
        let c2 = chained(c1, "&"@, wrapped_all(a, a.and.deep_view(), Some(wild)));
        let (c3, file_nots) = nots_applied(a, c2, scope, wild);
        (if scope == "line"@ { "^("@ + c3 + ")$"@ } else { c3 }, file_nots)
    }
}

/// `c` with the first `n` of the `-E` patterns excluded from the match body.
pub open spec fn excluded_upto(a: &Args, c: Seq<char>, n: int) -> Seq<char>
    decreases n,
{
    if n <= 0 {
        c
    } else {
        "("@ + excluded_upto(a, c, n - 1) + ")&~"@ + wrapped(a, a.exclude_match.deep_view()[n - 1], Some("_*"@))
    }
}

/// `c` with every `-E` pattern excluded from the match body.
pub open spec fn excluded(a: &Args, c: Seq<char>) -> Seq<char> {
    excluded_upto(a, c, a.exclude_match@.len() as int)
}

/// `c` limited to spans of fewer than `--near` line breaks.
pub open spec fn near_applied(a: &Args, c: Seq<char>) -> Seq<char> {
    match a.near {
        Some(n) => "("@ + c + ")&~((_*\n_*){"@ + decimal(n as nat) + "})"@,
        None => c,
    }
}

/// `c` confined to the scope: a line, a paragraph, anything for `file` and
/// `multiline`, or a span that does not cross a custom boundary.
pub open spec fn scope_applied(a: &Args, c: Seq<char>) -> Seq<char> {
    let scope = scope_of(a);
    let scoped = if scope == "line"@ {
        "("@ + c + ")&(.*)"@
    } else if scope == "paragraph"@ {
        "("@ + c + ")&((?<=\\A|\n\n)(_*&~(_*\n\n_*)&~(\n_*|_*\n))(?=\n\n|\n\\z|\\z))"@
    } else if scope == "file"@ || scope == "multiline"@ {
        c
    } else {
        "("@ + c + ")&~(_*"@ + scope + "_*)"@
    };
    near_applied(a, scoped)
}

/// The pattern for word mode (`-W`, `-p`, `-F` words): every word must occur
/// within the scope, with the negations, exclusions and scope applied.
pub open spec fn words_pattern(a: &Args, words: Seq<Seq<char>>) -> (Seq<char>, Seq<Seq<char>>) {
    let fixed = fixed_words_of(a);
    let scope = scope_of(a);
    let single = words.len() + fixed.len() == 1 && a.not@.len() == 0 && scope == "line"@;
    let word_terms = wrapped_all(a, words, if single { None } else { Some("_*"@) });
    let fixed_terms = Seq::new(fixed.len(), |i: int|
        if single { escaped(fixed[i]) } else { "(_*"@ + escaped(fixed[i]) + "_*)"@ });
    let c = joined(word_terms + fixed_terms, "&"@);
    let wild = wild_of(scope);
    let (c1, file_nots) = nots_applied(a, c, scope, wild);
    let c2 = if file_nots.len() == 0 && a.not@.len() > 0 && scope == "line"@ { "^("@ + c1 + ")$"@ } else { c1 };
    (scope_applied(a, excluded(a, c2)), file_nots)
}

pub(crate) fn join_with(ps: &Vec<String>, sep: &str) -> (out: String)
    ensures
        out@ == joined(ps.deep_view(), sep@),
{
    let ghost pv = ps.deep_view();
    let mut out = String::new();
    let mut i: usize = 0;
    while i < ps.len()
        invariant
            i <= ps@.len(),
            pv == ps.deep_view(),
            out@ == joined(pv.take(i as int), sep@),
        decreases ps@.len() - i,
    {
        proof {
            assert(pv.take(i + 1).drop_last() =~= pv.take(i as int));
            assert(pv.take(i + 1).last() == ps@[i as int]@);
        }
        if i > 0 {
            out.append(sep);
        } else {
            assert(pv.take(1) =~= seq![ps@[0]@]);
        }
        out.append(ps[i].as_str());
        i = i + 1;
    }
    assert(pv.take(i as int) =~= pv);
    out
}

fn union_patterns(ps: &Vec<String>) -> (out: String)
    ensures
        out@ == union_of(ps.deep_view()),
{
    if ps.len() == 1 {
        return ps[0].clone();
    }
    let ghost pv = ps.deep_view();
    let mut parts: Vec<String> = Vec::new();
    let mut i: usize = 0;
    while i < ps.len()
        invariant
            i <= ps@.len(),
            pv == ps.deep_view(),
            parts.deep_view() =~= Seq::new(i as nat, |k: int| "("@ + pv[k] + ")"@),
        decreases ps@.len() - i,
    {
        let ghost before = parts.deep_view();
        parts.push(concat3("(", ps[i].as_str(), ")"));
        proof {
            assert(parts.deep_view() =~= before.push("("@ + pv[i as int] + ")"@));
        }
        i = i + 1;
    }
    join_with(&parts, "|")
}

fn append_each(combined: &mut String, op: &str, terms: &Vec<String>)
    ensures
        final(combined)@ == chained(old(combined)@, op@, terms.deep_view()),
{
    let ghost start = combined@;
    let ghost tv = terms.deep_view();
    let mut i: usize = 0;
    while i < terms.len()
        invariant
            i <= terms@.len(),
            tv == terms.deep_view(),
            combined@ == chained(start, op@, tv.take(i as int)),
        decreases terms@.len() - i,
    {
        proof {
            assert(tv.take(i + 1).drop_last() =~= tv.take(i as int));
        }
        combined.append(op);
        combined.append(terms[i].as_str());
        i = i + 1;
    }
    assert(tv.take(i as int) =~= tv);
}

impl Args {
    fn wrap_all(&self, ps: &Vec<String>, wild: Option<&str>) -> (out: Vec<String>)
        ensures
            out.deep_view() == wrapped_all(self, ps.deep_view(), opt_chars(wild)),
    {
        let ghost pv = ps.deep_view();
        let mut out: Vec<String> = Vec::new();
        let mut i: usize = 0;
        while i < ps.len()
            invariant
                i <= ps@.len(),
                pv == ps.deep_view(),
                out.deep_view() =~= Seq::new(i as nat, |k: int| wrapped(self, pv[k], opt_chars(wild))),
            decreases ps@.len() - i,
        {
            let ghost before = out.deep_view();
            let w = self.wrap_pattern(ps[i].as_str(), wild);
            out.push(w);
            proof {
                assert(out.deep_view() =~= before.push(wrapped(self, pv[i as int], opt_chars(wild))));
            }
            i = i + 1;
        }
        out
    }

    fn apply_nots(&self, combined: &mut String, scope: &str, wild: &str) -> (file_nots: Vec<String>)
        ensures
            (final(combined)@, file_nots.deep_view()) == nots_applied(self, old(combined)@, scope@, wild@),
    {
        if self.not.len() == 0 {
            let v: Vec<String> = Vec::new();
            assert(v.deep_view() =~= Seq::<Seq<char>>::empty());
            return v;
        }
        let nots = self.wrap_all(&self.not, Some(wild));
        if str_eq(scope, "file") {
            return nots;
        }
        append_each(combined, "&~", &nots);
        let v: Vec<String> = Vec::new();
        assert(v.deep_view() =~= Seq::<Seq<char>>::empty());
        v
    }

    fn apply_and_not(&self, combined: String) -> (res: (String, Vec<String>))
        ensures
            (res.0@, res.1.deep_view()) == and_not_applied(self, combined@),
    {
        let has_and = self.and.len() > 0;
        let has_not = self.not.len() > 0;
        if !has_and && !has_not {
            let v: Vec<String> = Vec::new();
            assert(v.deep_view() =~= Seq::<Seq<char>>::empty());
            return (combined, v);
        }
        let scope = self.effective_scope();
        let wild = if str_eq(scope, "line") { ".*" } else { "_*" };
        if str_eq(scope, "file") && has_not && !has_and {
            let nots = self.wrap_all(&self.not, Some(wild));
            return (combined, nots);
        }
        let mut c = String::from_str("(");
        c.append(wild);
        c.append("(");
        c.append(combined.as_str());
        c.append(")");
        c.append(wild);
        c.append(")");
        let ands = self.wrap_all(&self.and, Some(wild));
        append_each(&mut c, "&", &ands);
        let file_nots = self.apply_nots(&mut c, scope, wild);
        if str_eq(scope, "line") {
            c = concat3("^(", c.as_str(), ")$");
        }
        (c, file_nots)
    }

    fn apply_excludes(&self, combined: String) -> (out: String)
        ensures
            out@ == excluded(self, combined@),
    {
        let ghost start = combined@;
        let mut c = combined;
        let mut i: usize = 0;
        while i < self.exclude_match.len()
            invariant
                i <= self.exclude_match@.len(),
                c@ == excluded_upto(self, start, i as int),
            decreases self.exclude_match@.len() - i,
        {
            let term = self.wrap_pattern(self.exclude_match[i].as_str(), Some("_*"));
            proof {
                assert(self.exclude_match.deep_view()[i as int] == self.exclude_match@[i as int]@);
            }
            let mut next = String::from_str("(");
            next.append(c.as_str());
            next.append(")&~");
            next.append(term.as_str());
            c = next;
            i = i + 1;
        }
        c
    }

    fn apply_near(&self, combined: String) -> (out: String)
        ensures
            out@ == near_applied(self, combined@),
    {
        match self.near {
            Some(n) => {
                let mut out = String::from_str("(");
                out.append(combined.as_str());
                out.append(")&~((_*\n_*){");
                let digits = usize_to_string(n);
                out.append(digits.as_str());
                out.append("})");
                out
            },
            None => combined,
        }
    }

    fn apply_scope_boundary(&self, combined: String) -> (out: String)
        ensures
            out@ == scope_applied(self, combined@),
    {
        let scope = self.effective_scope();
        let scoped = if str_eq(scope, "line") {
            concat3("(", combined.as_str(), ")&(.*)")
        } else if str_eq(scope, "paragraph") {
            concat3("(", combined.as_str(), ")&((?<=\\A|\n\n)(_*&~(_*\n\n_*)&~(\n_*|_*\n))(?=\n\n|\n\\z|\\z))")
        } else if str_eq(scope, "file") || str_eq(scope, "multiline") {
            combined
        } else {
            let mut s = String::from_str("(");
            s.append(combined.as_str());
            s.append(")&~(_*");
            s.append(scope);
            s.append("_*)");
            s
        };
        self.apply_near(scoped)
    }
}

/// The words that make up the search in word mode: the `-p` words, and the
/// `--and` terms too when there is no base pattern.
pub open spec fn base_words(a: &Args) -> Seq<Seq<char>> {
    let para = match a.paragraphs {
        Some(w) => w.deep_view(),
        None => Seq::empty(),
    };
    let has_base = a.pattern is Some || a.regexp@.len() > 0 || a.pattern_file@.len() > 0;
    if has_base { para } else { para + a.and.deep_view() }
}

/// The index of the first pattern file among the first `n` that could not be read.
pub open spec fn first_unreadable(files: Seq<Result<String, String>>, n: int) -> Option<int>
    decreases n,
{
    if n <= 0 {
        None
    } else {
        match first_unreadable(files, n - 1) {
            Some(i) => Some(i),
            None => if files[n - 1] is Err { Some(n - 1) } else { None },
        }
    }
}

/// The non-empty entries of `ls`, in order.
pub open spec fn nonempty_only(ls: Seq<Seq<char>>) -> Seq<Seq<char>>
    decreases ls.len(),
{
    if ls.len() == 0 {
        Seq::empty()
    } else if ls.last().len() > 0 {
        nonempty_only(ls.drop_last()).push(ls.last())
    } else {
        nonempty_only(ls.drop_last())
    }
}

/// The patterns of the first `n` pattern files: their non-empty lines.
pub open spec fn file_patterns(files: Seq<Result<String, String>>, n: int) -> Seq<Seq<char>>
    decreases n,
{
    if n <= 0 {
        Seq::empty()
    } else {
        file_patterns(files, n - 1) + match files[n - 1] {
            Ok(t) => nonempty_only(text_lines(t@)),
            Err(_) => Seq::empty(),
        }
    }
}

/// Why a pattern cannot be built, as a value.
pub enum PatternFailure {
    WordsWithRegexp,
    NearNeedsTwoTerms,
    NoPattern,
    PatternFile(int),
}

/// The pattern to search for, and the `--not` patterns to test on whole files,
/// given the contents of the pattern files (`Err` for one that could not be read).
pub open spec fn resolved(a: &Args, files: Seq<Result<String, String>>) -> Result<(Seq<char>, Seq<Seq<char>>), PatternFailure> {
    let words = base_words(a);
    let fixed = fixed_words_of(a);
    let total = words.len() + fixed.len();
    if total > 0 {
        if a.regexp@.len() > 0 || a.pattern_file@.len() > 0 {
            Err(PatternFailure::WordsWithRegexp)
        } else if a.near is Some && total < 2 {
            Err(PatternFailure::NearNeedsTwoTerms)
        } else {
            Ok(words_pattern(a, words))
        }
    } else if let Some(i) = first_unreadable(files, files.len() as int) {
        Err(PatternFailure::PatternFile(i))
    } else {
        let given = a.regexp.deep_view() + file_patterns(files, files.len() as int);
        if given.len() == 0 && a.pattern is None && a.exclude_match@.len() == 0 {
            Err(PatternFailure::NoPattern)
        } else {
            let ps = if given.len() > 0 {
                given
            } else {
                match a.pattern {
                    Some(p) => seq![p@],
                    None => seq!["_*"@],
                }
            };
            let c = union_of(wrapped_all(a, ps, None));
            let (c1, file_nots) = and_not_applied(a, c);
            if a.near is Some && a.and@.len() == 0 {
                Err(PatternFailure::NearNeedsTwoTerms)
            } else {
                Ok((scope_applied(a, excluded(a, c1)), file_nots))
            }
        }
    }
}

/// `e` is the failure `f`.
pub open spec fn is_failure(a: &Args, files: Seq<Result<String, String>>, e: &PatternError, f: PatternFailure) -> bool {
    match f {
        PatternFailure::WordsWithRegexp => e is WordsWithRegexp,
        PatternFailure::NearNeedsTwoTerms => e is NearNeedsTwoTerms,
        PatternFailure::NoPattern => e is NoPattern,
        PatternFailure::PatternFile(i) => match e {
            PatternError::PatternFile(path, msg) => {
                &&& 0 <= i < a.pattern_file@.len()
                &&& path@ == a.pattern_file@[i]@
                &&& files[i] matches Err(m) && msg@ == m@
            },
            _ => false,
        },
    }
}

/// The positive terms of a search, in order: the positional pattern, the `-e`
/// patterns and the `--and` terms, each wrapped, then the `-p` words, wrapped,
/// and the `-F` words, escaped.
pub open spec fn highlight_terms(a: &Args) -> Seq<Seq<char>> {
    let from_pattern = match a.pattern {
        Some(p) => seq![wrapped(a, p@, None)],
        None => Seq::empty(),
    };
    let from_para = match a.paragraphs {
        Some(w) => wrapped_all(a, w.deep_view(), None),
        None => Seq::empty(),
    };
    let fixed = fixed_words_of(a);
    from_pattern + wrapped_all(a, a.regexp.deep_view(), None) + wrapped_all(a, a.and.deep_view(), None)
        + from_para + Seq::new(fixed.len(), |i: int| escaped(fixed[i]))
}

/// The highlight pattern: the alternation of the positive terms, when the
/// search has constraints that make the matched span wider than them.
pub open spec fn highlight_pattern(a: &Args) -> Option<Seq<char>> {
    let has_constraints = a.and@.len() > 0 || a.not@.len() > 0
        || (a.paragraphs matches Some(v) && v@.len() > 0)
        || (a.fixed_strings matches Some(v) && v@.len() > 0)
        || scope_of(a) != "line"@;
    let terms = highlight_terms(a);
    if !has_constraints || terms.len() == 0 {
        None
    } else {
        Some(union_of(terms))
    }
}

fn empty_strings() -> (v: Vec<String>)
    ensures
        v.deep_view() == Seq::<Seq<char>>::empty(),
        v@.len() == 0,
{
    let v: Vec<String> = Vec::new();
    assert(v.deep_view() =~= Seq::<Seq<char>>::empty());
    v
}

pub(crate) fn clone_strings(v: &Vec<String>) -> (out: Vec<String>)
    ensures
        out.deep_view() == v.deep_view(),
{
    let mut out: Vec<String> = Vec::new();
    let mut i: usize = 0;
    while i < v.len()
        invariant
            i <= v@.len(),
            out.deep_view() =~= v.deep_view().take(i as int),
        decreases v@.len() - i,
    {
        let ghost before = out.deep_view();
        out.push(v[i].clone());
        proof {
            assert(out.deep_view() =~= before.push(v@[i as int]@));
        }
        i = i + 1;
    }
    assert(v.deep_view().take(i as int) =~= v.deep_view());
    out
}

fn push_all(out: &mut Vec<String>, more: &Vec<String>)
    ensures
        final(out).deep_view() == old(out).deep_view() + more.deep_view(),
{
    let ghost start = out.deep_view();
    let mut i: usize = 0;
    while i < more.len()
        invariant
            i <= more@.len(),
            out.deep_view() =~= start + more.deep_view().take(i as int),
        decreases more@.len() - i,
    {
        let ghost before = out.deep_view();
        out.push(more[i].clone());
        proof {
            assert(out.deep_view() =~= before.push(more@[i as int]@));
        }
        i = i + 1;
    }
    assert(more.deep_view().take(i as int) =~= more.deep_view());
}

impl Args {
    fn fixed_words(&self) -> (words: Vec<String>)
        ensures
            words.deep_view() == fixed_words_of(self),
    {
        match &self.fixed_strings {
            Some(w) => clone_strings(w),
            None => empty_strings(),
        }
    }

    fn build_words_pattern(&self, words: &Vec<String>) -> (res: (String, Vec<String>))
        ensures
            (res.0@, res.1.deep_view()) == words_pattern(self, words.deep_view()),
    {
        let fixed = self.fixed_words();
        let scope = self.effective_scope();
        let one_term = (words.len() == 1 && fixed.len() == 0) || (words.len() == 0 && fixed.len() == 1);
        let single = one_term && self.not.len() == 0 && str_eq(scope, "line");
        let mut terms = self.wrap_all(words, if single { None } else { Some("_*") });
        let ghost fv = fixed.deep_view();
        let ghost word_terms = terms.deep_view();
        let mut i: usize = 0;
        while i < fixed.len()
            invariant
                i <= fixed@.len(),
                fv == fixed.deep_view(),
                terms.deep_view() =~= word_terms + Seq::new(i as nat, |k: int|
                    if single { escaped(fv[k]) } else { "(_*"@ + escaped(fv[k]) + "_*)"@ }),
            decreases fixed@.len() - i,
        {
            let ghost before = terms.deep_view();
            let e = escape(fixed[i].as_str());
            if single {
                terms.push(e);
            } else {
                terms.push(concat3("(_*", e.as_str(), "_*)"));
            }
            proof {
                assert(terms.deep_view() =~= before.push(
                    if single { escaped(fv[i as int]) } else { "(_*"@ + escaped(fv[i as int]) + "_*)"@ }));
            }
            i = i + 1;
        }
        let mut combined = join_with(&terms, "&");
        let wild = if str_eq(scope, "line") { ".*" } else { "_*" };
        let file_nots = self.apply_nots(&mut combined, scope, wild);
        if file_nots.len() == 0 && self.not.len() > 0 && str_eq(scope, "line") {
            combined = concat3("^(", combined.as_str(), ")$");
        }
        let combined = self.apply_excludes(combined);
        (self.apply_scope_boundary(combined), file_nots)
    }

    /// Builds the pattern to search for, and the `--not` patterns that must be
    /// tested on whole files instead (in file scope). `pattern_files` holds the
    /// contents of the `-f` files, in order, or why each could not be read.
    pub fn resolve_pattern(&self, pattern_files: &Vec<Result<String, String>>) -> (res: Result<(String, Vec<String>), PatternError>)
        requires
            pattern_files@.len() == self.pattern_file@.len(),
        ensures
            match (res, resolved(self, pattern_files@)) {
                (Ok((p, nots)), Ok((sp, snots))) => p@ == sp && nots.deep_view() == snots,
                (Err(e), Err(f)) => is_failure(self, pattern_files@, &e, f),
                _ => false,
            },
    {
        let mut words: Vec<String> = match &self.paragraphs {
            Some(w) => clone_strings(w),
            None => empty_strings(),
        };
        let has_base = self.pattern.is_some() || self.regexp.len() > 0 || self.pattern_file.len() > 0;
        if !has_base {
            push_all(&mut words, &self.and);
        }
        let fixed = self.fixed_words();
        proof {
            assert(words.deep_view() =~= base_words(self));
        }
        if words.len() > 0 || fixed.len() > 0 {
            if self.regexp.len() > 0 || self.pattern_file.len() > 0 {
                return Err(PatternError::WordsWithRegexp);
            }
            let fewer_than_two = (words.len() == 0 && fixed.len() <= 1) || (words.len() == 1 && fixed.len() == 0);
            if self.near.is_some() && fewer_than_two {
                return Err(PatternError::NearNeedsTwoTerms);
            }
            let (pattern, file_nots) = self.build_words_pattern(&words);
            return Ok((pattern, file_nots));
        }
        let mut patterns = clone_strings(&self.regexp);
        let ghost files = pattern_files@;
        let mut j: usize = 0;
        while j < pattern_files.len()
            invariant
                j <= files.len(),
                files == pattern_files@,
                files.len() == self.pattern_file@.len(),
                first_unreadable(files, j as int) is None,
                base_words(self).len() + fixed_words_of(self).len() == 0,
                patterns.deep_view() == self.regexp.deep_view() + file_patterns(files, j as int),
            decreases files.len() - j,
        {
            match &pattern_files[j] {
                Err(msg) => {
                    let path = self.pattern_file[j].clone();
                    let message = msg.clone();
                    proof {
                        assert(files[j as int] matches Err(m) && message@ == m@);
                        assert(path@ == self.pattern_file@[j as int]@);
                        assert(first_unreadable(files, j + 1) == Some(j as int));
                        lemma_first_unreadable_stays(files, j + 1, files.len() as int);
                    }
                    let e = PatternError::PatternFile(path, message);
                    proof {
                        assert(base_words(self).len() + fixed_words_of(self).len() == 0);
                        assert(resolved(self, files) == Err::<(Seq<char>, Seq<Seq<char>>), PatternFailure>(PatternFailure::PatternFile(j as int)));
                        assert(is_failure(self, files, &e, PatternFailure::PatternFile(j as int)));
                    }
                    return Err(e);
                },
                Ok(text) => {
                    let lines = split_lines(text.as_str());
                    let ghost lv = lines.deep_view();
                    let ghost start = patterns.deep_view();
                    let mut k: usize = 0;
                    while k < lines.len()
                        invariant
                            k <= lines@.len(),
                            lv == lines.deep_view(),
                            patterns.deep_view() == start + nonempty_only(lv.take(k as int)),
                        decreases lines@.len() - k,
                    {
                        proof {
                            assert(lv.take(k + 1).drop_last() =~= lv.take(k as int));
                            assert(lv.take(k + 1).last() == lines@[k as int]@);
                        }
                        let ghost before = patterns.deep_view();
                        if !lines[k].as_str().is_empty() {
                            patterns.push(lines[k].clone());
                            proof {
                                assert(patterns.deep_view() =~= before.push(lines@[k as int]@));
                            }
                        }
                        k = k + 1;
                    }
                    proof {
                        assert(lv.take(k as int) =~= lv);
                        assert(patterns.deep_view() =~= self.regexp.deep_view() + file_patterns(files, j + 1));
                    }
                },
            }
            j = j + 1;
        }
        if patterns.len() == 0 {
            match &self.pattern {
                Some(p) => {
                    patterns.push(p.clone());
                },
                None => {
                    if self.exclude_match.len() == 0 {
                        return Err(PatternError::NoPattern);
                    }
                    patterns.push(String::from_str("_*"));
                },
            }
            proof {
                assert(patterns.deep_view() =~= match self.pattern { Some(p) => seq![p@], None => seq!["_*"@] });
            }
        }
        let wrapped_patterns = self.wrap_all(&patterns, None);
        let combined = union_patterns(&wrapped_patterns);
        let (combined, file_nots) = self.apply_and_not(combined);
        if self.near.is_some() && self.and.len() == 0 {
            return Err(PatternError::NearNeedsTwoTerms);
        }
        let combined = self.apply_excludes(combined);
        let combined = self.apply_scope_boundary(combined);
        Ok((combined, file_nots))
    }

    /// The alternation of the positive terms, used to highlight what matched
    /// inside a wider match; `None` when the search has no constraints that
    /// widen the match, or no positive terms.
    pub fn resolve_highlight_pattern(&self) -> (res: Option<String>)
        ensures
            match (res, highlight_pattern(self)) {
                (Some(p), Some(sp)) => p@ == sp,
                (None, None) => true,
                _ => false,
            },
    {
        let para_words = match &self.paragraphs {
            Some(v) => v.len() > 0,
            None => false,
        };
        let fixed_given = match &self.fixed_strings {
            Some(v) => v.len() > 0,
            None => false,
        };
        let has_constraints = self.and.len() > 0 || self.not.len() > 0 || para_words || fixed_given
            || !str_eq(self.effective_scope(), "line");
        if !has_constraints {
            return None;
        }
        let mut terms: Vec<String> = empty_strings();
        if let Some(p) = &self.pattern {
            terms.push(self.wrap_pattern(p.as_str(), None));
            proof {
                assert(terms.deep_view() =~= seq![wrapped(self, p@, None)]);
            }
        }
        let more = self.wrap_all(&self.regexp, None);
        push_all(&mut terms, &more);
        let more = self.wrap_all(&self.and, None);
        push_all(&mut terms, &more);
        match &self.paragraphs {
            Some(w) => {
                let more = self.wrap_all(w, None);
                push_all(&mut terms, &more);
            },
            None => {
                assert(terms.deep_view() =~= terms.deep_view() + Seq::<Seq<char>>::empty());
            },
        }
        let fixed = self.fixed_words();
        let ghost fv = fixed.deep_view();
        let ghost base = terms.deep_view();
        let mut i: usize = 0;
        while i < fixed.len()
            invariant
                i <= fixed@.len(),
                fv == fixed.deep_view(),
                terms.deep_view() =~= base + Seq::new(i as nat, |k: int| escaped(fv[k])),
            decreases fixed@.len() - i,
        {
            let ghost before = terms.deep_view();
            terms.push(escape(fixed[i].as_str()));
            proof {
                assert(terms.deep_view() =~= before.push(escaped(fv[i as int])));
            }
            i = i + 1;
        }
        if terms.len() == 0 {
            return None;
        }
        Some(union_patterns(&terms))
    }
}

proof fn lemma_first_unreadable_stays(files: Seq<Result<String, String>>, j: int, n: int)
    requires
        0 <= j <= n,
        first_unreadable(files, j) is Some,
    ensures
        first_unreadable(files, n) == first_unreadable(files, j),
    decreases n - j,
{
    if j < n {
        lemma_first_unreadable_stays(files, j, n - 1);
    }
}

/// When to color the output.
#[derive(PartialEq, Eq, Structural, Debug, Clone, Copy)]
pub enum ColorMode {
    Auto,
    Always,
    Never,
}

/// A `--max-filesize` value that is not a number with an optional K, M or G suffix.
#[derive(Debug, PartialEq, Eq)]
pub enum FilesizeError {
    /// The offending (trimmed) text.
    Invalid(String),
}

impl FilesizeError {
    /// The message that reports the error.
    pub fn message(&self) -> (m: String)
        ensures
            m@ == match self {
                FilesizeError::Invalid(t) => "invalid --max-filesize value: "@ + t@,
            },
    {
        match self {
            FilesizeError::Invalid(t) => concat2("invalid --max-filesize value: ", t.as_str()),
        }
    }
}

/// The value of the ASCII decimal digit `c`.
pub open spec fn digit_value(c: char) -> int {
    (c as u32) as int - 48
}

/// `c` is an ASCII decimal digit.
pub open spec fn is_digit(c: char) -> bool {
    48 <= (c as u32) && (c as u32) <= 57
}

/// The number that the digits `s` denote.
pub open spec fn digits_value(s: Seq<char>) -> int
    decreases s.len(),
{
    if s.len() == 0 {
        0
    } else {
        digits_value(s.drop_last()) * 10 + digit_value(s.last())
    }
}

/// `s` without a leading `+`.
pub open spec fn unsigned_body(s: Seq<char>) -> Seq<char> {
    if s.len() > 0 && s[0] == '+' { s.skip(1) } else { s }
}

/// Every character of `s` is an ASCII digit.
pub open spec fn all_digits(s: Seq<char>) -> bool {
    forall|i: int| 0 <= i < s.len() ==> is_digit(#[trigger] s[i])
}

/// What `str::parse::<u64>` makes of `s`: an optional `+`, then one or more
/// ASCII digits whose value fits in 64 bits.
pub open spec fn parsed_u64(s: Seq<char>) -> Option<u64> {
    let body = unsigned_body(s);
    if body.len() > 0 && all_digits(body) && digits_value(body) <= u64::MAX {
        Some(digits_value(body) as u64)
    } else {
        None
    }
}

proof fn lemma_digits_value_nonneg(s: Seq<char>)
    requires
        forall|i: int| 0 <= i < s.len() ==> is_digit(#[trigger] s[i]),
    ensures
        digits_value(s) >= 0,
    decreases s.len(),
{
    if s.len() > 0 {
        lemma_digits_value_nonneg(s.drop_last());
    }
}

proof fn lemma_digits_value_grows(s: Seq<char>, t: Seq<char>)
    requires
        forall|i: int| 0 <= i < s.len() ==> is_digit(#[trigger] s[i]),
        forall|i: int| 0 <= i < t.len() ==> is_digit(#[trigger] t[i]),
    ensures
        digits_value(s + t) >= digits_value(s),
    decreases t.len(),
{
    if t.len() > 0 {
        assert((s + t).drop_last() =~= s + t.drop_last());
        lemma_digits_value_grows(s, t.drop_last());
        lemma_digits_value_nonneg(s);
        assert((s + t).last() == t.last());
        assert(is_digit(t[t.len() - 1]));
    } else {
        assert(s + t =~= s);
    }
}

/// Parses a number as `str::parse::<u64>` does.
pub fn parse_u64(s: &str) -> (n: Option<u64>)
    ensures
        n == parsed_u64(s@),
{
    let chars = string_chars(s);
    let mut i: usize = 0;
    if chars.len() > 0 && chars[0] == '+' {
        i = 1;
    }
    let ghost body = unsigned_body(s@);
    proof {
        assert(body =~= s@.skip(i as int));
    }
    if i >= chars.len() {
        return None;
    }
    let mut value: u64 = 0;
    let mut k: usize = i;
    while k < chars.len()
        invariant
            i <= k <= chars@.len(),
            chars@ == s@,
            body == s@.skip(i as int),
            body == unsigned_body(s@),
            i < chars@.len(),
            forall|j: int| i <= j < k ==> is_digit(#[trigger] s@[j]),
            value == digits_value(s@.subrange(i as int, k as int)),
        decreases chars@.len() - k,
    {
        let c = chars[k];
        let code = c as u32;
        if code < 48 || code > 57 {
            proof {
                assert(c == s@[k as int]);
                assert(!is_digit(c));
                assert(body[k - i] == c);
                assert(!is_digit(body[k - i]));
                assert(!(forall|j: int| 0 <= j < body.len() ==> is_digit(#[trigger] body[j])));
            }
            return None;
        }
        let d = (code - 48) as u64;
        proof {
            assert(s@.subrange(i as int, k + 1).drop_last() =~= s@.subrange(i as int, k as int));
        }
        match value.checked_mul(10) {
            None => {
                proof {
                    let pre = s@.subrange(i as int, k + 1);
                    let post = s@.subrange(k + 1, s@.len() as int);
                    assert(pre + post =~= body);
                    if forall|j: int| 0 <= j < body.len() ==> is_digit(#[trigger] body[j]) {
                        assert forall|j: int| 0 <= j < pre.len() implies is_digit(#[trigger] pre[j]) by {
                            assert(pre[j] == body[j]);
                        }
                        assert forall|j: int| 0 <= j < post.len() implies is_digit(#[trigger] post[j]) by {
                            assert(post[j] == body[pre.len() + j]);
                        }
                        lemma_digits_value_grows(pre, post);
                        lemma_digits_value_nonneg(s@.subrange(i as int, k as int));
                    }
                }
                return None;
            },
            Some(v10) => match v10.checked_add(d) {
                None => {
                    proof {
                        let pre = s@.subrange(i as int, k + 1);
                        let post = s@.subrange(k + 1, s@.len() as int);
                        assert(pre + post =~= body);
                        if forall|j: int| 0 <= j < body.len() ==> is_digit(#[trigger] body[j]) {
                            assert forall|j: int| 0 <= j < pre.len() implies is_digit(#[trigger] pre[j]) by {
                                assert(pre[j] == body[j]);
                            }
                            assert forall|j: int| 0 <= j < post.len() implies is_digit(#[trigger] post[j]) by {
                                assert(post[j] == body[pre.len() + j]);
                            }
                            lemma_digits_value_grows(pre, post);
                        }
                    }
                    return None;
                },
                Some(v) => {
                    value = v;
                },
            },
        }
        k = k + 1;
    }
    proof {
        assert(s@.subrange(i as int, k as int) =~= body);
    }
    Some(value)
}

/// The multiplier of a `--max-filesize` suffix, tried in the order k, K, m, M, g, G.
pub open spec fn size_suffix(s: Seq<char>) -> Option<u64> {
    if s.len() == 0 {
        None
    } else {
        let c = s.last();
        if c == 'k' || c == 'K' {
            Some(1024u64)
        } else if c == 'm' || c == 'M' {
            Some(1048576u64)
        } else if c == 'g' || c == 'G' {
            Some(1073741824u64)
        } else {
            None
        }
    }
}

/// The byte limit a `--max-filesize` text denotes, if it is valid and fits in 64 bits.
pub open spec fn filesize_value(raw: Seq<char>) -> Option<u64> {
    let s = trimmed(raw);
    let (num, mult) = match size_suffix(s) {
        Some(m) => (s.drop_last(), m as int),
        None => (s, 1int),
    };
    match parsed_u64(num) {
        Some(n) => if n * mult <= u64::MAX { Some((n * mult) as u64) } else { None },
        None => None,
    }
}

impl Args {
    /// `--hidden`, or at least one `-u`.
    pub fn effective_hidden(&self) -> (b: bool)
        ensures
            b == (self.hidden || self.unrestricted >= 1),
    {
        self.hidden || self.unrestricted >= 1
    }

    /// `--no-ignore`, or at least two `-u`.
    pub fn effective_no_ignore(&self) -> (b: bool)
        ensures
            b == (self.no_ignore || self.unrestricted >= 2),
    {
        self.no_ignore || self.unrestricted >= 2
    }

    /// Binary files are searched with three `-u`.
    pub fn search_binary(&self) -> (b: bool)
        ensures
            b == (self.unrestricted >= 3),
    {
        self.unrestricted >= 3
    }

    /// Line numbers are shown with `-n` or when several files are searched,
    /// unless `--no-line-number` is given.
    pub fn show_line_number(&self, multi_file: bool) -> (b: bool)
        ensures
            b == (!self.no_line_number && (self.line_number || multi_file)),
    {
        if self.no_line_number {
            return false;
        }
        self.line_number || multi_file
    }

    /// Results are grouped under a heading per file with `--heading`, or when
    /// standard output is a terminal; never with `--json` or `--no-heading`.
    pub fn show_heading(&self, stdout_is_terminal: bool) -> (b: bool)
        ensures
            b == (!self.json && !self.no_heading && (self.heading || stdout_is_terminal)),
    {
        if self.json {
            return false;
        }
        if self.no_heading {
            return false;
        }
        self.heading || stdout_is_terminal
    }

    /// Lines of context after a match: `-A`, else `-C`, else none.
    pub fn after_ctx(&self) -> (n: usize)
        ensures
            n == match self.after_context { Some(a) => a, None => match self.context { Some(c) => c, None => 0 } },
    {
        match self.after_context {
            Some(a) => a,
            None => match self.context {
                Some(c) => c,
                None => 0,
            },
        }
    }

    /// Lines of context before a match: `-B`, else `-C`, else none.
    pub fn before_ctx(&self) -> (n: usize)
        ensures
            n == match self.before_context { Some(b) => b, None => match self.context { Some(c) => c, None => 0 } },
    {
        match self.before_context {
            Some(b) => b,
            None => match self.context {
                Some(c) => c,
                None => 0,
            },
        }
    }

    /// Whether a file of `file_size` bytes is memory-mapped: never with
    /// `--no-mmap`, always with `--mmap`, otherwise from 1 MiB on.
    pub fn use_mmap(&self, file_size: u64) -> (b: bool)
        ensures
            b == (!self.no_mmap && (self.mmap || file_size >= 1048576)),
    {
        if self.no_mmap {
            return false;
        }
        if self.mmap {
            return true;
        }
        file_size >= 1048576
    }

    /// The paths to search: those given, or the current directory.
    pub fn resolved_paths(&self) -> (paths: Vec<String>)
        ensures
            self.paths@.len() == 0 ==> paths.deep_view() == seq!["."@],
            self.paths@.len() > 0 ==> paths.deep_view() == self.paths.deep_view(),
    {
        if self.paths.len() == 0 {
            let mut v: Vec<String> = Vec::new();
            v.push(String::from_str("."));
            assert(v.deep_view() =~= seq!["."@]);
            v
        } else {
            clone_strings(&self.paths)
        }
    }

    /// The match limit for the next file, given how many matches earlier files
    /// had: the smaller of `--max-count` and what `--max-total` leaves.
    pub fn effective_max(&self, total_so_far: usize) -> (m: Option<usize>)
        ensures
            m == match_limit(self, total_so_far),
    {
        match (self.max_count, self.max_total) {
            (Some(mc), Some(mt)) => {
                let left = mt.saturating_sub(total_so_far);
                Some(if mc < left { mc } else { left })
            },
            (Some(mc), None) => Some(mc),
            (None, Some(mt)) => Some(mt.saturating_sub(total_so_far)),
            (None, None) => None,
        }
    }

    /// When to color: never with `--json` or when `NO_COLOR` is set; else as
    /// `--color` says, `auto` meaning only when standard output is a terminal.
    pub fn color_choice(&self, no_color_env: bool, stdout_is_terminal: bool) -> (c: ColorMode)
        ensures
            c == if self.json || no_color_env {
                ColorMode::Never
            } else if self.color@ == "always"@ {
                ColorMode::Always
            } else if self.color@ == "never"@ {
                ColorMode::Never
            } else if stdout_is_terminal {
                ColorMode::Auto
            } else {
                ColorMode::Never
            },
    {
        if self.json || no_color_env {
            return ColorMode::Never;
        }
        if str_eq(self.color.as_str(), "always") {
            ColorMode::Always
        } else if str_eq(self.color.as_str(), "never") {
            ColorMode::Never
        } else if stdout_is_terminal {
            ColorMode::Auto
        } else {
            ColorMode::Never
        }
    }

    /// The `--max-filesize` limit in bytes: `None` when not given, an error
    /// when the text is not a number with an optional K, M or G suffix (or the
    /// limit does not fit in 64 bits).
    pub fn parse_max_filesize(&self) -> (res: Result<Option<u64>, FilesizeError>)
        ensures
            match self.max_filesize {
                None => res == Ok::<Option<u64>, FilesizeError>(None),
                Some(raw) => match filesize_value(raw@) {
                    Some(v) => res == Ok::<Option<u64>, FilesizeError>(Some(v)),
                    None => res matches Err(FilesizeError::Invalid(t)) && t@ == trimmed(raw@),
                },
            },
    {
        let raw = match &self.max_filesize {
            Some(s) => s,
            None => return Ok(None),
        };
        let s = trim(raw.as_str());
        let chars = string_chars(s.as_str());
        let n = chars.len();
        let mut mult: u64 = 1;
        let mut num_len = n;
        if n > 0 {
            let c = chars[n - 1];
            if c == 'k' || c == 'K' {
                mult = 1024;
                num_len = n - 1;
            } else if c == 'm' || c == 'M' {
                mult = 1048576;
                num_len = n - 1;
            } else if c == 'g' || c == 'G' {
                mult = 1073741824;
                num_len = n - 1;
            }
        }
        let num_str = crate::text::chars_slice_to_string(&chars, 0, num_len);
        proof {
            if num_len < n {
                assert(num_str@ =~= s@.drop_last());
            } else {
                assert(num_str@ =~= s@);
            }
        }
        match parse_u64(num_str.as_str()) {
            Some(v) => match v.checked_mul(mult) {
                Some(total) => Ok(Some(total)),
                None => Err(FilesizeError::Invalid(s)),
            },
            None => Err(FilesizeError::Invalid(s)),
        }
    }
}

fn merged_globs(glob: &Vec<String>, include_globs: &Vec<String>, exclude_globs: &Vec<String>) -> (out: Vec<String>)
    ensures
        out.deep_view() == glob.deep_view() + include_globs.deep_view()
            + Seq::new(exclude_globs@.len(), |i: int| "!"@ + exclude_globs@[i]@),
{
    let mut out = clone_strings(glob);
    push_all(&mut out, include_globs);
    let ghost base = out.deep_view();
    let mut i: usize = 0;
    while i < exclude_globs.len()
        invariant
            i <= exclude_globs@.len(),
            out.deep_view() =~= base + Seq::new(i as nat, |k: int| "!"@ + exclude_globs@[k]@),
        decreases exclude_globs@.len() - i,
    {
        let ghost before = out.deep_view();
        out.push(concat2("!", exclude_globs[i].as_str()));
        proof {
            assert(out.deep_view() =~= before.push("!"@ + exclude_globs@[i as int]@));
        }
        i = i + 1;
    }
    out
}

/// `-p` or `-F` came with words.
pub open spec fn has_words(a: &Args) -> bool {
    (a.paragraphs matches Some(v) && v@.len() > 0) || (a.fixed_strings matches Some(v) && v@.len() > 0)
}

/// `--scope` is the given text.
pub open spec fn scope_is(a: &Args, s: Seq<char>) -> bool {
    a.scope matches Some(t) && t@ == s
}

/// The positional argument is taken as a path rather than a pattern: with
/// `-e`/`-f`/word patterns/`--files`, or, when only `--and`/file-scope `--not`
/// constraints are given, if it names an existing path.
pub open spec fn pattern_taken_as_path(raw: &Args, pattern_exists: bool) -> bool {
    let by_mode = raw.regexp@.len() > 0 || raw.pattern_file@.len() > 0 || has_words(raw) || raw.files;
    let only_constraints = raw.and@.len() > 0 || (scope_is(raw, "file"@) && raw.not@.len() > 0);
    &&& raw.pattern is Some
    &&& (by_mode || (only_constraints && raw.regexp@.len() == 0 && raw.pattern_file@.len() == 0
            && !has_words(raw) && pattern_exists))
}

/// With file scope and only `--not` terms, the search is turned around: the
/// terms become the patterns and files without a match are listed.
pub open spec fn inverts_file_scope(raw: &Args, pattern_exists: bool) -> bool {
    let pattern_left = raw.pattern is Some && !pattern_taken_as_path(raw, pattern_exists);
    let has_positive = pattern_left || raw.regexp@.len() > 0 || raw.pattern_file@.len() > 0
        || raw.and@.len() > 0 || has_words(raw);
    scope_is(raw, "file"@) && raw.not@.len() > 0 && !has_positive
}

/// Finishes reading the command line: folds `--include`/`--exclude` into the
/// globs, takes the positional argument as a path where the options call for
/// it (`pattern_is_existing_path` says whether it names an existing path),
/// makes `--scope paragraph` mean `-p`, turns a file-scope search with only
/// `--not` terms into a listing of files without a match, and makes file scope
/// list matching files unless another output was asked for.
pub fn parse(raw: Args, pattern_is_existing_path: bool) -> (args: Args)
    ensures
        args.glob.deep_view() == raw.glob.deep_view() + raw.include_glob.deep_view()
            + Seq::new(raw.exclude_glob@.len(), |i: int| "!"@ + raw.exclude_glob@[i]@),
        args.include_glob@.len() == 0,
        args.exclude_glob@.len() == 0,
        pattern_taken_as_path(&raw, pattern_is_existing_path) ==> args.pattern is None
            && args.paths.deep_view() == seq![raw.pattern->0@] + raw.paths.deep_view(),
        !pattern_taken_as_path(&raw, pattern_is_existing_path) ==> args.pattern == raw.pattern
            && args.paths.deep_view() == raw.paths.deep_view(),
        args.paragraphs.deep_view() == if scope_is(&raw, "paragraph"@) && raw.paragraphs is None {
            Some(Seq::<Seq<char>>::empty())
        } else {
            raw.paragraphs.deep_view()
        },
        inverts_file_scope(&raw, pattern_is_existing_path) ==> args.regexp.deep_view() == raw.not.deep_view()
            && args.not@.len() == 0 && args.files_without_match,
        !inverts_file_scope(&raw, pattern_is_existing_path) ==> args.regexp == raw.regexp && args.not == raw.not
            && args.files_without_match == raw.files_without_match,
        args.files_with_matches == (raw.files_with_matches || (scope_is(&raw, "file"@) && !raw.count
            && !raw.only_matching && !args.files_without_match && !raw.quiet && !raw.json && !raw.count_matches)),
        args == (Args {
            pattern: args.pattern,
            paths: args.paths,
            regexp: args.regexp,
            not: args.not,
            glob: args.glob,
            include_glob: args.include_glob,
            exclude_glob: args.exclude_glob,
            paragraphs: args.paragraphs,
            files_without_match: args.files_without_match,
            files_with_matches: args.files_with_matches,
            ..raw
        }),
{
    let glob = merged_globs(&raw.glob, &raw.include_glob, &raw.exclude_glob);
    let para_words = match &raw.paragraphs {
        Some(v) => v.len() > 0,
        None => false,
    };
    let fixed_words = match &raw.fixed_strings {
        Some(v) => v.len() > 0,
        None => false,
    };
    let has_words = para_words || fixed_words;
    let by_mode = raw.regexp.len() > 0 || raw.pattern_file.len() > 0 || has_words || raw.files;
    let scope_file = match &raw.scope {
        Some(sc) => str_eq(sc.as_str(), "file"),
        None => false,
    };
    let only_constraints = raw.and.len() > 0 || (scope_file && raw.not.len() > 0);
    let move_pattern = raw.pattern.is_some() && (by_mode || (only_constraints && raw.regexp.len() == 0
        && raw.pattern_file.len() == 0 && !has_words && pattern_is_existing_path));
    let scope_paragraph = match &raw.scope {
        Some(sc) => str_eq(sc.as_str(), "paragraph"),
        None => false,
    };
    let pattern_left = raw.pattern.is_some() && !move_pattern;
    let has_positive = pattern_left || raw.regexp.len() > 0 || raw.pattern_file.len() > 0 || raw.and.len() > 0
        || has_words;
    let invert = scope_file && raw.not.len() > 0 && !has_positive;
    let files_without_match = if invert { true } else { raw.files_without_match };
    let files_with_matches = if scope_file && !raw.count && !raw.only_matching && !files_without_match && !raw.quiet
        && !raw.json && !raw.count_matches {
        true
    } else {
        raw.files_with_matches
    };
    let ghost paths0 = raw.paths.deep_view();
    let Args { pattern, paths, regexp, not, paragraphs, .. } = raw;
    let (pattern, paths) = if move_pattern {
        match pattern {
            Some(p) => {
                let ghost pv = p@;
                let ghost paths_raw = paths@;
                let mut paths = paths;
                paths.insert(0, p);
                proof {
                    assert(paths@ =~= seq![paths@[0]] + paths_raw);
                    assert(paths.deep_view() =~= seq![pv] + paths0);
                }
                (None, paths)
            },
            None => (None, paths),
        }
    } else {
        (pattern, paths)
    };
    let paragraphs = if scope_paragraph && paragraphs.is_none() {
        let v: Vec<String> = Vec::new();
        proof {
            assert(Some(v).deep_view() =~= Some(Seq::<Seq<char>>::empty()));
        }
        Some(v)
    } else {
        paragraphs
    };
    let (regexp, not) = if invert {
        (not, Vec::new())
    } else {
        (regexp, not)
    };
    Args {
        pattern,
        paths,
        regexp,
        not,
        glob,
        include_glob: Vec::new(),
        exclude_glob: Vec::new(),
        paragraphs,
        files_without_match,
        files_with_matches,
        ..raw
    }
}

} // verus!
