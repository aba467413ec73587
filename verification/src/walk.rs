//! The decisions of a walk over many files: how to walk, what each file adds
//! to the totals, when to stop, and the commands that `--exec` runs.
use vstd::prelude::*;

use crate::args::{clone_strings, joined, left_of, match_limit, Args};
use crate::engine::Matcher;
use crate::lines::{count_lines, is_binary, line_count, looks_binary};
use crate::search::{search_buffer, search_outcome, SearchResult};
use crate::text::{chars_to_string, decimal, str_eq, string_chars, usize_to_string};

verus! {

/// Totals over the files of a walk.
pub struct Stats {
    pub files_searched: usize,
    pub files_matched: usize,
    pub match_count: usize,
    pub total_lines: usize,
}

/// `a + b`, or the largest `usize` when that does not fit.
pub open spec fn sat_add(a: usize, b: usize) -> usize {
    if a + b <= usize::MAX { (a + b) as usize } else { usize::MAX }
}

impl Stats {
    /// All totals zero.
    pub fn new() -> (s: Stats)
        ensures
            s.files_searched == 0 && s.files_matched == 0 && s.match_count == 0 && s.total_lines == 0,
    {
        Stats { files_searched: 0, files_matched: 0, match_count: 0, total_lines: 0 }
    }

    /// A file is about to be searched.
    pub fn count_searched(&mut self)
        ensures
            final(self).files_searched == sat_add(old(self).files_searched, 1),
            final(self).files_matched == old(self).files_matched,
            final(self).match_count == old(self).match_count,
            final(self).total_lines == old(self).total_lines,
    {
        self.files_searched = self.files_searched.saturating_add(1);
    }

    /// A file was listed (`--files`): it counts as matched, and its lines count
    /// when it could be read (`contents`). Totals saturate.
    pub fn count_listed(&mut self, contents: Option<&[u8]>)
        ensures
            final(self).files_searched == old(self).files_searched,
            final(self).match_count == old(self).match_count,
            final(self).files_matched == sat_add(old(self).files_matched, 1),
            final(self).total_lines == match contents {
                Some(b) => sat_add(old(self).total_lines, line_count(b@) as usize),
                None => old(self).total_lines,
            },
    {
        self.files_matched = self.files_matched.saturating_add(1);
        if let Some(b) = contents {
            self.total_lines = self.total_lines.saturating_add(count_lines(b));
        }
    }
}

/// The state of a walk that searches one file after another: whether any
/// file matched, whether the engine gave up on any, and the totals.
pub struct WalkState {
    pub found_any: bool,
    pub had_errors: bool,
    pub stats: Stats,
}

impl WalkState {
    /// Nothing searched yet.
    pub fn new() -> (w: WalkState)
        ensures
            !w.found_any && !w.had_errors,
            w.stats.files_searched == 0 && w.stats.files_matched == 0 && w.stats.match_count == 0 && w.stats.total_lines == 0,
    {
        WalkState { found_any: false, had_errors: false, stats: Stats::new() }
    }

    /// A file is about to be searched: it is counted, and its match limit
    /// is what `--max-count` and `--max-total` leave.
    pub fn begin_file(&mut self, args: &Args) -> (limit: Option<usize>)
        ensures
            limit == match_limit(args, old(self).stats.match_count),
            final(self).stats.files_searched == sat_add(old(self).stats.files_searched, 1),
            final(self).stats.files_matched == old(self).stats.files_matched,
            final(self).stats.match_count == old(self).stats.match_count,
            final(self).stats.total_lines == old(self).stats.total_lines,
            final(self).found_any == old(self).found_any,
            final(self).had_errors == old(self).had_errors,
    {
        self.stats.files_searched = self.stats.files_searched.saturating_add(1);
        compute_effective_max(args, self.stats.match_count)
    }

    /// What searching a file gave: (found, engine gave up, count, lines).
    /// Returns whether the walk goes on: it stops at the first match with
    /// `--quiet` (before the count is added), and once `--max-total` is reached.
    pub fn finish_file(&mut self, args: &Args, found: bool, had_error: bool, count: usize, lines: usize) -> (go_on: bool)
        ensures
            final(self).stats.files_searched == old(self).stats.files_searched,
            final(self).stats.total_lines == sat_add(old(self).stats.total_lines, lines),
            final(self).had_errors == (old(self).had_errors || had_error),
            final(self).found_any == (old(self).found_any || found),
            final(self).stats.files_matched == if found { sat_add(old(self).stats.files_matched, 1) } else { old(self).stats.files_matched },
            found && args.quiet ==> !go_on && final(self).stats.match_count == old(self).stats.match_count,
            !(found && args.quiet) ==> {
                &&& final(self).stats.match_count == sat_add(old(self).stats.match_count, count)
                &&& go_on == !(args.max_total matches Some(mt) && final(self).stats.match_count >= mt)
            },
    {
        self.stats.total_lines = self.stats.total_lines.saturating_add(lines);
        if had_error {
            self.had_errors = true;
        }
        if found {
            self.found_any = true;
            self.stats.files_matched = self.stats.files_matched.saturating_add(1);
            if args.quiet {
                return false;
            }
        }
        self.stats.match_count = self.stats.match_count.saturating_add(count);
        match args.max_total {
            Some(mt) => self.stats.match_count < mt,
            None => true,
        }
    }
}

/// The match limit for the next file after `total_so_far` matches.
fn compute_effective_max(args: &Args, total_so_far: usize) -> (m: Option<usize>)
    ensures
        m == match_limit(args, total_so_far),
{
    args.effective_max(total_so_far)
}

/// Whether a worker of the parallel walk stops: with `--quiet` once some file
/// matched, and once `--max-total` is reached.
pub fn should_quit(args: &Args, found_any: bool, total_matches: usize) -> (quit: bool)
    ensures
        quit == ((args.quiet && found_any) || (args.max_total matches Some(mt) && total_matches >= mt)),
{
    if args.quiet && found_any {
        return true;
    }
    match args.max_total {
        Some(mt) => total_matches >= mt,
        None => false,
    }
}

/// The limit a worker of the parallel walk gives a file: what `--max-total`
/// leaves, if set (`--max-count` applies through the search itself).
pub fn parallel_limit(args: &Args, total_matches: usize) -> (m: Option<usize>)
    ensures
        m == match args.max_total { Some(mt) => Some(left_of(mt, total_matches)), None => None },
{
    match args.max_total {
        Some(mt) => Some(mt.saturating_sub(total_matches)),
        None => None,
    }
}

/// How the files are walked.
#[derive(PartialEq, Eq, Structural, Debug, Clone, Copy)]
pub enum WalkKind {
    /// collected first, then searched in path order
    Sorted,
    /// one file after another
    Sequential,
    /// by several workers at once
    Parallel,
}

/// The way of walking that the options ask for, and the number of threads
/// to give the walker (0: its default). `--sort path` sorts; `--unique`
/// needs one shared set, so it walks one file after another; otherwise the
/// walk is parallel when `--threads` asks for more than one, or, without
/// it, when the machine has more than one processor (`many_cpus`).
pub fn walk_plan(args: &Args, many_cpus: bool) -> (plan: (WalkKind, usize))
    ensures
        plan == if args.sort matches Some(s) && s@ == "path"@ {
            (WalkKind::Sorted, 1usize)
        } else if args.unique {
            (WalkKind::Sequential, 1usize)
        } else {
            let threads = match args.threads { Some(n) => n, None => 0 };
            let parallel = match args.threads { Some(n) => n > 1, None => many_cpus };
            (if parallel { WalkKind::Parallel } else { WalkKind::Sequential }, threads)
        },
{
    let sorted = match &args.sort {
        Some(s) => str_eq(s.as_str(), "path"),
        None => false,
    };
    if sorted {
        return (WalkKind::Sorted, 1);
    }
    if args.unique {
        return (WalkKind::Sequential, 1);
    }
    let threads = match args.threads {
        Some(n) => n,
        None => 0,
    };
    let parallel = match args.threads {
        Some(n) => n > 1,
        None => many_cpus,
    };
    (if parallel { WalkKind::Parallel } else { WalkKind::Sequential }, threads)
}

/// How the directory walker is set up.
pub struct WalkConfig {
    /// skip hidden files
    pub hidden: bool,
    /// respect `.ignore` files
    pub ignore: bool,
    /// respect `.gitignore`, the global git ignore file and `.git/info/exclude`
    pub git_ignore: bool,
    pub git_global: bool,
    pub git_exclude: bool,
    pub follow_links: bool,
    pub max_depth: Option<usize>,
    /// 0: the walker's default
    pub threads: usize,
    /// further ignore files, read like `.gitignore`
    pub ignore_files: Vec<String>,
    /// file types to select and to negate, when any is given
    pub types: Option<(Vec<String>, Vec<String>)>,
    /// globs, and case-insensitive globs, when any is given
    pub overrides: Option<(Vec<String>, Vec<String>)>,
}

/// The walker set up by the options, with `threads` threads.
pub fn walk_config(args: &Args, threads: usize) -> (c: WalkConfig)
    ensures
        c.hidden == !(args.hidden || args.unrestricted >= 1),
        c.ignore == !(args.no_ignore || args.unrestricted >= 2),
        c.git_ignore == !(args.no_ignore || args.unrestricted >= 2 || args.no_ignore_vcs),
        c.git_global == c.git_ignore,
        c.git_exclude == c.git_ignore,
        c.follow_links == args.follow,
        c.max_depth == args.max_depth,
        c.threads == threads,
        c.ignore_files.deep_view() == args.ignore_file.deep_view(),
        c.types.deep_view() == if args.file_type@.len() > 0 || args.type_not@.len() > 0 {
            Some((args.file_type.deep_view(), args.type_not.deep_view()))
        } else {
            None
        },
        c.overrides.deep_view() == if args.glob@.len() > 0 || args.iglob@.len() > 0 {
            Some((args.glob.deep_view(), args.iglob.deep_view()))
        } else {
            None
        },
{
    let no_ignore = args.effective_no_ignore();
    let git = !no_ignore && !args.no_ignore_vcs;
    let types = if args.file_type.len() > 0 || args.type_not.len() > 0 {
        Some((clone_strings(&args.file_type), clone_strings(&args.type_not)))
    } else {
        None
    };
    let overrides = if args.glob.len() > 0 || args.iglob.len() > 0 {
        Some((clone_strings(&args.glob), clone_strings(&args.iglob)))
    } else {
        None
    };
    WalkConfig {
        hidden: !args.effective_hidden(),
        ignore: !no_ignore,
        git_ignore: git,
        git_global: git,
        git_exclude: git,
        follow_links: args.follow,
        max_depth: args.max_depth,
        threads,
        ignore_files: clone_strings(&args.ignore_file),
        types,
        overrides,
    }
}

/// What `--exec` after a search makes of a file's contents `buf`: `None`
/// when the engine gives up on it, else whether it matched. Binary files
/// (unless `-uuu`) are skipped without a search. The file's lines are added
/// to the totals, and so are its reported lines when it was searched.
pub fn exec_candidate(stats: &mut Stats, re: &Matcher, buf: &[u8], args: &Args) -> (res: Option<bool>)
    ensures
        final(stats).files_searched == old(stats).files_searched,
        final(stats).total_lines == sat_add(old(stats).total_lines, line_count(buf@) as usize),
        args.unrestricted < 3 && looks_binary(buf@) ==> {
            &&& res == Some(false)
            &&& final(stats).match_count == old(stats).match_count
            &&& final(stats).files_matched == old(stats).files_matched
        },
        !(args.unrestricted < 3 && looks_binary(buf@)) ==> exists|sr: SearchResult| {
            &&& #[trigger] search_outcome(re, None, buf@, args, None, &sr)
            &&& if sr.had_error {
                &&& res is None
                &&& final(stats).match_count == old(stats).match_count
                &&& final(stats).files_matched == old(stats).files_matched
            } else {
                &&& res == Some(sr.matches@.len() > 0)
                &&& final(stats).match_count == sat_add(old(stats).match_count, sr.matches@.len() as usize)
                &&& final(stats).files_matched == if sr.matches@.len() > 0 { sat_add(old(stats).files_matched, 1) } else { old(stats).files_matched }
            }
        },
{
    stats.total_lines = stats.total_lines.saturating_add(count_lines(buf));
    if !args.search_binary() && is_binary(buf) {
        return Some(false);
    }
    let sr = search_buffer(re, None, buf, args, None);
    if sr.had_error {
        return None;
    }
    stats.match_count = stats.match_count.saturating_add(sr.matches.len());
    if sr.matches.len() > 0 {
        stats.files_matched = stats.files_matched.saturating_add(1);
        return Some(true);
    }
    Some(false)
}

/// `s` with each `'` written as `'\''`.
pub open spec fn quote_escaped(s: Seq<char>) -> Seq<char>
    decreases s.len(),
{
    if s.len() == 0 {
        Seq::empty()
    } else {
        quote_escaped(s.drop_last()) + if s.last() == '\'' { seq!['\'', '\\', '\'', '\''] } else { seq![s.last()] }
    }
}

/// `s` quoted for `sh`: in single quotes, each `'` inside closed, escaped and reopened.
pub open spec fn shell_quoted(s: Seq<char>) -> Seq<char> {
    seq!['\''] + quote_escaped(s) + seq!['\'']
}

/// Quotes `s` for `sh`.
pub fn shell_escape(s: &str) -> (q: String)
    ensures
        q@ == shell_quoted(s@),
{
    let chars = string_chars(s);
    let mut out: Vec<char> = Vec::new();
    out.push('\'');
    let mut i: usize = 0;
    while i < chars.len()
        invariant
            i <= chars@.len(),
            out@ == seq!['\''] + quote_escaped(chars@.take(i as int)),
        decreases chars@.len() - i,
    {
        proof {
            assert(chars@.take(i + 1).drop_last() =~= chars@.take(i as int));
        }
        let c = chars[i];
        if c == '\'' {
            out.push('\'');
            out.push('\\');
            out.push('\'');
            out.push('\'');
        } else {
            out.push(c);
        }
        i = i + 1;
        proof {
            assert(out@ =~= seq!['\''] + quote_escaped(chars@.take(i as int)));
        }
    }
    out.push('\'');
    proof {
        assert(chars@.take(chars@.len() as int) =~= chars@);
        assert(out@ =~= shell_quoted(s@));
    }
    chars_to_string(out.as_slice())
}

/// `t` holds `{}` at `i`.
pub open spec fn braces_at(t: Seq<char>, i: int) -> bool {
    0 <= i && i + 1 < t.len() && t[i] == '{' && t[i + 1] == '}'
}

/// `t` holds `{}`.
pub open spec fn has_braces(t: Seq<char>) -> bool {
    exists|i: int| #[trigger] braces_at(t, i)
}

/// `t` with each `{}`, from left to right, replaced by `rep`.
pub open spec fn braces_replaced(t: Seq<char>, rep: Seq<char>) -> Seq<char>
    decreases t.len(),
{
    if t.len() == 0 {
        Seq::empty()
    } else if t.len() >= 2 && t[0] == '{' && t[1] == '}' {
        rep + braces_replaced(t.skip(2), rep)
    } else {
        seq![t[0]] + braces_replaced(t.skip(1), rep)
    }
}

/// The shell command that `--exec` runs on the file `path`: the template
/// with each `{}` replaced by the quoted path, or, without `{}`, the
/// template followed by a space and the quoted path.
pub open spec fn exec_line(template: Seq<char>, path: Seq<char>) -> Seq<char> {
    if has_braces(template) {
        braces_replaced(template, shell_quoted(path))
    } else {
        template + seq![' '] + shell_quoted(path)
    }
}

/// Builds the shell command that `--exec` runs on the file `path`.
pub fn exec_command_line(template: &str, path: &str) -> (cmd: String)
    ensures
        cmd@ == exec_line(template@, path@),
{
    let quoted = shell_escape(path);
    let q = string_chars(quoted.as_str());
    let t = string_chars(template);
    let mut out: Vec<char> = Vec::new();
    let mut found = false;
    let mut i: usize = 0;
    proof {
        assert(t@.skip(0) =~= t@);
    }
    while i < t.len()
        invariant
            i <= t@.len(),
            q@ == shell_quoted(path@),
            braces_replaced(t@, q@) == out@ + braces_replaced(t@.skip(i as int), q@),
            found == exists|k: int| k < i && #[trigger] braces_at(t@, k),
            !found ==> out@ == t@.take(i as int),
        decreases t@.len() - i,
    {
        let ghost rest = t@.skip(i as int);
        if i + 1 < t.len() && t[i] == '{' && t[i + 1] == '}' {
            let ghost out_before = out@;
            let mut j: usize = 0;
            while j < q.len()
                invariant
                    j <= q@.len(),
                    out@ == out_before + q@.take(j as int),
                decreases q@.len() - j,
            {
                out.push(q[j]);
                j = j + 1;
                proof {
                    assert(out@ =~= out_before + q@.take(j as int));
                }
            }
            proof {
                assert(q@.take(q@.len() as int) =~= q@);
                assert(rest.skip(2) =~= t@.skip(i + 2));
                assert(braces_at(t@, i as int));
            }
            found = true;
            i = i + 2;
        } else {
            proof {
                assert(rest.skip(1) =~= t@.skip(i + 1));
                assert(!braces_at(t@, i as int));
                assert(out@.push(t@[i as int]) =~= t@.take(i + 1) || found);
            }
            out.push(t[i]);
            i = i + 1;
        }
    }
    proof {
        assert(t@.skip(t@.len() as int) =~= Seq::<char>::empty());
        assert(out@ + Seq::<char>::empty() =~= out@);
        if !found {
            assert(t@.take(t@.len() as int) =~= t@);
            assert forall|k: int| !braces_at(t@, k) by {
                if braces_at(t@, k) {
                    assert(k < i);
                }
            }
        }
    }
    if found {
        proof {
            assert(has_braces(t@));
        }
        chars_to_string(out.as_slice())
    } else {
        let mut line = template.to_string();
        line.append(" ");
        line.append(quoted.as_str());
        proof {
            reveal_strlit(" ");
            assert(line@ =~= template@ + seq![' '] + shell_quoted(path@));
        }
        line
    }
}

/// A line of `--type-list`: the type's name and its globs.
pub fn type_list_line(name: &str, globs: &Vec<String>) -> (line: String)
    ensures
        line@ == name@ + ": "@ + joined(globs.deep_view(), ", "@),
{
    let g = crate::args::join_with(globs, ", ");
    crate::args::concat3(name, ": ", g.as_str())
}

/// The refusal of a `--scope` that has no implementation: `block` and `indent`.
pub fn scope_unsupported(args: &Args) -> (err: Option<String>)
    ensures
        err.deep_view() == match args.scope {
            Some(s) => if s@ == "block"@ {
                Some("--scope block requires --delimiters (not yet implemented)"@)
            } else if s@ == "indent"@ {
                Some("--scope indent is not yet implemented"@)
            } else {
                None
            },
            None => None,
        },
{
    match &args.scope {
        Some(s) => {
            if str_eq(s.as_str(), "block") {
                Some("--scope block requires --delimiters (not yet implemented)".to_string())
            } else if str_eq(s.as_str(), "indent") {
                Some("--scope indent is not yet implemented".to_string())
            } else {
                None
            }
        },
        None => None,
    }
}

/// Whether the search reads standard input: no path was given and standard
/// input is not a terminal.
pub fn searches_stdin(args: &Args, stdin_is_terminal: bool) -> (b: bool)
    ensures
        b == (args.paths@.len() == 0 && !stdin_is_terminal),
{
    args.paths.len() == 0 && !stdin_is_terminal
}

/// The line that `--count-matches` prints after a search that counted
/// `total` lines: the number alone.
pub fn count_matches_line(args: &Args, total: usize) -> (line: Option<String>)
    ensures
        line.deep_view() == if args.count_matches { Some(decimal(total as nat) + seq!['\n']) } else { None::<Seq<char>> },
{
    if args.count_matches {
        let mut t = usize_to_string(total);
        t.append("\n");
        proof {
            reveal_strlit("\n");
        }
        Some(t)
    } else {
        None
    }
}

/// The exit status of a run: 2 when an error occurred, else 0 when
/// something was found and 1 when nothing was.
pub fn exit_status(found: bool, errors: bool) -> (code: u8)
    ensures
        code == if errors { 2u8 } else if found { 0u8 } else { 1u8 },
{
    if errors {
        2
    } else if found {
        0
    } else {
        1
    }
}

} // verus!
