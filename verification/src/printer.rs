//! What a search prints: the text of each reported line with its prefix,
//! context, scope headers and highlighting, or the records of `--json`.
use vstd::prelude::*;
use vstd::string::StringSliceAdditionalSpecFns;
use vstd::utf8::{decode_utf8, encode_utf8, valid_utf8};

use crate::args::{opt_chars, Args};
use crate::lines::{get_line, line_starts, line_text, valid_line_table};
use crate::search::{models, reports_line, LineMatch, LineModel};
use crate::text::{decimal, trim, trimmed, usize_to_string};

verus! {

/// How the printer is set up for one run.
pub struct PrinterOpts {
    pub heading: bool,
    pub show_path: bool,
    pub line_number: bool,
    pub only_matching: bool,
    pub count: bool,
    pub files_with_matches: bool,
    pub files_without_match: bool,
    pub column: bool,
    pub byte_offset: bool,
    pub before_ctx: usize,
    pub after_ctx: usize,
    pub replace: Option<String>,
    pub json: bool,
    pub unique: bool,
    pub show_scope: bool,
    pub null: bool,
    pub trim_width: Option<usize>,
    pub vimgrep: bool,
    pub max_columns: Option<usize>,
    pub context_separator: String,
}

/// Whether several files are searched: more than one path, a directory, or
/// no path while standard input is a terminal (so the working directory).
pub open spec fn multi_file(a: &Args, first_path_is_dir: bool, stdin_is_terminal: bool) -> bool {
    a.paths@.len() > 1 || (a.paths@.len() >= 1 && first_path_is_dir) || (a.paths@.len() == 0 && stdin_is_terminal)
}

/// `o` is how the options `a` set up the printer: `--vimgrep` fixes its own
/// format; otherwise each field follows its option, a heading replaces the
/// path prefix, and `--trim` cuts lines to `width` columns.
pub open spec fn opts_from(o: &PrinterOpts, a: &Args, multi: bool, stdout_is_terminal: bool, width: usize) -> bool {
    let heading = !a.json && !a.no_heading && (a.heading || stdout_is_terminal);
    &&& o.only_matching == a.only_matching
    &&& o.replace.deep_view() == a.replace.deep_view()
    &&& o.unique == a.unique
    &&& o.max_columns == a.max_columns
    &&& if a.vimgrep {
        &&& !o.heading && o.show_path && o.line_number && !o.count
        &&& !o.files_with_matches && !o.files_without_match
        &&& o.column && !o.byte_offset && o.before_ctx == 0 && o.after_ctx == 0
        &&& !o.json && !o.show_scope && !o.null && o.trim_width is None && o.vimgrep
        &&& o.context_separator@ == Seq::<char>::empty()
    } else {
        &&& o.heading == heading
        &&& o.show_path == (multi && !heading && !a.no_filename)
        &&& o.line_number == (!a.no_line_number && (a.line_number || multi))
        &&& o.count == a.count
        &&& o.files_with_matches == a.files_with_matches
        &&& o.files_without_match == a.files_without_match
        &&& o.column == a.column
        &&& o.byte_offset == a.byte_offset
        &&& o.before_ctx == match a.before_context { Some(b) => b, None => match a.context { Some(c) => c, None => 0 } }
        &&& o.after_ctx == match a.after_context { Some(x) => x, None => match a.context { Some(c) => c, None => 0 } }
        &&& o.json == a.json
        &&& o.show_scope == a.show_scope
        &&& o.null == a.null
        &&& o.trim_width == if a.trim { Some(width) } else { None }
        &&& !o.vimgrep
        &&& o.context_separator@ == a.context_separator@
    }
}

fn clone_opt_string(s: &Option<String>) -> (r: Option<String>)
    ensures
        r.deep_view() == s.deep_view(),
{
    match s {
        Some(t) => Some(t.clone()),
        None => None,
    }
}

impl PrinterOpts {
    /// The printer set up by the options `args`. What the original learns
    /// from the system comes as arguments: whether the first path is a
    /// directory, whether standard input and output are terminals, and the
    /// terminal's width.
    pub fn from_args(args: &Args, first_path_is_dir: bool, stdin_is_terminal: bool, stdout_is_terminal: bool, terminal_width: usize) -> (o: PrinterOpts)
        ensures
            opts_from(&o, args, multi_file(args, first_path_is_dir, stdin_is_terminal), stdout_is_terminal, terminal_width),
    {
        let multi = args.paths.len() > 1 || (args.paths.len() >= 1 && first_path_is_dir) || (args.paths.len() == 0 && stdin_is_terminal);
        if args.vimgrep {
            return PrinterOpts {
                heading: false,
                show_path: true,
                line_number: true,
                only_matching: args.only_matching,
                count: false,
                files_with_matches: false,
                files_without_match: false,
                column: true,
                byte_offset: false,
                before_ctx: 0,
                after_ctx: 0,
                replace: clone_opt_string(&args.replace),
                json: false,
                unique: args.unique,
                show_scope: false,
                null: false,
                trim_width: None,
                vimgrep: true,
                max_columns: args.max_columns,
                context_separator: String::new(),
            };
        }
        let heading = args.show_heading(stdout_is_terminal);
        PrinterOpts {
            heading,
            show_path: multi && !heading && !args.no_filename,
            line_number: args.show_line_number(multi),
            only_matching: args.only_matching,
            count: args.count,
            files_with_matches: args.files_with_matches,
            files_without_match: args.files_without_match,
            column: args.column,
            byte_offset: args.byte_offset,
            before_ctx: args.before_ctx(),
            after_ctx: args.after_ctx(),
            replace: clone_opt_string(&args.replace),
            json: args.json,
            unique: args.unique,
            show_scope: args.show_scope,
            null: args.null,
            trim_width: if args.trim { Some(terminal_width) } else { None },
            vimgrep: false,
            max_columns: args.max_columns,
            context_separator: args.context_separator.clone(),
        }
    }
}

/// The color a piece of output is written in.
#[derive(PartialEq, Eq, Structural, Debug, Clone, Copy)]
pub enum Paint {
    Plain,
    /// paths
    Magenta,
    /// line numbers, columns, offsets, counts
    Green,
    /// line number of an enclosing scope
    Cyan,
    /// text of an enclosing scope
    CyanItalic,
    /// matched text
    RedBold,
}

/// Bytes to write in one color.
pub struct Piece {
    pub paint: Paint,
    pub bytes: Vec<u8>,
}

/// The pieces `ps` as values.
pub open spec fn piece_models(ps: Seq<Piece>) -> Seq<(Paint, Seq<u8>)> {
    Seq::new(ps.len(), |i: int| (ps[i].paint, ps[i].bytes@))
}

/// The UTF-8 bytes of `s`.
pub open spec fn utf8(s: Seq<char>) -> Seq<u8> {
    encode_utf8(s)
}

/// The decimal digits of `n` as bytes.
pub open spec fn number_bytes(n: nat) -> Seq<u8> {
    encode_utf8(decimal(n))
}

/// The bytes of the ellipsis character that marks a trimmed line.
pub open spec fn ellipsis() -> Seq<u8> {
    seq![0xE2u8, 0x80u8, 0xA6u8]
}

fn emit(out: &mut Vec<Piece>, paint: Paint, bytes: Vec<u8>)
    ensures
        piece_models(final(out)@) == piece_models(old(out)@).push((paint, bytes@)),
{
    let ghost before = piece_models(out@);
    out.push(Piece { paint, bytes });
    proof {
        assert(piece_models(out@) =~= before.push((paint, bytes@)));
    }
}

fn emit_slice(out: &mut Vec<Piece>, paint: Paint, bytes: &[u8])
    ensures
        piece_models(final(out)@) == piece_models(old(out)@).push((paint, bytes@)),
{
    emit(out, paint, vstd::slice::slice_to_vec(bytes));
}

fn emit_str(out: &mut Vec<Piece>, paint: Paint, s: &str)
    ensures
        piece_models(final(out)@) == piece_models(old(out)@).push((paint, utf8(s@))),
{
    emit_slice(out, paint, s.as_bytes());
}

fn emit_number(out: &mut Vec<Piece>, paint: Paint, n: usize)
    ensures
        piece_models(final(out)@) == piece_models(old(out)@).push((paint, number_bytes(n as nat))),
{
    let s = usize_to_string(n);
    emit_str(out, paint, s.as_str());
}

/// Whether `a` and `b` hold the same bytes.
pub fn bytes_equal(a: &[u8], b: &[u8]) -> (eq: bool)
    ensures
        eq == (a@ == b@),
{
    if a.len() != b.len() {
        return false;
    }
    let mut i: usize = 0;
    while i < a.len()
        invariant
            i <= a@.len(),
            a@.len() == b@.len(),
            forall|j: int| 0 <= j < i ==> a@[j] == b@[j],
        decreases a@.len() - i,
    {
        if a[i] != b[i] {
            return false;
        }
        i = i + 1;
    }
    assert(a@ =~= b@);
    true
}

/// The keys already printed under `--unique`. They are kept in a `Vec` and
/// looked up by a scan: vstd specifies `HashSet` only for keys with a hashing
/// model (integers, `bool`, boxes of them), which byte strings lack, so a
/// `HashSet<Vec<u8>>` would give its contents no meaning in the contracts.
pub struct UniqueSet {
    seen: Vec<Vec<u8>>,
}

impl UniqueSet {
    /// The keys seen so far.
    pub closed spec fn keys(&self) -> Set<Seq<u8>> {
        Set::new(|k: Seq<u8>| exists|i: int| 0 <= i < self.seen@.len() && self.seen@[i]@ == k)
    }

    /// An empty set.
    pub fn new() -> (s: UniqueSet)
        ensures
            s.keys() == Set::<Seq<u8>>::empty(),
    {
        let s = UniqueSet { seen: Vec::new() };
        assert(s.keys() =~= Set::<Seq<u8>>::empty());
        s
    }

    /// Records `key`; true when it was not seen before.
    pub fn check(&mut self, key: &[u8]) -> (fresh: bool)
        ensures
            fresh == !old(self).keys().contains(key@),
            final(self).keys() == old(self).keys().insert(key@),
    {
        let mut i: usize = 0;
        while i < self.seen.len()
            invariant
                i <= self.seen@.len(),
                forall|j: int| 0 <= j < i ==> self.seen@[j]@ != key@,
            decreases self.seen@.len() - i,
        {
            if bytes_equal(self.seen[i].as_slice(), key) {
                proof {
                    assert(self.keys().contains(key@));
                    assert(self.keys().insert(key@) =~= self.keys());
                }
                return false;
            }
            i = i + 1;
        }
        let ghost before = self.keys();
        let ghost old_seen = self.seen@;
        self.seen.push(vstd::slice::slice_to_vec(key));
        proof {
            assert forall|k: Seq<u8>| self.keys().contains(k) <==> before.insert(key@).contains(k) by {
                if before.contains(k) {
                    let w = choose|w: int| 0 <= w < old_seen.len() && old_seen[w]@ == k;
                    assert(self.seen@[w] == old_seen[w]);
                }
                if self.keys().contains(k) && k != key@ {
                    let w = choose|w: int| 0 <= w < self.seen@.len() && self.seen@[w]@ == k;
                    assert(w < old_seen.len());
                    assert(self.seen@[w] == old_seen[w]);
                }
                if k == key@ {
                    assert(self.seen@[old_seen.len() as int]@ == k);
                }
            }
            assert(self.keys() =~= before.insert(key@));
        }
        true
    }
}

/// The number of decimal digits of `n`.
pub open spec fn digit_count(n: nat) -> nat
    decreases n,
{
    if n < 10 { 1 } else { 1 + digit_count(n / 10) }
}

/// Counts the decimal digits of `n`.
pub fn count_digits(n: usize) -> (c: usize)
    ensures
        c == digit_count(n as nat),
        c <= 20,
{
    proof {
        lemma_digit_count_small(n as nat, 20);
    }
    if n == 0 {
        return 1;
    }
    let mut m = n;
    let mut count: usize = 0;
    proof {
        lemma_digit_count_at_most(n as nat);
    }
    while m > 0
        invariant
            m <= n,
            n >= 1,
            digit_count(n as nat) <= n,
            m > 0 ==> count + digit_count(m as nat) == digit_count(n as nat),
            m == 0 ==> count == digit_count(n as nat),
        decreases m,
    {
        if m < 10 {
            assert(digit_count(m as nat) == 1);
        } else {
            assert(digit_count(m as nat) == 1 + digit_count((m / 10) as nat));
        }
        count = count + 1;
        m = m / 10;
    }
    count
}

/// Ten to the power `k`.
pub open spec fn pow10(k: nat) -> nat
    decreases k,
{
    if k == 0 { 1 } else { 10 * pow10((k - 1) as nat) }
}

proof fn lemma_digit_count_small(n: nat, k: nat)
    requires
        k >= 1,
        n < pow10(k) || (k == 20 && n <= usize::MAX),
    ensures
        digit_count(n) <= k,
    decreases k,
{
    if k == 20 && n <= usize::MAX {
        assert(pow10(20) == 100000000000000000000nat) by {
            reveal_with_fuel(pow10, 21);
        }
        assert(usize::MAX < 100000000000000000000nat);
    }
    if n >= 10 {
        let p = pow10((k - 1) as nat);
        assert(pow10(k) == 10 * p);
        assert(n / 10 < p) by (nonlinear_arith)
            requires
                n < 10 * p,
                n >= 10;
        if k == 1 {
            assert(p == 1);
        }
        lemma_digit_count_small(n / 10, (k - 1) as nat);
    }
}

proof fn lemma_digit_count_at_most(n: nat)
    requires
        n >= 1,
    ensures
        digit_count(n) <= n,
    decreases n,
{
    if n >= 10 {
        lemma_digit_count_at_most(n / 10);
    }
}

/// The ranges that overlap `[offset, end)`, cut to it and shifted to start at `offset`.
pub open spec fn adjusted_ranges(ranges: Seq<(usize, usize)>, offset: int, end: int) -> Seq<(usize, usize)>
    decreases ranges.len(),
{
    if ranges.len() == 0 {
        Seq::empty()
    } else {
        let rest = adjusted_ranges(ranges.drop_last(), offset, end);
        let (ms, me) = ranges.last();
        if me <= offset || ms >= end {
            rest
        } else {
            let s = if ms > offset { ms as int } else { offset };
            let e = if me < end { me as int } else { end };
            rest.push(((s - offset) as usize, (e - offset) as usize))
        }
    }
}

/// Shifts the ranges that overlap `[offset, end)` so they are relative to `offset`,
/// dropping the others.
pub fn adjust_match_ranges(ranges: &[(usize, usize)], offset: usize, end: usize) -> (out: Vec<(usize, usize)>)
    requires
        offset <= end,
    ensures
        out@ == adjusted_ranges(ranges@, offset as int, end as int),
{
    let mut out: Vec<(usize, usize)> = Vec::new();
    let mut i: usize = 0;
    while i < ranges.len()
        invariant
            i <= ranges@.len(),
            offset <= end,
            out@ == adjusted_ranges(ranges@.take(i as int), offset as int, end as int),
        decreases ranges@.len() - i,
    {
        let (ms, me) = ranges[i];
        proof {
            assert(ranges@.take(i + 1).drop_last() =~= ranges@.take(i as int));
        }
        if !(me <= offset || ms >= end) {
            let s = if ms > offset { ms } else { offset };
            let e = if me < end { me } else { end };
            out.push((s - offset, e - offset));
        }
        i = i + 1;
    }
    assert(ranges@.take(i as int) =~= ranges@);
    out
}

/// Every range starts no later than it ends.
pub open spec fn ordered_ranges(rs: Seq<(usize, usize)>) -> bool {
    forall|j: int| 0 <= j < rs.len() ==> (#[trigger] rs[j]).0 <= rs[j].1
}

proof fn lemma_adjusted_ordered(rs: Seq<(usize, usize)>, offset: int, end: int)
    requires
        ordered_ranges(rs),
        0 <= offset <= end,
    ensures
        ordered_ranges(adjusted_ranges(rs, offset, end)),
    decreases rs.len(),
{
    if rs.len() > 0 {
        assert(ordered_ranges(rs.drop_last()));
        lemma_adjusted_ordered(rs.drop_last(), offset, end);
        assert(rs.last().0 <= rs.last().1);
    }
}

proof fn lemma_trimmed_ordered(len: int, rs: Seq<(usize, usize)>, max_width: int)
    requires
        ordered_ranges(rs),
        rs.len() > 0 ==> rs[0].0 <= len,
        len >= 0,
    ensures
        ordered_ranges(trimmed_line(len, rs, max_width).2),
{
    if !(max_width < 4 || len <= max_width) {
        let first_end = if rs.len() > 0 { rs[0].1 as int } else { 0 };
        if first_end < max_width - 1 {
            lemma_adjusted_ordered(rs, 0, max_width - 1);
        } else {
            let (st, en, r2, l, r) = trimmed_line(len, rs, max_width);
            lemma_adjusted_ordered(rs, st, en);
        }
    }
}

/// How a line is cut to `max_width` columns: the kept byte span, its ranges,
/// and whether text was dropped on the left and on the right.
pub open spec fn trimmed_line(len: int, ranges: Seq<(usize, usize)>, max_width: int) -> (int, int, Seq<(usize, usize)>, bool, bool) {
    if max_width < 4 || len <= max_width {
        (0, len, ranges, false, false)
    } else {
        let first_end = if ranges.len() > 0 { ranges[0].1 as int } else { 0 };
        if first_end < max_width - 1 {
            let end = max_width - 1;
            (0, end, adjusted_ranges(ranges, 0, end), false, true)
        } else {
            let first_start = if ranges.len() > 0 { ranges[0].0 as int } else { 0 };
            let context = max_width / 4;
            let start = if first_start > context { first_start - context } else { 0 };
            let has_left = start > 0;
            let usable = max_width - if has_left { 2int } else { 1int };
            let end = if start + usable < len { start + usable } else { len };
            (start, end, adjusted_ranges(ranges, start, end), has_left, end < len)
        }
    }
}

/// Cuts `line` to at most `max_width` columns, keeping the first match in view.
pub fn trim_line<'a>(line: &'a [u8], match_ranges: &[(usize, usize)], max_width: usize) -> (res: (&'a [u8], Vec<(usize, usize)>, bool, bool))
    requires
        match_ranges@.len() > 0 ==> match_ranges@[0].0 <= line@.len(),
    ensures
        ({
            let (start, end, ranges, left, right) = trimmed_line(line@.len() as int, match_ranges@, max_width as int);
            &&& 0 <= start <= end <= line@.len()
            &&& res.0@ == line@.subrange(start, end)
            &&& res.1@ == ranges
            &&& res.2 == left
            &&& res.3 == right
        }),
{
    if max_width < 4 || line.len() <= max_width {
        let mut copy: Vec<(usize, usize)> = Vec::new();
        let mut i: usize = 0;
        while i < match_ranges.len()
            invariant
                i <= match_ranges@.len(),
                copy@ == match_ranges@.take(i as int),
            decreases match_ranges@.len() - i,
        {
            copy.push(match_ranges[i]);
            i = i + 1;
            assert(copy@ =~= match_ranges@.take(i as int));
        }
        assert(match_ranges@.take(i as int) =~= match_ranges@);
        assert(line@.subrange(0, line@.len() as int) =~= line@);
        return (line, copy, false, false);
    }
    let first_match_end = if match_ranges.len() > 0 { match_ranges[0].1 } else { 0 };
    if first_match_end < max_width - 1 {
        let end = max_width - 1;
        let trimmed = &line[0..end];
        let adjusted = adjust_match_ranges(match_ranges, 0, end);
        (trimmed, adjusted, false, true)
    } else {
        let first_match_start = if match_ranges.len() > 0 { match_ranges[0].0 } else { 0 };
        let context = max_width / 4;
        let start = if first_match_start > context { first_match_start - context } else { 0 };
        let has_left = start > 0;
        let usable = max_width - if has_left { 2 } else { 1 };
        let end = if usable < line.len() - start { start + usable } else { line.len() };
        let trimmed = &line[start..end];
        let adjusted = adjust_match_ranges(match_ranges, start, end);
        (trimmed, adjusted, has_left, end < line.len())
    }
}

/// The columns a prefix takes: each shown field and its separator.
pub open spec fn prefix_width_of(path: Option<Seq<char>>, opts: &PrinterOpts, line_number: usize, line_start: usize, ranges: Seq<(usize, usize)>) -> int {
    (if opts.show_path && path is Some { (utf8(path->0).len() as usize) as int + 1 } else { 0int })
    + (if opts.line_number { digit_count((line_number + 1) as nat) as int + 1 } else { 0int })
    + (if opts.column && ranges.len() > 0 { digit_count((ranges[0].0 + 1) as nat) as int + 1 } else { 0int })
    + (if opts.byte_offset { digit_count(line_start as nat) as int + 1 } else { 0int })
}

/// The smaller of `w` and the largest `usize`.
pub open spec fn saturated(w: int) -> usize {
    if w <= usize::MAX { w as usize } else { usize::MAX }
}

/// The columns that the prefix of `lm` takes (at most the largest `usize`).
pub fn prefix_width(path: Option<&str>, opts: &PrinterOpts, lm: &LineMatch) -> (w: usize)
    requires
        lm.line_number < usize::MAX,
        lm.match_ranges@.len() > 0 ==> lm.match_ranges@[0].0 < usize::MAX,
    ensures
        w == saturated(prefix_width_of(opt_chars(path), opts, lm.line_number, lm.line_start, lm.match_ranges@)),
{
    let mut w: usize = 0;
    let ghost mut total: int = 0;
    if opts.show_path {
        if let Some(p) = path {
            w = p.len().saturating_add(1);
            proof {
                total = (utf8(p@).len() as usize) as int + 1;
                assert(p.spec_bytes() == utf8(p@));
                assert(w == saturated(total));
            }
        }
    }
    if opts.line_number {
        let d = count_digits(lm.line_number + 1) + 1;
        w = w.saturating_add(d);
        proof {
            total = total + d;
            assert(w == saturated(total));
        }
    }
    if opts.column && lm.match_ranges.len() > 0 {
        let d = count_digits(lm.match_ranges[0].0 + 1) + 1;
        w = w.saturating_add(d);
        proof {
            total = total + d;
            assert(w == saturated(total));
        }
    }
    if opts.byte_offset {
        let d = count_digits(lm.line_start) + 1;
        w = w.saturating_add(d);
        proof {
            total = total + d;
            assert(w == saturated(total));
        }
    }
    proof {
        assert(total == prefix_width_of(opt_chars(path), opts, lm.line_number, lm.line_start, lm.match_ranges@));
    }
    w
}

/// The prefix of a line: path, line number, column and byte offset, as the
/// options ask, each followed by `:` (or `-` on a context line).
pub open spec fn prefix_pieces(path: Option<Seq<char>>, opts: &PrinterOpts, line_number: usize, line_start: usize, ranges: Seq<(usize, usize)>, is_context: bool) -> Seq<(Paint, Seq<u8>)> {
    let sep = if is_context { utf8("-"@) } else { utf8(":"@) };
    (if opts.show_path && path is Some { seq![(Paint::Magenta, utf8(path->0)), (Paint::Plain, sep)] } else { Seq::empty() })
    + (if opts.line_number { seq![(Paint::Green, number_bytes((line_number + 1) as nat)), (Paint::Plain, sep)] } else { Seq::empty() })
    + (if opts.column && ranges.len() > 0 { seq![(Paint::Green, number_bytes((ranges[0].0 + 1) as nat)), (Paint::Plain, sep)] } else { Seq::empty() })
    + (if opts.byte_offset { seq![(Paint::Green, number_bytes(line_start as nat)), (Paint::Plain, sep)] } else { Seq::empty() })
}

fn print_prefix(out: &mut Vec<Piece>, path: Option<&str>, opts: &PrinterOpts, line_number: usize, line_start: usize, ranges: &[(usize, usize)], is_context: bool)
    requires
        line_number < usize::MAX,
        ranges@.len() > 0 ==> ranges@[0].0 < usize::MAX,
    ensures
        piece_models(final(out)@) == piece_models(old(out)@) + prefix_pieces(opt_chars(path), opts, line_number, line_start, ranges@, is_context),
{
    let ghost start = piece_models(out@);
    let sep = if is_context { "-" } else { ":" };
    let ghost mut acc: Seq<(Paint, Seq<u8>)> = Seq::empty();
    if opts.show_path {
        if let Some(p) = path {
            emit_str(out, Paint::Magenta, p);
            emit_str(out, Paint::Plain, sep);
        }
    }
    proof {
        acc = if opts.show_path && path is Some { seq![(Paint::Magenta, utf8(path->0@)), (Paint::Plain, utf8(sep@))] } else { Seq::empty() };
        assert(piece_models(out@) =~= start + acc);
    }
    if opts.line_number {
        emit_number(out, Paint::Green, line_number + 1);
        emit_str(out, Paint::Plain, sep);
    }
    proof {
        acc = acc + if opts.line_number { seq![(Paint::Green, number_bytes((line_number + 1) as nat)), (Paint::Plain, utf8(sep@))] } else { Seq::empty() };
        assert(piece_models(out@) =~= start + acc);
    }
    if opts.column && ranges.len() > 0 {
        emit_number(out, Paint::Green, ranges[0].0 + 1);
        emit_str(out, Paint::Plain, sep);
    }
    proof {
        acc = acc + if opts.column && ranges@.len() > 0 { seq![(Paint::Green, number_bytes((ranges@[0].0 + 1) as nat)), (Paint::Plain, utf8(sep@))] } else { Seq::empty() };
        assert(piece_models(out@) =~= start + acc);
    }
    if opts.byte_offset {
        emit_number(out, Paint::Green, line_start);
        emit_str(out, Paint::Plain, sep);
    }
    proof {
        acc = acc + if opts.byte_offset { seq![(Paint::Green, number_bytes(line_start as nat)), (Paint::Plain, utf8(sep@))] } else { Seq::empty() };
        assert(piece_models(out@) =~= start + acc);
        reveal_strlit("-");
        reveal_strlit(":");
        assert(acc =~= prefix_pieces(opt_chars(path), opts, line_number, line_start, ranges@, is_context));
    }
}

/// The number of spaces and tabs at the start of `line`.
pub open spec fn indent_of(line: Seq<u8>) -> int
    decreases line.len(),
{
    if line.len() == 0 || !(line[0] == 32u8 || line[0] == 9u8) {
        0
    } else {
        1 + indent_of(line.drop_first())
    }
}

/// `line` holds only spaces, tabs and carriage returns.
pub open spec fn is_blank(line: Seq<u8>) -> bool {
    forall|i: int| 0 <= i < line.len() ==> (#[trigger] line[i] == 32u8 || line[i] == 9u8 || line[i] == 13u8)
}

/// `t` starts with `m`.
pub open spec fn begins_with(t: Seq<char>, m: Seq<char>) -> bool {
    t.len() >= m.len() && t.take(m.len() as int) == m
}

/// `t` opens a function, class, type, module or similar block in one of the common languages.
pub open spec fn is_scope_marker(t: Seq<char>) -> bool {
    begins_with(t, "fn "@)
        || begins_with(t, "async fn "@)
        || begins_with(t, "pub fn "@)
        || begins_with(t, "pub async fn "@)
        || begins_with(t, "pub(crate) fn "@)
        || begins_with(t, "pub(super) fn "@)
        || begins_with(t, "pub(crate) async fn "@)
        || begins_with(t, "unsafe fn "@)
        || begins_with(t, "pub unsafe fn "@)
        || begins_with(t, "def "@)
        || begins_with(t, "async def "@)
        || begins_with(t, "class "@)
        || begins_with(t, "pub struct "@)
        || begins_with(t, "struct "@)
        || begins_with(t, "pub enum "@)
        || begins_with(t, "enum "@)
        || begins_with(t, "impl "@)
        || begins_with(t, "impl<"@)
        || begins_with(t, "pub trait "@)
        || begins_with(t, "trait "@)
        || begins_with(t, "func "@)
        || begins_with(t, "function "@)
        || begins_with(t, "method "@)
        || begins_with(t, "pub mod "@)
        || begins_with(t, "mod "@)
        || begins_with(t, "interface "@)
        || begins_with(t, "pub type "@)
        || begins_with(t, "type "@)
        || begins_with(t, "export function "@)
        || begins_with(t, "export async function "@)
        || begins_with(t, "export default function "@)
        || begins_with(t, "export class "@)
        || begins_with(t, "export interface "@)
        || begins_with(t, "export type "@)
}

/// The trimmed text of `line` when it is valid UTF-8 (empty otherwise).
pub open spec fn scope_text(line: Seq<u8>) -> Seq<char> {
    trimmed(if valid_utf8(line) { decode_utf8(line) } else { Seq::empty() })
}

/// Among lines `0..k`, the nearest one above that is not blank, is indented
/// less than `indent`, and opens a scope; with its trimmed text.
pub open spec fn scope_above(buf: Seq<u8>, starts: Seq<usize>, indent: int, k: int) -> Option<(int, Seq<char>)>
    decreases k,
{
    if k <= 0 {
        None
    } else {
        let line = line_text(buf, starts, k - 1);
        if !is_blank(line) && indent_of(line) < indent && is_scope_marker(scope_text(line)) {
            Some((k - 1, scope_text(line)))
        } else {
            scope_above(buf, starts, indent, k - 1)
        }
    }
}

proof fn lemma_scope_above_below(buf: Seq<u8>, starts: Seq<usize>, indent: int, k: int)
    ensures
        scope_above(buf, starts, indent, k) matches Some((i, _)) ==> 0 <= i < k,
    decreases k,
{
    if k > 0 {
        lemma_scope_above_below(buf, starts, indent, k - 1);
    }
}

/// The scope that encloses line `match_line`.
pub open spec fn enclosing_scope(buf: Seq<u8>, starts: Seq<usize>, match_line: int) -> Option<(int, Seq<char>)> {
    scope_above(buf, starts, indent_of(line_text(buf, starts, match_line)), match_line)
}

/// Calls `std::str::from_utf8`: the text of `bytes` when they are valid UTF-8.
#[verifier::external_body]
fn utf8_text(bytes: &[u8]) -> (text: Option<&str>)
    ensures
        text is Some <==> valid_utf8(bytes@),
        text matches Some(t) ==> t@ == decode_utf8(bytes@),
{
    std::str::from_utf8(bytes).ok()
}

fn indent(line: &[u8]) -> (n: usize)
    ensures
        n == indent_of(line@),
{
    let mut i: usize = 0;
    assert(line@.skip(0) =~= line@);
    while i < line.len() && (line[i] == 32u8 || line[i] == 9u8)
        invariant
            i <= line@.len(),
            indent_of(line@) == i + indent_of(line@.skip(i as int)),
        decreases line@.len() - i,
    {
        assert(line@.skip(i as int).drop_first() =~= line@.skip(i + 1));
        i = i + 1;
    }
    assert(line@.skip(i as int).len() == 0 || !(line@.skip(i as int)[0] == 32u8 || line@.skip(i as int)[0] == 9u8));
    i
}

fn blank(line: &[u8]) -> (b: bool)
    ensures
        b == is_blank(line@),
{
    let mut i: usize = 0;
    while i < line.len()
        invariant
            i <= line@.len(),
            forall|j: int| 0 <= j < i ==> (#[trigger] line@[j] == 32u8 || line@[j] == 9u8 || line@[j] == 13u8),
        decreases line@.len() - i,
    {
        let b = line[i];
        if !(b == 32u8 || b == 9u8 || b == 13u8) {
            return false;
        }
        i = i + 1;
    }
    true
}

fn starts_with_str(t: &Vec<char>, m: &str) -> (b: bool)
    ensures
        b == begins_with(t@, m@),
{
    let mc = crate::text::string_chars(m);
    if t.len() < mc.len() {
        return false;
    }
    let mut i: usize = 0;
    while i < mc.len()
        invariant
            i <= mc@.len() <= t@.len(),
            mc@ == m@,
            forall|j: int| 0 <= j < i ==> t@[j] == mc@[j],
        decreases mc@.len() - i,
    {
        if t[i] != mc[i] {
            return false;
        }
        i = i + 1;
    }
    assert(t@.take(mc@.len() as int) =~= m@);
    true
}

/// Whether `line` opens a scope.
pub fn looks_like_scope_marker(line: &str) -> (b: bool)
    ensures
        b == is_scope_marker(line@),
{
    let chars = crate::text::string_chars(line);
    starts_with_str(&chars, "fn ")
        || starts_with_str(&chars, "async fn ")
        || starts_with_str(&chars, "pub fn ")
        || starts_with_str(&chars, "pub async fn ")
        || starts_with_str(&chars, "pub(crate) fn ")
        || starts_with_str(&chars, "pub(super) fn ")
        || starts_with_str(&chars, "pub(crate) async fn ")
        || starts_with_str(&chars, "unsafe fn ")
        || starts_with_str(&chars, "pub unsafe fn ")
        || starts_with_str(&chars, "def ")
        || starts_with_str(&chars, "async def ")
        || starts_with_str(&chars, "class ")
        || starts_with_str(&chars, "pub struct ")
        || starts_with_str(&chars, "struct ")
        || starts_with_str(&chars, "pub enum ")
        || starts_with_str(&chars, "enum ")
        || starts_with_str(&chars, "impl ")
        || starts_with_str(&chars, "impl<")
        || starts_with_str(&chars, "pub trait ")
        || starts_with_str(&chars, "trait ")
        || starts_with_str(&chars, "func ")
        || starts_with_str(&chars, "function ")
        || starts_with_str(&chars, "method ")
        || starts_with_str(&chars, "pub mod ")
        || starts_with_str(&chars, "mod ")
        || starts_with_str(&chars, "interface ")
        || starts_with_str(&chars, "pub type ")
        || starts_with_str(&chars, "type ")
        || starts_with_str(&chars, "export function ")
        || starts_with_str(&chars, "export async function ")
        || starts_with_str(&chars, "export default function ")
        || starts_with_str(&chars, "export class ")
        || starts_with_str(&chars, "export interface ")
        || starts_with_str(&chars, "export type ")
}

/// The number of spaces and tabs that line `line_idx` of `buf` starts with.
pub fn get_indent(buf: &[u8], line_starts_table: &[usize], line_idx: usize) -> (n: usize)
    requires
        valid_line_table(line_starts_table@, buf@.len() as int),
        line_idx < line_starts_table@.len(),
    ensures
        n == indent_of(line_text(buf@, line_starts_table@, line_idx as int)),
{
    indent(get_line(buf, line_starts_table, line_idx))
}

/// Finds the line that opens the scope enclosing `match_line`: the nearest
/// line above it that is not blank, is indented less, and looks like a
/// function, class, type or module header; with its trimmed text.
pub fn find_enclosing_scope(buf: &[u8], line_starts_table: &[usize], match_line: usize) -> (res: Option<(usize, String)>)
    requires
        valid_line_table(line_starts_table@, buf@.len() as int),
        match_line < line_starts_table@.len(),
    ensures
        match (res, enclosing_scope(buf@, line_starts_table@, match_line as int)) {
            (Some((k, t)), Some((sk, st))) => k == sk && t@ == st,
            (None, None) => true,
            _ => false,
        },
{
    let match_indent = get_indent(buf, line_starts_table, match_line);
    let mut k: usize = match_line;
    while k > 0
        invariant
            k <= match_line < line_starts_table@.len(),
            valid_line_table(line_starts_table@, buf@.len() as int),
            match_indent == indent_of(line_text(buf@, line_starts_table@, match_line as int)),
            enclosing_scope(buf@, line_starts_table@, match_line as int)
                == scope_above(buf@, line_starts_table@, match_indent as int, k as int),
        decreases k,
    {
        let idx = k - 1;
        let line = get_line(buf, line_starts_table, idx);
        let ghost lt = line_text(buf@, line_starts_table@, idx as int);
        if !blank(line) && indent(line) < match_indent {
            let text = match utf8_text(line) {
                Some(t) => trim(t),
                None => trim(""),
            };
            proof {
                reveal_strlit("");
                assert(text@ == scope_text(lt));
            }
            if looks_like_scope_marker(text.as_str()) {
                return Some((idx, text));
            }
            assert(!is_scope_marker(scope_text(lt)));
        }
        k = k - 1;
    }
    None
}

/// The text std's `String::from_utf8_lossy` makes of `bytes`.
pub uninterp spec fn utf8_lossy(bytes: Seq<u8>) -> Seq<char>;

/// Calls `String::from_utf8_lossy`: the text of `bytes`, with each invalid
/// sequence replaced by U+FFFD; valid UTF-8 is decoded as it is. Beyond that
/// only the name of the result is claimed.
#[verifier::external_body]
fn lossy_text(bytes: &[u8]) -> (s: String)
    ensures
        s@ == utf8_lossy(bytes@),
        valid_utf8(bytes@) ==> s@ == decode_utf8(bytes@),
{
    String::from_utf8_lossy(bytes).into_owned()
}

/// `a` minus `b`, or 0.
pub open spec fn sat_sub(a: int, b: int) -> int {
    if a > b { a - b } else { 0 }
}

/// The smaller of `a` and `b`.
pub open spec fn min_of(a: int, b: int) -> int {
    if a < b { a } else { b }
}

/// The pieces of `line` with ranges `0..n` of `ranges` highlighted (or
/// replaced by `repl`), and the offset up to which `line` has been written.
pub open spec fn highlight_upto(line: Seq<u8>, ranges: Seq<(usize, usize)>, repl: Option<Seq<char>>, n: int) -> (Seq<(Paint, Seq<u8>)>, int)
    decreases n,
{
    if n <= 0 {
        (Seq::empty(), 0)
    } else {
        let (ps, pos) = highlight_upto(line, ranges, repl, n - 1);
        let ms = min_of(ranges[n - 1].0 as int, line.len() as int);
        let me = min_of(ranges[n - 1].1 as int, line.len() as int);
        let ps1 = if ms > pos { ps.push((Paint::Plain, line.subrange(pos, ms))) } else { ps };
        let mid = match repl {
            Some(r) => utf8(r),
            None => line.subrange(ms, me),
        };
        (ps1.push((Paint::RedBold, mid)), me)
    }
}

/// `line` with its ranges highlighted, or replaced by `repl`.
pub open spec fn highlighted(line: Seq<u8>, ranges: Seq<(usize, usize)>, repl: Option<Seq<char>>) -> Seq<(Paint, Seq<u8>)> {
    if ranges.len() == 0 {
        seq![(Paint::Plain, line)]
    } else {
        let (ps, pos) = highlight_upto(line, ranges, repl, ranges.len() as int);
        if pos < line.len() {
            ps.push((Paint::Plain, line.skip(pos)))
        } else {
            ps
        }
    }
}

/// The replacement text, if any.
pub open spec fn replacement(opts: &PrinterOpts) -> Option<Seq<char>> {
    match opts.replace {
        Some(r) => Some(r@),
        None => None,
    }
}

/// The vimgrep lines for `lm`: one `path:line:column:text` line per range.
pub open spec fn vimgrep_upto(line: Seq<u8>, lm: LineModel, path: Option<Seq<char>>, n: int) -> Seq<(Paint, Seq<u8>)>
    decreases n,
{
    if n <= 0 {
        Seq::empty()
    } else {
        vimgrep_upto(line, lm, path, n - 1)
            + (if path is Some { seq![(Paint::Plain, utf8(path->0 + ":"@))] } else { Seq::empty() })
            + seq![(Paint::Plain, utf8(decimal((lm.line_number + 1) as nat) + ":"@ + decimal((lm.ranges[n - 1].0 + 1) as nat) + ":"@
                + utf8_lossy(line) + "\n"@))]
    }
}

/// How a reported line is printed: as vimgrep lines, or as its prefix and its
/// text, cut to the terminal width when asked, with the ranges highlighted.
pub open spec fn match_line_pieces(buf: Seq<u8>, starts: Seq<usize>, lm: LineModel, path: Option<Seq<char>>, opts: &PrinterOpts) -> Seq<(Paint, Seq<u8>)> {
    let line = line_text(buf, starts, lm.line_number as int);
    if opts.vimgrep && lm.ranges.len() > 0 {
        vimgrep_upto(line, lm, path, lm.ranges.len() as int)
    } else {
        prefix_pieces(path, opts, lm.line_number, lm.line_start, lm.ranges, false)
            + line_body_pieces(line, lm, path, opts)
            + seq![(Paint::Plain, utf8("\n"@))]
    }
}

/// What the printer needs of a reported line: it is a line of the buffer, and
/// its ranges are ordered pairs that leave room for a 1-based column; with
/// `-o` the ranges lie within the line and each match's byte offset fits in
/// a `usize`, and when trimming the first range starts within it.
pub open spec fn printable_line(buf: Seq<u8>, lm: LineModel, opts: &PrinterOpts) -> bool {
    let starts = line_starts(buf);
    &&& lm.line_number < starts.len()
    &&& forall|j: int| 0 <= j < lm.ranges.len() ==> (#[trigger] lm.ranges[j]).0 <= lm.ranges[j].1 && lm.ranges[j].0 < usize::MAX
    &&& (opts.only_matching && !opts.json) ==> forall|j: int| 0 <= j < lm.ranges.len()
        ==> (#[trigger] lm.ranges[j]).1 <= line_text(buf, starts, lm.line_number as int).len()
    &&& (opts.only_matching && !opts.json) ==> lm.line_start + line_text(buf, starts, lm.line_number as int).len() <= usize::MAX
    &&& (opts.trim_width is Some && !opts.json && lm.ranges.len() > 0)
        ==> lm.ranges[0].0 <= line_text(buf, starts, lm.line_number as int).len()
}

fn highlight_line(out: &mut Vec<Piece>, line: &[u8], ranges: &[(usize, usize)], repl: &Option<String>)
    requires
        forall|j: int| 0 <= j < ranges@.len() ==> (#[trigger] ranges@[j]).0 <= ranges@[j].1,
    ensures
        piece_models(final(out)@) == piece_models(old(out)@) + highlighted(line@, ranges@, match repl { Some(r) => Some(r@), None => None }),
{
    let ghost start = piece_models(out@);
    let ghost rv = match repl { Some(r) => Some(r@), None => None };
    if ranges.len() == 0 {
        emit_slice(out, Paint::Plain, line);
        assert(piece_models(out@) =~= start + highlighted(line@, ranges@, rv));
        return;
    }
    let mut pos: usize = 0;
    let mut i: usize = 0;
    while i < ranges.len()
        invariant
            i <= ranges@.len(),
            forall|j: int| 0 <= j < ranges@.len() ==> (#[trigger] ranges@[j]).0 <= ranges@[j].1,
            rv == match repl { Some(r) => Some(r@), None => None::<Seq<char>> },
            pos <= line@.len(),
            highlight_upto(line@, ranges@, rv, i as int).1 == pos,
            piece_models(out@) =~= start + highlight_upto(line@, ranges@, rv, i as int).0,
        decreases ranges@.len() - i,
    {
        let (ms0, me0) = ranges[i];
        let ms = if ms0 < line.len() { ms0 } else { line.len() };
        let me = if me0 < line.len() { me0 } else { line.len() };
        assert(ranges@[i as int].0 <= ranges@[i as int].1);
        if ms > pos {
            emit_slice(out, Paint::Plain, &line[pos..ms]);
        }
        match repl {
            Some(r) => emit_str(out, Paint::RedBold, r.as_str()),
            None => emit_slice(out, Paint::RedBold, &line[ms..me]),
        }
        pos = me;
        i = i + 1;
    }
    if pos < line.len() {
        emit_slice(out, Paint::Plain, &line[pos..line.len()]);
        assert(line@.subrange(pos as int, line@.len() as int) =~= line@.skip(pos as int));
    }
    assert(piece_models(out@) =~= start + highlighted(line@, ranges@, rv));
}

fn emit_ellipsis(out: &mut Vec<Piece>)
    ensures
        piece_models(final(out)@) == piece_models(old(out)@).push((Paint::Plain, ellipsis())),
{
    let mut v: Vec<u8> = Vec::new();
    v.push(0xE2u8);
    v.push(0x80u8);
    v.push(0xA6u8);
    assert(v@ =~= ellipsis());
    emit(out, Paint::Plain, v);
}

fn print_vimgrep(out: &mut Vec<Piece>, line: &[u8], lm: &LineMatch, path: Option<&str>)
    requires
        lm.line_number < usize::MAX,
        forall|j: int| 0 <= j < lm.match_ranges@.len() ==> (#[trigger] lm.match_ranges@[j]).0 < usize::MAX,
    ensures
        piece_models(final(out)@) == piece_models(old(out)@) + vimgrep_upto(line@, lm.deep_view(), opt_chars(path), lm.match_ranges@.len() as int),
{
    let ghost start = piece_models(out@);
    let text = lossy_text(line);
    let mut i: usize = 0;
    while i < lm.match_ranges.len()
        invariant
            i <= lm.match_ranges@.len(),
            lm.line_number < usize::MAX,
            forall|j: int| 0 <= j < lm.match_ranges@.len() ==> (#[trigger] lm.match_ranges@[j]).0 < usize::MAX,
            text@ == utf8_lossy(line@),
            piece_models(out@) =~= start + vimgrep_upto(line@, lm.deep_view(), opt_chars(path), i as int),
        decreases lm.match_ranges@.len() - i,
    {
        let ms = lm.match_ranges[i].0;
        assert(lm.match_ranges@[i as int].0 < usize::MAX);
        if let Some(p) = path {
            let head = crate::args::concat2(p, ":");
            emit_str(out, Paint::Plain, head.as_str());
        }
        let mut row = usize_to_string(lm.line_number + 1);
        row.append(":");
        let col = usize_to_string(ms + 1);
        row.append(col.as_str());
        row.append(":");
        row.append(text.as_str());
        row.append("\n");
        emit_str(out, Paint::Plain, row.as_str());
        i = i + 1;
    }
}

/// The text of a reported line as printed after its prefix: cut to the
/// terminal width when asked, with ellipses, and its ranges highlighted.
pub open spec fn line_body_pieces(line: Seq<u8>, lm: LineModel, path: Option<Seq<char>>, opts: &PrinterOpts) -> Seq<(Paint, Seq<u8>)> {
    let (start, end, ranges, left, right) = match opts.trim_width {
        Some(tw) => trimmed_line(
            line.len() as int,
            lm.ranges,
            sat_sub(tw as int, saturated(prefix_width_of(path, opts, lm.line_number, lm.line_start, lm.ranges)) as int),
        ),
        None => (0, line.len() as int, lm.ranges, false, false),
    };
    (if left { seq![(Paint::Plain, ellipsis())] } else { Seq::empty() })
        + highlighted(line.subrange(start, end), ranges, replacement(opts))
        + (if right { seq![(Paint::Plain, ellipsis())] } else { Seq::empty() })
}

fn print_line_body(out: &mut Vec<Piece>, raw_line: &[u8], lm: &LineMatch, path: Option<&str>, opts: &PrinterOpts)
    requires
        lm.line_number < usize::MAX,
        ordered_ranges(lm.match_ranges@),
        lm.match_ranges@.len() > 0 ==> lm.match_ranges@[0].0 < usize::MAX,
        opts.trim_width is Some && lm.match_ranges@.len() > 0 ==> lm.match_ranges@[0].0 <= raw_line@.len(),
    ensures
        piece_models(final(out)@) == piece_models(old(out)@) + line_body_pieces(raw_line@, lm.deep_view(), opt_chars(path), opts),
{
    let ghost start = piece_models(out@);
    let (line, ranges, left_ell, right_ell) = match opts.trim_width {
        Some(tw) => {
            let pw = prefix_width(path, opts, lm);
            let avail = tw.saturating_sub(pw);
            let r = trim_line(raw_line, lm.match_ranges.as_slice(), avail);
            proof {
                lemma_trimmed_ordered(raw_line@.len() as int, lm.match_ranges@, avail as int);
            }
            r
        },
        None => {
            let copy = crate::search::copy_ranges(&lm.match_ranges);
            assert(raw_line@.subrange(0, raw_line@.len() as int) =~= raw_line@);
            (raw_line, copy, false, false)
        },
    };
    assert(ordered_ranges(ranges@));
    let ghost after_trim = piece_models(out@);
    if left_ell {
        emit_ellipsis(out);
    }
    let ghost after_left = piece_models(out@);
    highlight_line(out, line, ranges.as_slice(), &opts.replace);
    let ghost after_mid = piece_models(out@);
    if right_ell {
        emit_ellipsis(out);
    }
    proof {
        let l = if left_ell { seq![(Paint::Plain, ellipsis())] } else { Seq::<(Paint, Seq<u8>)>::empty() };
        let r = if right_ell { seq![(Paint::Plain, ellipsis())] } else { Seq::<(Paint, Seq<u8>)>::empty() };
        assert(after_left =~= start + l);
        assert(piece_models(out@) =~= after_mid + r);
        assert(piece_models(out@) =~= start + (l + highlighted(line@, ranges@, replacement(opts)) + r));
    }
}

/// Prints one reported line.
fn print_match_line(out: &mut Vec<Piece>, buf: &[u8], line_starts_table: &[usize], lm: &LineMatch, path: Option<&str>, opts: &PrinterOpts)
    requires
        line_starts_table@ == line_starts(buf@),
        printable_line(buf@, lm.deep_view(), opts),
        !opts.json,
    ensures
        piece_models(final(out)@) == piece_models(old(out)@)
            + match_line_pieces(buf@, line_starts_table@, lm.deep_view(), opt_chars(path), opts),
{
    let _ = buf.len();
    proof {
        crate::lines::lemma_line_starts(buf@);
        crate::lines::lemma_line_count_bound(buf@);
        assert(lm.deep_view().ranges == lm.match_ranges@);
        assert forall|j: int| 0 <= j < lm.match_ranges@.len() implies (#[trigger] lm.match_ranges@[j]).0 < usize::MAX
            && lm.match_ranges@[j].0 <= lm.match_ranges@[j].1 by {
            assert(lm.deep_view().ranges[j] == lm.match_ranges@[j]);
        }
    }
    let ghost start = piece_models(out@);
    let raw_line = get_line(buf, line_starts_table, lm.line_number);
    if opts.vimgrep && lm.match_ranges.len() > 0 {
        print_vimgrep(out, raw_line, lm, path);
        return;
    }
    print_prefix(out, path, opts, lm.line_number, lm.line_start, lm.match_ranges.as_slice(), false);
    let ghost after_prefix = piece_models(out@);
    print_line_body(out, raw_line, lm, path, opts);
    let ghost after_body = piece_models(out@);
    emit_str(out, Paint::Plain, "\n");
    proof {
        assert(piece_models(out@) =~= start + prefix_pieces(opt_chars(path), opts, lm.line_number, lm.line_start, lm.match_ranges@, false)
            + line_body_pieces(raw_line@, lm.deep_view(), opt_chars(path), opts) + seq![(Paint::Plain, utf8("\n"@))]);
    }
}

/// How a context line is printed: its prefix (with `-`) and its text, cut with
/// an ellipsis when it does not fit the terminal width.
pub open spec fn context_line_pieces(buf: Seq<u8>, starts: Seq<usize>, idx: int, path: Option<Seq<char>>, opts: &PrinterOpts) -> Seq<(Paint, Seq<u8>)> {
    let line = line_text(buf, starts, idx);
    let body = match opts.trim_width {
        Some(tw) => {
            let avail = sat_sub(tw as int, saturated(prefix_width_of(path, opts, idx as usize, starts[idx], Seq::empty())) as int);
            if line.len() > avail && avail > 1 {
                seq![(Paint::Plain, line.take(avail - 1)), (Paint::Plain, ellipsis())]
            } else {
                seq![(Paint::Plain, line)]
            }
        },
        None => seq![(Paint::Plain, line)],
    };
    prefix_pieces(path, opts, idx as usize, starts[idx], Seq::empty(), true) + body + seq![(Paint::Plain, utf8("\n"@))]
}

fn print_context_line(out: &mut Vec<Piece>, buf: &[u8], line_starts_table: &[usize], line_idx: usize, path: Option<&str>, opts: &PrinterOpts)
    requires
        line_starts_table@ == line_starts(buf@),
        line_idx < line_starts_table@.len(),
    ensures
        piece_models(final(out)@) == piece_models(old(out)@)
            + context_line_pieces(buf@, line_starts_table@, line_idx as int, opt_chars(path), opts),
{
    let _ = buf.len();
    proof {
        crate::lines::lemma_line_starts(buf@);
    }
    let ghost start = piece_models(out@);
    let dummy = LineMatch { line_number: line_idx, line_start: line_starts_table[line_idx], match_ranges: Vec::new() };
    print_prefix(out, path, opts, line_idx, line_starts_table[line_idx], dummy.match_ranges.as_slice(), true);
    let ghost after_prefix = piece_models(out@);
    let line = get_line(buf, line_starts_table, line_idx);
    match opts.trim_width {
        Some(tw) => {
            let pw = prefix_width(path, opts, &dummy);
            let avail = tw.saturating_sub(pw);
            if line.len() > avail && avail > 1 {
                emit_slice(out, Paint::Plain, &line[0..avail - 1]);
                emit_ellipsis(out);
            } else {
                emit_slice(out, Paint::Plain, line);
            }
        },
        None => {
            emit_slice(out, Paint::Plain, line);
        },
    }
    emit_str(out, Paint::Plain, "\n");
    proof {
        assert(dummy.match_ranges@ =~= Seq::<(usize, usize)>::empty());
        assert(piece_models(out@) =~= start + context_line_pieces(buf@, line_starts_table@, line_idx as int, opt_chars(path), opts));
    }
}

/// With `-o`: one line per range of `lm`, its prefix (with the column and
/// byte offset of that match) and the matched text (or the replacement).
pub open spec fn only_matching_upto(line: Seq<u8>, lm: LineModel, path: Option<Seq<char>>, opts: &PrinterOpts, n: int) -> Seq<(Paint, Seq<u8>)>
    decreases n,
{
    if n <= 0 {
        Seq::empty()
    } else {
        let (ms, me) = lm.ranges[n - 1];
        only_matching_upto(line, lm, path, opts, n - 1)
            + prefix_pieces(path, opts, lm.line_number, (lm.line_start + ms) as usize, seq![(ms, me)], false)
            + seq![(Paint::RedBold, match replacement(opts) { Some(r) => utf8(r), None => line.subrange(ms as int, me as int) }),
                (Paint::Plain, utf8("\n"@))]
    }
}

fn print_only_matching(out: &mut Vec<Piece>, line: &[u8], lm: &LineMatch, path: Option<&str>, opts: &PrinterOpts)
    requires
        lm.line_number < usize::MAX,
        forall|j: int| 0 <= j < lm.match_ranges@.len() ==> (#[trigger] lm.match_ranges@[j]).0 <= lm.match_ranges@[j].1 <= line@.len(),
        forall|j: int| 0 <= j < lm.match_ranges@.len() ==> (#[trigger] lm.match_ranges@[j]).0 < usize::MAX,
        lm.line_start + line@.len() <= usize::MAX,
    ensures
        piece_models(final(out)@) == piece_models(old(out)@)
            + only_matching_upto(line@, lm.deep_view(), opt_chars(path), opts, lm.match_ranges@.len() as int),
{
    let ghost start = piece_models(out@);
    let mut i: usize = 0;
    while i < lm.match_ranges.len()
        invariant
            i <= lm.match_ranges@.len(),
            lm.line_number < usize::MAX,
            forall|j: int| 0 <= j < lm.match_ranges@.len() ==> (#[trigger] lm.match_ranges@[j]).0 <= lm.match_ranges@[j].1 <= line@.len(),
            forall|j: int| 0 <= j < lm.match_ranges@.len() ==> (#[trigger] lm.match_ranges@[j]).0 < usize::MAX,
            lm.line_start + line@.len() <= usize::MAX,
            piece_models(out@) =~= start + only_matching_upto(line@, lm.deep_view(), opt_chars(path), opts, i as int),
        decreases lm.match_ranges@.len() - i,
    {
        let (ms, me) = lm.match_ranges[i];
        assert(lm.match_ranges@[i as int].0 <= lm.match_ranges@[i as int].1 <= line@.len());
        let ghost before = piece_models(out@);
        let mut this_match: Vec<(usize, usize)> = Vec::new();
        this_match.push((ms, me));
        proof {
            assert(this_match@ =~= seq![(ms, me)]);
            assert(lm.match_ranges@[i as int].0 < usize::MAX);
        }
        print_prefix(out, path, opts, lm.line_number, lm.line_start + ms, this_match.as_slice(), false);
        match &opts.replace {
            Some(r) => emit_str(out, Paint::RedBold, r.as_str()),
            None => emit_slice(out, Paint::RedBold, &line[ms..me]),
        }
        emit_str(out, Paint::Plain, "\n");
        i = i + 1;
    }
}

/// The header of an enclosing scope: path, the scope's line number, and its text.
pub open spec fn scope_header_pieces(path: Option<Seq<char>>, opts: &PrinterOpts, scope_line: int, text: Seq<char>) -> Seq<(Paint, Seq<u8>)> {
    (if opts.show_path && path is Some { seq![(Paint::Magenta, utf8(path->0)), (Paint::Plain, utf8(":"@))] } else { Seq::empty() })
        + seq![(Paint::Cyan, utf8(decimal((scope_line + 1) as nat) + ":"@)), (Paint::CyanItalic, utf8("  "@ + text + "\n"@))]
}

fn print_scope_header(out: &mut Vec<Piece>, path: Option<&str>, opts: &PrinterOpts, scope_line: usize, text: &String)
    requires
        scope_line < usize::MAX,
    ensures
        piece_models(final(out)@) == piece_models(old(out)@) + scope_header_pieces(opt_chars(path), opts, scope_line as int, text@),
{
    let ghost start = piece_models(out@);
    if opts.show_path {
        if let Some(p) = path {
            emit_str(out, Paint::Magenta, p);
            emit_str(out, Paint::Plain, ":");
        }
    }
    let ghost mid = piece_models(out@);
    let mut num = usize_to_string(scope_line + 1);
    num.append(":");
    emit_str(out, Paint::Cyan, num.as_str());
    let mut t = String::from_str("  ");
    t.append(text.as_str());
    t.append("\n");
    emit_str(out, Paint::CyanItalic, t.as_str());
    proof {
        assert(piece_models(out@) =~= start + scope_header_pieces(opt_chars(path), opts, scope_line as int, text@));
    }
}

/// Every reported line can be printed.
pub open spec fn printable(buf: Seq<u8>, lms: Seq<LineModel>, opts: &PrinterOpts) -> bool {
    forall|i: int| 0 <= i < lms.len() ==> printable_line(buf, #[trigger] lms[i], opts)
}

/// What the text printer has written and remembers between reported lines.
pub struct TextState {
    pub out: Seq<(Paint, Seq<u8>)>,
    pub last_printed: Option<usize>,
    pub last_scope: Option<usize>,
    pub seen: Set<Seq<u8>>,
}

/// The text that `--unique` compares: the first match with `-o`, else the line.
pub open spec fn unique_key(line: Seq<u8>, ranges: Seq<(usize, usize)>, opts: &PrinterOpts) -> Seq<u8> {
    if opts.only_matching && ranges.len() > 0 {
        line.subrange(min_of(ranges[0].0 as int, line.len() as int), min_of(ranges[0].1 as int, line.len() as int))
    } else {
        line
    }
}

/// Context lines `from..upto` before a reported line: each one after the last
/// printed line is printed.
pub open spec fn before_context(buf: Seq<u8>, starts: Seq<usize>, path: Option<Seq<char>>, opts: &PrinterOpts, out: Seq<(Paint, Seq<u8>)>, lp: Option<usize>, from: int, upto: int) -> (Seq<(Paint, Seq<u8>)>, Option<usize>)
    decreases upto - from,
{
    if upto <= from {
        (out, lp)
    } else {
        let (o, l) = before_context(buf, starts, path, opts, out, lp, from, upto - 1);
        let idx = upto - 1;
        if l is None || idx > l->0 {
            (o + context_line_pieces(buf, starts, idx, path, opts), Some(idx as usize))
        } else {
            (o, l)
        }
    }
}

/// Context lines `from..upto` after a reported line: each one that is not
/// itself reported is printed.
pub open spec fn after_context(buf: Seq<u8>, starts: Seq<usize>, all: Seq<LineModel>, path: Option<Seq<char>>, opts: &PrinterOpts, out: Seq<(Paint, Seq<u8>)>, lp: Option<usize>, from: int, upto: int) -> (Seq<(Paint, Seq<u8>)>, Option<usize>)
    decreases upto - from,
{
    if upto <= from {
        (out, lp)
    } else {
        let (o, l) = after_context(buf, starts, all, path, opts, out, lp, from, upto - 1);
        let idx = upto - 1;
        (if !reports_line(all, idx) { o + context_line_pieces(buf, starts, idx, path, opts) } else { o }, Some(idx as usize))
    }
}

/// The last line of context after line `ln`.
pub open spec fn context_end(ln: int, after: int, total: int) -> int {
    min_of(if ln + after <= usize::MAX { ln + after } else { usize::MAX as int }, total - 1)
}

/// The scope header printed before line `ln` when it differs from the last
/// one, and the scope remembered afterwards.
pub open spec fn scope_part(buf: Seq<u8>, starts: Seq<usize>, path: Option<Seq<char>>, opts: &PrinterOpts, out: Seq<(Paint, Seq<u8>)>, last_scope: Option<usize>, ln: int) -> (Seq<(Paint, Seq<u8>)>, Option<usize>) {
    if opts.show_scope {
        match enclosing_scope(buf, starts, ln) {
            Some((sl, text)) => if last_scope != Some(sl as usize) {
                (out + scope_header_pieces(path, opts, sl, text), Some(sl as usize))
            } else {
                (out, last_scope)
            },
            None => (out, last_scope),
        }
    } else {
        (out, last_scope)
    }
}

/// What comes before line `ln` with context on: a separator when there is a
/// gap since the last printed line, then the context lines before it.
pub open spec fn leading_part(buf: Seq<u8>, starts: Seq<usize>, path: Option<Seq<char>>, opts: &PrinterOpts, out: Seq<(Paint, Seq<u8>)>, lp: Option<usize>, ln: int) -> (Seq<(Paint, Seq<u8>)>, Option<usize>) {
    let ctx_start = sat_sub(ln, opts.before_ctx as int);
    let sep_out = if lp is Some && ctx_start > lp->0 + 1 && opts.context_separator@.len() > 0 {
        out + seq![(Paint::Plain, utf8(opts.context_separator@ + "\n"@))]
    } else {
        out
    };
    before_context(buf, starts, path, opts, sep_out, lp, ctx_start, ln)
}

/// The printed form of the reported line itself: its matches with `-o`, else the line.
pub open spec fn line_part(buf: Seq<u8>, starts: Seq<usize>, path: Option<Seq<char>>, opts: &PrinterOpts, lm: LineModel) -> Seq<(Paint, Seq<u8>)> {
    if opts.only_matching {
        only_matching_upto(line_text(buf, starts, lm.line_number as int), lm, path, opts, lm.ranges.len() as int)
    } else {
        match_line_pieces(buf, starts, lm, path, opts)
    }
}

/// The printer's state after printing reported line `lm` (one of `all`): its
/// scope header when that changed, the context before it (after a separator
/// when there is a gap), the line itself, and the context after it.
pub open spec fn text_emit(buf: Seq<u8>, starts: Seq<usize>, all: Seq<LineModel>, path: Option<Seq<char>>, opts: &PrinterOpts, st: TextState, lm: LineModel) -> TextState {
    let ln = lm.line_number as int;
    let (out1, ls1) = scope_part(buf, starts, path, opts, st.out, st.last_scope, ln);
    let has_ctx = opts.before_ctx > 0 || opts.after_ctx > 0;
    let (out2, lp2) = if has_ctx { leading_part(buf, starts, path, opts, out1, st.last_printed, ln) } else { (out1, st.last_printed) };
    let out3 = out2 + line_part(buf, starts, path, opts, lm);
    let ctx_end = context_end(ln, opts.after_ctx as int, starts.len() as int);
    let (out4, lp4) = if has_ctx {
        after_context(buf, starts, all, path, opts, out3, Some(lm.line_number), ln + 1, ctx_end + 1)
    } else {
        (out3, Some(lm.line_number))
    };
    TextState { out: out4, last_printed: lp4, last_scope: ls1, seen: st.seen }
}

/// The printer's state after reported line `lm` (one of `all`): unchanged
/// when `--unique` saw its key, only the key recorded when it is wider than
/// `--max-columns`, and otherwise printed as `text_emit` says.
pub open spec fn text_step(buf: Seq<u8>, starts: Seq<usize>, all: Seq<LineModel>, path: Option<Seq<char>>, opts: &PrinterOpts, st: TextState, lm: LineModel) -> TextState {
    let line = line_text(buf, starts, lm.line_number as int);
    let key = unique_key(line, lm.ranges, opts);
    if opts.unique && st.seen.contains(key) {
        st
    } else {
        let seen = if opts.unique { st.seen.insert(key) } else { st.seen };
        let st1 = TextState { out: st.out, last_printed: st.last_printed, last_scope: st.last_scope, seen };
        if opts.max_columns matches Some(mc) && line.len() > mc {
            st1
        } else {
            text_emit(buf, starts, all, path, opts, st1, lm)
        }
    }
}

/// The printer's state after the first `n` reported lines.
pub open spec fn text_upto(buf: Seq<u8>, all: Seq<LineModel>, path: Option<Seq<char>>, opts: &PrinterOpts, seen0: Set<Seq<u8>>, n: int) -> TextState
    decreases n,
{
    if n <= 0 {
        TextState { out: Seq::empty(), last_printed: None, last_scope: None, seen: seen0 }
    } else {
        text_step(buf, line_starts(buf), all, path, opts, text_upto(buf, all, path, opts, seen0, n - 1), all[n - 1])
    }
}

/// How many reported lines carry ranges.
pub open spec fn lines_with_ranges(all: Seq<LineModel>) -> nat
    decreases all.len(),
{
    if all.len() == 0 {
        0
    } else {
        lines_with_ranges(all.drop_last()) + if all.last().ranges.len() > 0 { 1nat } else { 0nat }
    }
}

/// The heading over a file's results: its path and how many lines matched.
pub open spec fn heading_pieces(all: Seq<LineModel>, path: Option<Seq<char>>, opts: &PrinterOpts) -> Seq<(Paint, Seq<u8>)> {
    if opts.heading && path is Some {
        seq![
            (Paint::Magenta, utf8(path->0)),
            (Paint::Green, utf8(" ("@ + decimal(lines_with_ranges(all)) + ")"@)),
            (Paint::Plain, utf8("\n"@)),
        ]
    } else {
        Seq::empty()
    }
}

/// The text output for the reported lines `all` of one file, and the keys
/// `--unique` has seen afterwards.
pub open spec fn text_output(buf: Seq<u8>, all: Seq<LineModel>, path: Option<Seq<char>>, opts: &PrinterOpts, seen0: Set<Seq<u8>>) -> (Seq<(Paint, Seq<u8>)>, Set<Seq<u8>>) {
    if all.len() == 0 {
        (Seq::empty(), seen0)
    } else {
        let st = text_upto(buf, all, path, opts, seen0, all.len() as int);
        (heading_pieces(all, path, opts) + st.out, st.seen)
    }
}

fn print_before_context(out: &mut Vec<Piece>, buf: &[u8], line_starts_table: &[usize], path: Option<&str>, opts: &PrinterOpts, last_printed: &mut Option<usize>, from: usize, upto: usize)
    requires
        line_starts_table@ == line_starts(buf@),
        from <= upto < line_starts_table@.len(),
    ensures
        (piece_models(final(out)@), *final(last_printed)) == before_context(buf@, line_starts_table@, opt_chars(path), opts, piece_models(old(out)@), *old(last_printed), from as int, upto as int),
{
    let ghost out0 = piece_models(out@);
    let ghost lp0 = *last_printed;
    let mut idx = from;
    while idx < upto
        invariant
            from <= idx <= upto < line_starts_table@.len(),
            line_starts_table@ == line_starts(buf@),
            (piece_models(out@), *last_printed) == before_context(buf@, line_starts_table@, opt_chars(path), opts, out0, lp0, from as int, idx as int),
        decreases upto - idx,
    {
        let print = match *last_printed {
            None => true,
            Some(l) => idx > l,
        };
        if print {
            print_context_line(out, buf, line_starts_table, idx, path, opts);
            *last_printed = Some(idx);
        }
        idx = idx + 1;
    }
}

fn print_after_context(out: &mut Vec<Piece>, buf: &[u8], line_starts_table: &[usize], all: &[LineMatch], match_lines: &std::collections::HashSet<usize>, path: Option<&str>, opts: &PrinterOpts, last_printed: &mut Option<usize>, from: usize, upto: usize)
    requires
        line_starts_table@ == line_starts(buf@),
        upto <= line_starts_table@.len(),
        forall|k: usize| match_lines@.contains(k) <==> reports_line(models(all@), k as int),
    ensures
        (piece_models(final(out)@), *final(last_printed)) == after_context(buf@, line_starts_table@, models(all@), opt_chars(path), opts, piece_models(old(out)@), *old(last_printed), from as int, upto as int),
{
    broadcast use vstd::std_specs::hash::group_hash_axioms;
    let ghost out0 = piece_models(out@);
    let ghost lp0 = *last_printed;
    if from >= upto {
        return;
    }
    let mut idx = from;
    while idx < upto
        invariant
            from <= idx <= upto <= line_starts_table@.len(),
            line_starts_table@ == line_starts(buf@),
            forall|k: usize| match_lines@.contains(k) <==> reports_line(models(all@), k as int),
            (piece_models(out@), *last_printed) == after_context(buf@, line_starts_table@, models(all@), opt_chars(path), opts, out0, lp0, from as int, idx as int),
        decreases upto - idx,
    {
        if !match_lines.contains(&idx) {
            print_context_line(out, buf, line_starts_table, idx, path, opts);
        }
        *last_printed = Some(idx);
        idx = idx + 1;
    }
}

fn print_scope_if_new(out: &mut Vec<Piece>, buf: &[u8], line_starts_table: &[usize], line_number: usize, path: Option<&str>, opts: &PrinterOpts, last_scope: &mut Option<usize>)
    requires
        line_starts_table@ == line_starts(buf@),
        line_number < line_starts_table@.len(),
    ensures
        ({
            let (o, l) = match enclosing_scope(buf@, line_starts_table@, line_number as int) {
                Some((sl, text)) => if *old(last_scope) != Some(sl as usize) {
                    (piece_models(old(out)@) + scope_header_pieces(opt_chars(path), opts, sl, text), Some(sl as usize))
                } else {
                    (piece_models(old(out)@), *old(last_scope))
                },
                None => (piece_models(old(out)@), *old(last_scope)),
            };
            piece_models(final(out)@) == o && *final(last_scope) == l
        }),
{
    let _ = buf.len();
    proof {
        crate::lines::lemma_line_starts(buf@);
        lemma_scope_above_below(buf@, line_starts_table@, indent_of(line_text(buf@, line_starts_table@, line_number as int)), line_number as int);
    }
    match find_enclosing_scope(buf, line_starts_table, line_number) {
        Some((scope_line, scope_text)) => {
            let fresh = match *last_scope {
                Some(l) => l != scope_line,
                None => true,
            };
            if fresh {
                *last_scope = Some(scope_line);
                print_scope_header(out, path, opts, scope_line, &scope_text);
            }
        },
        None => {},
    }
}

fn print_leading_part(out: &mut Vec<Piece>, buf: &[u8], line_starts_table: &[usize], path: Option<&str>, opts: &PrinterOpts, last_printed: &mut Option<usize>, ln: usize)
    requires
        line_starts_table@ == line_starts(buf@),
        ln < line_starts_table@.len(),
        *old(last_printed) matches Some(l) ==> l < line_starts_table@.len(),
    ensures
        (piece_models(final(out)@), *final(last_printed)) == leading_part(buf@, line_starts_table@, opt_chars(path), opts, piece_models(old(out)@), *old(last_printed), ln as int),
        *final(last_printed) matches Some(l) ==> l < line_starts_table@.len(),
{
    let _ = line_starts_table.len();
    let ctx_start = ln.saturating_sub(opts.before_ctx);
    if let Some(last) = *last_printed {
        if ctx_start > last + 1 && !opts.context_separator.as_str().is_empty() {
            let sep = crate::args::concat2(opts.context_separator.as_str(), "\n");
            emit_str(out, Paint::Plain, sep.as_str());
        }
    }
    let ghost o0 = piece_models(out@);
    proof {
        let lp = *old(last_printed);
        let cs = sat_sub(ln as int, opts.before_ctx as int);
        assert(cs == ctx_start as int);
        assert(o0 == if lp is Some && cs > lp->0 + 1 && opts.context_separator@.len() > 0 {
            piece_models(old(out)@) + seq![(Paint::Plain, utf8(opts.context_separator@ + "\n"@))]
        } else {
            piece_models(old(out)@)
        });
    }
    print_before_context(out, buf, line_starts_table, path, opts, last_printed, ctx_start, ln);
    proof {
        lemma_before_context_bound(buf@, line_starts_table@, opt_chars(path), opts, o0, *old(last_printed), ctx_start as int, ln as int);
    }
}

proof fn lemma_before_context_bound(buf: Seq<u8>, starts: Seq<usize>, path: Option<Seq<char>>, opts: &PrinterOpts, out: Seq<(Paint, Seq<u8>)>, lp: Option<usize>, from: int, upto: int)
    requires
        0 <= from,
        upto <= usize::MAX,
    ensures
        before_context(buf, starts, path, opts, out, lp, from, upto).1 matches Some(l) ==> l < upto || lp == Some(l),
    decreases upto - from,
{
    if upto > from {
        lemma_before_context_bound(buf, starts, path, opts, out, lp, from, upto - 1);
        let (o, l) = before_context(buf, starts, path, opts, out, lp, from, upto - 1);
        let idx = upto - 1;
        if l is None || idx > l->0 {
            assert((idx as usize) as int == idx);
            assert(before_context(buf, starts, path, opts, out, lp, from, upto).1 == Some(idx as usize));
        } else {
            assert(before_context(buf, starts, path, opts, out, lp, from, upto).1 == l);
        }
    }
}

fn print_line_part(out: &mut Vec<Piece>, buf: &[u8], line_starts_table: &[usize], lm: &LineMatch, path: Option<&str>, opts: &PrinterOpts)
    requires
        line_starts_table@ == line_starts(buf@),
        printable_line(buf@, lm.deep_view(), opts),
        !opts.json,
    ensures
        piece_models(final(out)@) == piece_models(old(out)@) + line_part(buf@, line_starts_table@, opt_chars(path), opts, lm.deep_view()),
{
    let _ = buf.len();
    proof {
        crate::lines::lemma_line_starts(buf@);
        crate::lines::lemma_line_count_bound(buf@);
        assert(lm.deep_view().ranges == lm.match_ranges@);
    }
    if opts.only_matching {
        let line = get_line(buf, line_starts_table, lm.line_number);
        proof {
            assert forall|j: int| 0 <= j < lm.match_ranges@.len() implies (#[trigger] lm.match_ranges@[j]).0 <= lm.match_ranges@[j].1 <= line@.len() by {
                assert(lm.deep_view().ranges[j] == lm.match_ranges@[j]);
            }
            if lm.match_ranges@.len() > 0 {
                assert(lm.deep_view().ranges[0] == lm.match_ranges@[0]);
            }
        }
        print_only_matching(out, line, lm, path, opts);
    } else {
        print_match_line(out, buf, line_starts_table, lm, path, opts);
    }
}

fn print_reported_line(
    out: &mut Vec<Piece>,
    buf: &[u8],
    line_starts_table: &[usize],
    all: &[LineMatch],
    match_lines: &std::collections::HashSet<usize>,
    lm: &LineMatch,
    path: Option<&str>,
    opts: &PrinterOpts,
    last_printed: &mut Option<usize>,
    last_scope: &mut Option<usize>,
)
    requires
        line_starts_table@ == line_starts(buf@),
        printable_line(buf@, lm.deep_view(), opts),
        !opts.json,
        forall|k: usize| match_lines@.contains(k) <==> reports_line(models(all@), k as int),
        *old(last_printed) matches Some(l) ==> l < line_starts_table@.len(),
    ensures
        ({
            let st = text_emit(buf@, line_starts_table@, models(all@), opt_chars(path), opts,
                TextState { out: piece_models(old(out)@), last_printed: *old(last_printed), last_scope: *old(last_scope), seen: Set::empty() },
                lm.deep_view());
            &&& piece_models(final(out)@) == st.out
            &&& *final(last_printed) == st.last_printed
            &&& *final(last_scope) == st.last_scope
        }),
        *final(last_printed) matches Some(l) ==> l < line_starts_table@.len(),
{
    let _ = buf.len();
    proof {
        crate::lines::lemma_line_starts(buf@);
    }
    if opts.show_scope {
        print_scope_if_new(out, buf, line_starts_table, lm.line_number, path, opts, last_scope);
    }
    let ln = lm.line_number;
    let total_lines = line_starts_table.len();
    let has_context = opts.before_ctx > 0 || opts.after_ctx > 0;
    if has_context {
        print_leading_part(out, buf, line_starts_table, path, opts, last_printed, ln);
    }
    print_line_part(out, buf, line_starts_table, lm, path, opts);
    *last_printed = Some(ln);
    if has_context {
        let reach = ln.saturating_add(opts.after_ctx);
        let ctx_end = if reach < total_lines - 1 { reach } else { total_lines - 1 };
        assert(ctx_end as int == context_end(ln as int, opts.after_ctx as int, line_starts_table@.len() as int));
        print_after_context(out, buf, line_starts_table, all, match_lines, path, opts, last_printed, ln + 1, ctx_end + 1);
    }
}

fn print_text_step(
    out: &mut Vec<Piece>,
    buf: &[u8],
    line_starts_table: &[usize],
    all: &[LineMatch],
    match_lines: &std::collections::HashSet<usize>,
    lm: &LineMatch,
    path: Option<&str>,
    opts: &PrinterOpts,
    unique_set: &mut UniqueSet,
    last_printed: &mut Option<usize>,
    last_scope: &mut Option<usize>,
)
    requires
        line_starts_table@ == line_starts(buf@),
        printable_line(buf@, lm.deep_view(), opts),
        !opts.json,
        forall|k: usize| match_lines@.contains(k) <==> reports_line(models(all@), k as int),
        *old(last_printed) matches Some(l) ==> l < line_starts_table@.len(),
    ensures
        ({
            let st = text_step(buf@, line_starts_table@, models(all@), opt_chars(path), opts,
                TextState { out: piece_models(old(out)@), last_printed: *old(last_printed), last_scope: *old(last_scope), seen: old(unique_set).keys() },
                lm.deep_view());
            &&& piece_models(final(out)@) == st.out
            &&& *final(last_printed) == st.last_printed
            &&& *final(last_scope) == st.last_scope
            &&& final(unique_set).keys() == st.seen
        }),
        *final(last_printed) matches Some(l) ==> l < line_starts_table@.len(),
{
    let _ = buf.len();
    proof {
        crate::lines::lemma_line_starts(buf@);
        assert(lm.deep_view().ranges == lm.match_ranges@);
        if lm.match_ranges@.len() > 0 {
            assert(lm.deep_view().ranges[0] == lm.match_ranges@[0]);
        }
    }
    let line = get_line(buf, line_starts_table, lm.line_number);
    if opts.unique {
        let key: &[u8] = if opts.only_matching && lm.match_ranges.len() > 0 {
            let (ms, me) = lm.match_ranges[0];
            let a = if ms < line.len() { ms } else { line.len() };
            let b = if me < line.len() { me } else { line.len() };
            &line[a..b]
        } else {
            line
        };
        if !unique_set.check(key) {
            return;
        }
    }
    if let Some(max_col) = opts.max_columns {
        if line.len() > max_col {
            return;
        }
    }
    print_reported_line(out, buf, line_starts_table, all, match_lines, lm, path, opts, last_printed, last_scope);
}

fn count_lines_with_ranges(matches: &[LineMatch]) -> (n: usize)
    ensures
        n == lines_with_ranges(models(matches@)),
{
    let ghost all = models(matches@);
    let mut n: usize = 0;
    let mut i: usize = 0;
    while i < matches.len()
        invariant
            i <= matches@.len(),
            all == models(matches@),
            n == lines_with_ranges(all.take(i as int)),
            n <= i,
        decreases matches@.len() - i,
    {
        proof {
            assert(all.take(i as int + 1).drop_last() =~= all.take(i as int));
            assert(all[i as int].ranges == matches@[i as int].match_ranges@);
        }
        if matches[i].match_ranges.len() > 0 {
            n = n + 1;
        }
        i = i + 1;
    }
    proof {
        assert(all.take(matches@.len() as int) =~= all);
    }
    n
}

fn print_heading(out: &mut Vec<Piece>, matches: &[LineMatch], path: Option<&str>, opts: &PrinterOpts)
    ensures
        piece_models(final(out)@) == piece_models(old(out)@) + heading_pieces(models(matches@), opt_chars(path), opts),
{
    let ghost start = piece_models(out@);
    if opts.heading {
        if let Some(p) = path {
            let n = count_lines_with_ranges(matches);
            emit_str(out, Paint::Magenta, p);
            let count = crate::args::concat3(" (", usize_to_string(n).as_str(), ")");
            emit_str(out, Paint::Green, count.as_str());
            emit_str(out, Paint::Plain, "\n");
        }
    }
    proof {
        assert(piece_models(out@) =~= start + heading_pieces(models(matches@), opt_chars(path), opts));
    }
}

/// Prints the reported lines `matches` of `buf` as text: the heading, then
/// each line with its context and scope, skipping keys `--unique` has seen.
fn write_text_matches(out: &mut Vec<Piece>, buf: &[u8], matches: &[LineMatch], path: Option<&str>, opts: &PrinterOpts, unique_set: &mut UniqueSet)
    requires
        printable(buf@, models(matches@), opts),
        !opts.json,
    ensures
        ({
            let (pieces, seen) = text_output(buf@, models(matches@), opt_chars(path), opts, old(unique_set).keys());
            &&& piece_models(final(out)@) == piece_models(old(out)@) + pieces
            &&& final(unique_set).keys() == seen
        }),
{
    if matches.len() == 0 {
        proof {
            assert(piece_models(out@) =~= piece_models(out@) + Seq::<(Paint, Seq<u8>)>::empty());
        }
        return;
    }
    let ghost all = models(matches@);
    let ghost seen0 = unique_set.keys();
    let ghost start = piece_models(out@);
    let mut head: Vec<Piece> = Vec::new();
    print_heading(&mut head, matches, path, opts);
    let line_starts_table = crate::lines::build_line_index(buf);
    let match_lines = crate::search::reported_line_set(matches);
    let mut body: Vec<Piece> = Vec::new();
    let mut last_printed: Option<usize> = None;
    let mut last_scope: Option<usize> = None;
    let mut i: usize = 0;
    while i < matches.len()
        invariant
            i <= matches@.len(),
            all == models(matches@),
            line_starts_table@ == line_starts(buf@),
            printable(buf@, all, opts),
            !opts.json,
            forall|k: usize| match_lines@.contains(k) <==> reports_line(all, k as int),
            ({
                let st = text_upto(buf@, all, opt_chars(path), opts, seen0, i as int);
                &&& piece_models(body@) == st.out
                &&& last_printed == st.last_printed
                &&& last_scope == st.last_scope
                &&& unique_set.keys() == st.seen
            }),
            last_printed matches Some(l) ==> l < line_starts_table@.len(),
        decreases matches@.len() - i,
    {
        proof {
            assert(all[i as int] == matches@[i as int].deep_view());
            assert(printable_line(buf@, all[i as int], opts));
        }
        print_text_step(&mut body, buf, line_starts_table.as_slice(), matches, &match_lines, &matches[i], path, opts, unique_set, &mut last_printed, &mut last_scope);
        i = i + 1;
    }
    let ghost h = piece_models(head@);
    let ghost b = piece_models(body@);
    out.append(&mut head);
    out.append(&mut body);
    proof {
        assert(piece_models(out@) =~= start + (h + b));
    }
}

/// One match of a reported line in a `--json` record.
pub struct JsonSubmatch {
    pub match_text: String,
    pub start: usize,
    pub end: usize,
}

/// A reported line as a `--json` record.
pub struct JsonMatchLine {
    pub path: Option<String>,
    pub line_number: usize,
    pub column: Option<usize>,
    pub byte_offset: Option<usize>,
    pub lines: String,
    pub submatches: Vec<JsonSubmatch>,
    pub scope: Option<String>,
}

/// A record of `--json` output: a file name, a count, or a reported line.
pub enum JsonRecord {
    /// `{"type": "file", "path": ..}`
    File(String),
    /// `{"type": "count", "path": .., "count": ..}`
    Count(Option<String>, usize),
    Match(JsonMatchLine),
}

/// The value of a `JsonSubmatch`.
pub struct SubmatchModel {
    pub text: Seq<char>,
    pub start: usize,
    pub end: usize,
}

/// The value of a `JsonMatchLine`.
pub struct MatchLineModel {
    pub path: Option<Seq<char>>,
    pub line_number: usize,
    pub column: Option<usize>,
    pub byte_offset: Option<usize>,
    pub lines: Seq<char>,
    pub submatches: Seq<SubmatchModel>,
    pub scope: Option<Seq<char>>,
}

/// The value of a `JsonRecord`.
pub enum RecordModel {
    File(Seq<char>),
    Count(Option<Seq<char>>, usize),
    Match(MatchLineModel),
}

impl DeepView for JsonSubmatch {
    type V = SubmatchModel;

    open spec fn deep_view(&self) -> SubmatchModel {
        SubmatchModel { text: self.match_text@, start: self.start, end: self.end }
    }
}

impl DeepView for JsonMatchLine {
    type V = MatchLineModel;

    open spec fn deep_view(&self) -> MatchLineModel {
        MatchLineModel {
            path: self.path.deep_view(),
            line_number: self.line_number,
            column: self.column,
            byte_offset: self.byte_offset,
            lines: self.lines@,
            submatches: self.submatches.deep_view(),
            scope: self.scope.deep_view(),
        }
    }
}

impl DeepView for JsonRecord {
    type V = RecordModel;

    open spec fn deep_view(&self) -> RecordModel {
        match self {
            JsonRecord::File(path) => RecordModel::File(path@),
            JsonRecord::Count(path, count) => RecordModel::Count(path.deep_view(), *count),
            JsonRecord::Match(m) => RecordModel::Match(m.deep_view()),
        }
    }
}

/// Range `r` of `line` as a submatch: clamped to the line, with its text.
pub open spec fn submatch_model(line: Seq<u8>, r: (usize, usize)) -> SubmatchModel {
    let ms = min_of(r.0 as int, line.len() as int);
    let me = min_of(r.1 as int, line.len() as int);
    SubmatchModel { text: utf8_lossy(line.subrange(ms, me)), start: ms as usize, end: me as usize }
}

/// The `--json` record of reported line `lm`: 1-based line number, the column
/// of its first match, its offset when asked, its text, its submatches, and
/// its enclosing scope when asked.
pub open spec fn match_record(buf: Seq<u8>, starts: Seq<usize>, lm: LineModel, path: Option<Seq<char>>, opts: &PrinterOpts) -> MatchLineModel {
    let line = line_text(buf, starts, lm.line_number as int);
    MatchLineModel {
        path,
        line_number: (lm.line_number + 1) as usize,
        column: if lm.ranges.len() > 0 { Some((lm.ranges[0].0 + 1) as usize) } else { None },
        byte_offset: if opts.byte_offset { Some(lm.line_start) } else { None },
        lines: utf8_lossy(line),
        submatches: lm.ranges.map_values(|r: (usize, usize)| submatch_model(line, r)),
        scope: if opts.show_scope {
            match enclosing_scope(buf, starts, lm.line_number as int) {
                Some((_, t)) => Some(t),
                None => None,
            }
        } else {
            None
        },
    }
}

/// The records and `--unique` keys after the first `n` reported lines.
pub open spec fn json_upto(buf: Seq<u8>, all: Seq<LineModel>, path: Option<Seq<char>>, opts: &PrinterOpts, seen0: Set<Seq<u8>>, n: int) -> (Seq<RecordModel>, Set<Seq<u8>>)
    decreases n,
{
    if n <= 0 {
        (Seq::empty(), seen0)
    } else {
        let (recs, seen) = json_upto(buf, all, path, opts, seen0, n - 1);
        let lm = all[n - 1];
        let starts = line_starts(buf);
        let key = unique_key(line_text(buf, starts, lm.line_number as int), lm.ranges, opts);
        if opts.unique && seen.contains(key) {
            (recs, seen)
        } else {
            (recs.push(RecordModel::Match(match_record(buf, starts, lm, path, opts))),
                if opts.unique { seen.insert(key) } else { seen })
        }
    }
}

/// The `--json` output for the reported lines `all` of one file.
pub open spec fn json_output(buf: Seq<u8>, all: Seq<LineModel>, path: Option<Seq<char>>, opts: &PrinterOpts, seen0: Set<Seq<u8>>) -> (Seq<RecordModel>, Set<Seq<u8>>) {
    if opts.files_without_match {
        (if all.len() == 0 && path is Some { seq![RecordModel::File(path->0)] } else { Seq::empty() }, seen0)
    } else if opts.files_with_matches {
        (if all.len() > 0 && path is Some { seq![RecordModel::File(path->0)] } else { Seq::empty() }, seen0)
    } else if opts.count {
        (if all.len() > 0 { seq![RecordModel::Count(path, all.len() as usize)] } else { Seq::empty() }, seen0)
    } else {
        json_upto(buf, all, path, opts, seen0, all.len() as int)
    }
}

fn opt_string(s: Option<&str>) -> (r: Option<String>)
    ensures
        r.deep_view() == opt_chars(s),
{
    match s {
        Some(t) => Some(t.to_string()),
        None => None,
    }
}

fn submatches_of(line: &[u8], ranges: &[(usize, usize)]) -> (subs: Vec<JsonSubmatch>)
    requires
        forall|j: int| 0 <= j < ranges@.len() ==> (#[trigger] ranges@[j]).0 <= ranges@[j].1,
    ensures
        subs.deep_view() == ranges@.map_values(|r: (usize, usize)| submatch_model(line@, r)),
{
    let mut subs: Vec<JsonSubmatch> = Vec::new();
    let mut i: usize = 0;
    while i < ranges.len()
        invariant
            i <= ranges@.len(),
            subs@.len() == i,
            forall|j: int| 0 <= j < ranges@.len() ==> (#[trigger] ranges@[j]).0 <= ranges@[j].1,
            subs.deep_view() =~= ranges@.take(i as int).map_values(|r: (usize, usize)| submatch_model(line@, r)),
        decreases ranges@.len() - i,
    {
        let (ms, me) = ranges[i];
        let a = if ms < line.len() { ms } else { line.len() };
        let b = if me < line.len() { me } else { line.len() };
        assert(ranges@[i as int].0 <= ranges@[i as int].1);
        let text = lossy_text(&line[a..b]);
        let ghost before = subs.deep_view();
        let ghost old_subs = subs@;
        subs.push(JsonSubmatch { match_text: text, start: a, end: b });
        proof {
            assert(ranges@.take(i as int + 1) =~= ranges@.take(i as int).push(ranges@[i as int]));
            assert forall|k: int| 0 <= k < i implies subs.deep_view()[k] == before[k] by {
                assert(subs@[k] == old_subs[k]);
            }
            assert(subs.deep_view()[i as int] == subs@[i as int].deep_view());
            assert(line@.subrange(a as int, b as int) == line@.subrange(min_of(ranges@[i as int].0 as int, line@.len() as int), min_of(ranges@[i as int].1 as int, line@.len() as int)));
            assert(subs.deep_view() =~= before.push(submatch_model(line@, ranges@[i as int])));
        }
        i = i + 1;
    }
    proof {
        assert(ranges@.take(ranges@.len() as int) =~= ranges@);
    }
    subs
}

fn match_record_of(buf: &[u8], line_starts_table: &[usize], lm: &LineMatch, path: Option<&str>, opts: &PrinterOpts) -> (rec: JsonMatchLine)
    requires
        line_starts_table@ == line_starts(buf@),
        printable_line(buf@, lm.deep_view(), opts),
    ensures
        rec.deep_view() == match_record(buf@, line_starts_table@, lm.deep_view(), opt_chars(path), opts),
{
    let _ = buf.len();
    proof {
        crate::lines::lemma_line_starts(buf@);
        crate::lines::lemma_line_count_bound(buf@);
        assert(lm.deep_view().ranges == lm.match_ranges@);
        assert forall|j: int| 0 <= j < lm.match_ranges@.len() implies (#[trigger] lm.match_ranges@[j]).0 <= lm.match_ranges@[j].1 by {
            assert(lm.deep_view().ranges[j] == lm.match_ranges@[j]);
        }
        if lm.match_ranges@.len() > 0 {
            assert(lm.deep_view().ranges[0] == lm.match_ranges@[0]);
        }
    }
    let line = get_line(buf, line_starts_table, lm.line_number);
    let lines = lossy_text(line);
    let submatches = submatches_of(line, lm.match_ranges.as_slice());
    let column = if lm.match_ranges.len() > 0 { Some(lm.match_ranges[0].0 + 1) } else { None };
    let byte_offset = if opts.byte_offset { Some(lm.line_start) } else { None };
    let scope = if opts.show_scope {
        match find_enclosing_scope(buf, line_starts_table, lm.line_number) {
            Some((_, text)) => Some(text),
            None => None,
        }
    } else {
        None
    };
    let rec = JsonMatchLine {
        path: opt_string(path),
        line_number: lm.line_number + 1,
        column,
        byte_offset,
        lines,
        submatches,
        scope,
    };
    proof {
        assert(rec.deep_view().scope == match_record(buf@, line_starts_table@, lm.deep_view(), opt_chars(path), opts).scope);
    }
    rec
}

fn push_record(out: &mut Vec<JsonRecord>, rec: JsonRecord)
    ensures
        final(out).deep_view() == old(out).deep_view().push(rec.deep_view()),
{
    let ghost before = out.deep_view();
    let ghost old_out = out@;
    out.push(rec);
    proof {
        assert forall|k: int| 0 <= k < old_out.len() implies out.deep_view()[k] == before[k] by {
            assert(out@[k] == old_out[k]);
        }
        assert(out.deep_view()[old_out.len() as int] == out@[old_out.len() as int].deep_view());
        assert(out.deep_view() =~= before.push(rec.deep_view()));
    }
}

/// Writes the `--json` records for the reported lines `matches` of `buf`.
fn write_json_results(out: &mut Vec<JsonRecord>, buf: &[u8], matches: &[LineMatch], path: Option<&str>, opts: &PrinterOpts, unique_set: &mut UniqueSet)
    requires
        printable(buf@, models(matches@), opts),
    ensures
        ({
            let (recs, seen) = json_output(buf@, models(matches@), opt_chars(path), opts, old(unique_set).keys());
            &&& final(out).deep_view() == old(out).deep_view() + recs
            &&& final(unique_set).keys() == seen
        }),
{
    let ghost start = out.deep_view();
    let ghost all = models(matches@);
    if opts.files_without_match {
        if matches.len() == 0 {
            if let Some(p) = path {
                push_record(out, JsonRecord::File(p.to_string()));
            }
        }
        proof {
            assert(out.deep_view() =~= start + json_output(buf@, all, opt_chars(path), opts, unique_set.keys()).0);
        }
        return;
    }
    if opts.files_with_matches {
        if matches.len() > 0 {
            if let Some(p) = path {
                push_record(out, JsonRecord::File(p.to_string()));
            }
        }
        proof {
            assert(out.deep_view() =~= start + json_output(buf@, all, opt_chars(path), opts, unique_set.keys()).0);
        }
        return;
    }
    if opts.count {
        if matches.len() > 0 {
            push_record(out, JsonRecord::Count(opt_string(path), matches.len()));
        }
        proof {
            assert(out.deep_view() =~= start + json_output(buf@, all, opt_chars(path), opts, unique_set.keys()).0);
        }
        return;
    }
    let ghost seen0 = unique_set.keys();
    let line_starts_table = crate::lines::build_line_index(buf);
    let _ = buf.len();
    let mut i: usize = 0;
    while i < matches.len()
        invariant
            i <= matches@.len(),
            buf@.len() <= usize::MAX,
            all == models(matches@),
            line_starts_table@ == line_starts(buf@),
            printable(buf@, all, opts),
            ({
                let (recs, seen) = json_upto(buf@, all, opt_chars(path), opts, seen0, i as int);
                &&& out.deep_view() == start + recs
                &&& unique_set.keys() == seen
            }),
        decreases matches@.len() - i,
    {
        let lm = &matches[i];
        proof {
            assert(all[i as int] == lm.deep_view());
            assert(printable_line(buf@, all[i as int], opts));
            crate::lines::lemma_line_starts(buf@);
            assert(lm.deep_view().ranges == lm.match_ranges@);
            if lm.match_ranges@.len() > 0 {
                assert(lm.deep_view().ranges[0] == lm.match_ranges@[0]);
            }
        }
        let line = get_line(buf, line_starts_table.as_slice(), lm.line_number);
        let mut keep = true;
        if opts.unique {
            let key: &[u8] = if opts.only_matching && lm.match_ranges.len() > 0 {
                let (ms, me) = lm.match_ranges[0];
                let a = if ms < line.len() { ms } else { line.len() };
                let b = if me < line.len() { me } else { line.len() };
                &line[a..b]
            } else {
                line
            };
            keep = unique_set.check(key);
        }
        if keep {
            let rec = match_record_of(buf, line_starts_table.as_slice(), lm, path, opts);
            let ghost before = out.deep_view();
            push_record(out, JsonRecord::Match(rec));
            proof {
                assert(out.deep_view() =~= start + json_upto(buf@, all, opt_chars(path), opts, seen0, i as int + 1).0);
            }
        }
        i = i + 1;
    }
}

/// A file name on a line of its own: in magenta and ended by a newline, or,
/// with `--null`, uncolored and ended by a NUL byte.
pub open spec fn path_line_pieces(path: Seq<char>, null: bool) -> Seq<(Paint, Seq<u8>)> {
    if null {
        seq![(Paint::Plain, utf8(path + seq!['\0']))]
    } else {
        seq![(Paint::Magenta, utf8(path)), (Paint::Plain, utf8("\n"@))]
    }
}

/// Prints the file name `path` on a line of its own (`--files`, `-l`).
pub fn path_line(out: &mut Vec<Piece>, path: &str, null: bool)
    ensures
        piece_models(final(out)@) == piece_models(old(out)@) + path_line_pieces(path@, null),
{
    let ghost start = piece_models(out@);
    if null {
        let mut t = path.to_string();
        t.append("\0");
        proof {
            reveal_strlit("\0");
            assert(t@ =~= path@ + seq!['\0']);
        }
        emit_str(out, Paint::Plain, t.as_str());
    } else {
        emit_str(out, Paint::Magenta, path);
        emit_str(out, Paint::Plain, "\n");
    }
    proof {
        assert(piece_models(out@) =~= start + path_line_pieces(path@, null));
    }
}

/// The file-name output of `-l` and `--files-without-match`.
pub open spec fn file_mode_pieces(all: Seq<LineModel>, path: Option<Seq<char>>, opts: &PrinterOpts) -> Seq<(Paint, Seq<u8>)> {
    let print_file = (opts.files_without_match && all.len() == 0) || (opts.files_with_matches && all.len() > 0);
    if print_file && path is Some {
        path_line_pieces(path->0, opts.null)
    } else {
        Seq::empty()
    }
}

fn write_file_mode(out: &mut Vec<Piece>, matches: &[LineMatch], path: Option<&str>, opts: &PrinterOpts)
    ensures
        piece_models(final(out)@) == piece_models(old(out)@) + file_mode_pieces(models(matches@), opt_chars(path), opts),
{
    let ghost start = piece_models(out@);
    let print_file = (opts.files_without_match && matches.len() == 0) || (opts.files_with_matches && matches.len() > 0);
    if print_file {
        if let Some(p) = path {
            path_line(out, p, opts.null);
            return;
        }
    }
    proof {
        assert(piece_models(out@) =~= start + file_mode_pieces(models(matches@), opt_chars(path), opts));
    }
}

/// The output of `--count`: the path and the number of reported lines.
pub open spec fn count_mode_pieces(all: Seq<LineModel>, path: Option<Seq<char>>) -> Seq<(Paint, Seq<u8>)> {
    if all.len() == 0 {
        Seq::empty()
    } else {
        (if path is Some { seq![(Paint::Magenta, utf8(path->0)), (Paint::Plain, utf8(":"@))] } else { Seq::empty() })
            + seq![(Paint::Plain, utf8(decimal(all.len()) + "\n"@))]
    }
}

fn write_count_mode(out: &mut Vec<Piece>, matches: &[LineMatch], path: Option<&str>)
    ensures
        piece_models(final(out)@) == piece_models(old(out)@) + count_mode_pieces(models(matches@), opt_chars(path)),
{
    let ghost start = piece_models(out@);
    if matches.len() == 0 {
        proof {
            assert(piece_models(out@) =~= start + count_mode_pieces(models(matches@), opt_chars(path)));
        }
        return;
    }
    if let Some(p) = path {
        emit_str(out, Paint::Magenta, p);
        emit_str(out, Paint::Plain, ":");
    }
    let mut n = usize_to_string(matches.len());
    n.append("\n");
    emit_str(out, Paint::Plain, n.as_str());
    proof {
        assert(piece_models(out@) =~= start + count_mode_pieces(models(matches@), opt_chars(path)));
    }
}

/// What the printer produces for one file: colored text, or `--json` records.
pub struct Report {
    pub pieces: Vec<Piece>,
    pub records: Vec<JsonRecord>,
}

impl Report {
    /// A report with nothing in it.
    pub fn new() -> (r: Report)
        ensures
            r.pieces@.len() == 0,
            r.records@.len() == 0,
    {
        Report { pieces: Vec::new(), records: Vec::new() }
    }
}

/// What the printer writes for the reported lines `all` of one file: the
/// text pieces, the `--json` records, and the `--unique` keys seen afterwards.
pub open spec fn results_output(buf: Seq<u8>, all: Seq<LineModel>, path: Option<Seq<char>>, opts: &PrinterOpts, seen0: Set<Seq<u8>>) -> (Seq<(Paint, Seq<u8>)>, Seq<RecordModel>, Set<Seq<u8>>) {
    if opts.json {
        let (recs, seen) = json_output(buf, all, path, opts, seen0);
        (Seq::empty(), recs, seen)
    } else if opts.files_without_match || opts.files_with_matches {
        (file_mode_pieces(all, path, opts), Seq::empty(), seen0)
    } else if opts.count {
        (count_mode_pieces(all, path), Seq::empty(), seen0)
    } else {
        let (pieces, seen) = text_output(buf, all, path, opts, seen0);
        (pieces, Seq::empty(), seen)
    }
}

/// Writes the results `matches` of searching `buf` (the file `path`, or
/// standard input) to `out`: `--json` records, file names, a count, or the
/// lines themselves. `unique_set` holds the keys `--unique` has printed, over
/// all files; a caller without one passes a new set.
pub fn write_results_with_unique(out: &mut Report, buf: &[u8], matches: &[LineMatch], path: Option<&str>, opts: &PrinterOpts, unique_set: &mut UniqueSet)
    requires
        printable(buf@, models(matches@), opts),
    ensures
        ({
            let (pieces, recs, seen) = results_output(buf@, models(matches@), opt_chars(path), opts, old(unique_set).keys());
            &&& piece_models(final(out).pieces@) == piece_models(old(out).pieces@) + pieces
            &&& final(out).records.deep_view() == old(out).records.deep_view() + recs
            &&& final(unique_set).keys() == seen
        }),
{
    let ghost p0 = piece_models(out.pieces@);
    let ghost r0 = out.records.deep_view();
    if opts.json {
        write_json_results(&mut out.records, buf, matches, path, opts, unique_set);
        proof {
            assert(piece_models(out.pieces@) =~= p0 + Seq::<(Paint, Seq<u8>)>::empty());
        }
        return;
    }
    if opts.files_without_match || opts.files_with_matches {
        write_file_mode(&mut out.pieces, matches, path, opts);
    } else if opts.count {
        write_count_mode(&mut out.pieces, matches, path);
    } else {
        write_text_matches(&mut out.pieces, buf, matches, path, opts, unique_set);
    }
    proof {
        assert(out.records.deep_view() =~= r0 + Seq::<RecordModel>::empty());
    }
}

/// Whether the printer can take the results `matches` of `buf`: see `printable`.
pub fn results_printable(buf: &[u8], matches: &[LineMatch], opts: &PrinterOpts) -> (ok: bool)
    ensures
        ok == printable(buf@, models(matches@), opts),
{
    let _ = buf.len();
    let line_starts_table = crate::lines::build_line_index(buf);
    proof {
        crate::lines::lemma_line_starts(buf@);
    }
    let ghost all = models(matches@);
    let mut i: usize = 0;
    while i < matches.len()
        invariant
            i <= matches@.len(),
            buf@.len() <= usize::MAX,
            all == models(matches@),
            line_starts_table@ == line_starts(buf@),
            valid_line_table(line_starts_table@, buf@.len() as int),
            forall|k: int| 0 <= k < i ==> printable_line(buf@, #[trigger] all[k], opts),
        decreases matches@.len() - i,
    {
        let lm = &matches[i];
        proof {
            assert(all[i as int] == lm.deep_view());
            assert(lm.deep_view().ranges == lm.match_ranges@);
        }
        if lm.line_number >= line_starts_table.len() {
            assert(!printable_line(buf@, all[i as int], opts));
            return false;
        }
        let line = get_line(buf, line_starts_table.as_slice(), lm.line_number);
        let within = opts.only_matching && !opts.json;
        if within && lm.line_start > usize::MAX - line.len() {
            assert(!printable_line(buf@, all[i as int], opts));
            return false;
        }
        let mut j: usize = 0;
        while j < lm.match_ranges.len()
            invariant
                j <= lm.match_ranges@.len(),
                i < matches@.len(),
                all == models(matches@),
                all[i as int] == lm.deep_view(),
                line@ == line_text(buf@, line_starts(buf@), lm.line_number as int),
                within == (opts.only_matching && !opts.json),
                forall|q: int| 0 <= q < j ==> (#[trigger] lm.match_ranges@[q]).0 <= lm.match_ranges@[q].1
                    && lm.match_ranges@[q].0 < usize::MAX
                    && (within ==> lm.match_ranges@[q].1 <= line@.len()),
            decreases lm.match_ranges@.len() - j,
        {
            let (ms, me) = lm.match_ranges[j];
            if ms > me || ms == usize::MAX || (within && me > line.len()) {
                proof {
                    assert(all[i as int].ranges[j as int] == lm.match_ranges@[j as int]);
                    assert(!printable_line(buf@, all[i as int], opts));
                }
                return false;
            }
            j = j + 1;
        }
        if opts.trim_width.is_some() && !opts.json && lm.match_ranges.len() > 0 && lm.match_ranges[0].0 > line.len() {
            proof {
                assert(lm.deep_view().ranges[0] == lm.match_ranges@[0]);
            }
            return false;
        }
        proof {
            assert forall|q: int| 0 <= q < lm.deep_view().ranges.len() implies (#[trigger] lm.deep_view().ranges[q]).0 <= lm.deep_view().ranges[q].1
                && lm.deep_view().ranges[q].0 < usize::MAX by {
                assert(lm.deep_view().ranges[q] == lm.match_ranges@[q]);
            }
            if lm.match_ranges@.len() > 0 {
                assert(lm.deep_view().ranges[0] == lm.match_ranges@[0]);
            }
            assert(printable_line(buf@, all[i as int], opts));
        }
        i = i + 1;
    }
    true
}
} // verus!
