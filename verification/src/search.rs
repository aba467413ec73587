//! From the matches of a pattern in a buffer to the lines that a search reports.
use vstd::prelude::*;

use crate::args::Args;
use crate::engine::{matches_in_order, regex_find_all, regex_is_match, Matcher};
use crate::lines::{
    build_line_index, lemma_line_of, lemma_line_of_monotonic, lemma_next_newline, line_end, line_of,
    line_starts, next_newline, offset_to_line, valid_line_table,
};

verus! {

/// One reported line: its index, the offset where it starts, and the byte
/// ranges (relative to the line start) to show as matched.
pub struct LineMatch {
    pub line_number: usize,
    pub line_start: usize,
    pub match_ranges: Vec<(usize, usize)>,
}

/// The mathematical value of a `LineMatch`.
pub struct LineModel {
    pub line_number: usize,
    pub line_start: usize,
    pub ranges: Seq<(usize, usize)>,
}

impl DeepView for LineMatch {
    type V = LineModel;

    open spec fn deep_view(&self) -> LineModel {
        LineModel { line_number: self.line_number, line_start: self.line_start, ranges: self.match_ranges@ }
    }
}

/// The outcome of searching one buffer.
pub struct SearchResult {
    pub matches: Vec<LineMatch>,
    pub match_count: usize,
    pub had_error: bool,
}

/// The lines of a search result, as values.
pub open spec fn models(lms: Seq<LineMatch>) -> Seq<LineModel> {
    lms.map_values(|lm: LineMatch| lm.deep_view())
}

/// Adds range `r` to line `line` (starting at `ls`): to the last entry when it
/// is that line, else as a new entry.
pub open spec fn push_range(lms: Seq<LineModel>, line: usize, ls: usize, r: (usize, usize)) -> Seq<LineModel> {
    if lms.len() > 0 && lms.last().line_number == line {
        lms.update(
            lms.len() - 1,
            LineModel { line_number: line, line_start: lms.last().line_start, ranges: lms.last().ranges.push(r) },
        )
    } else {
        lms.push(LineModel { line_number: line, line_start: ls, ranges: seq![r] })
    }
}

/// The first line that match `m` touches.
pub open spec fn first_line(starts: Seq<usize>, m: (usize, usize)) -> int {
    line_of(starts, m.0 as int)
}

/// The last line that match `m` touches (an empty match touches one line).
pub open spec fn last_line(starts: Seq<usize>, m: (usize, usize)) -> int {
    if m.1 > m.0 {
        line_of(starts, m.1 - 1)
    } else {
        line_of(starts, m.0 as int)
    }
}

/// The part of match `m` that lies on line `k`, relative to the start of that line.
pub open spec fn range_on_line(buf: Seq<u8>, starts: Seq<usize>, m: (usize, usize), k: int) -> (usize, usize) {
    let ls = starts[k] as int;
    let line_len = next_newline(buf, ls) - ls;
    let rs = if k == first_line(starts, m) { m.0 - ls } else { 0 };
    let re = if k == last_line(starts, m) {
        if m.1 - ls < line_len { m.1 - ls } else { line_len }
    } else {
        line_len
    };
    (rs as usize, re as usize)
}

/// `lms` after adding the parts of match `m` on lines `first_line(m)` up to `upto - 1`.
pub open spec fn add_lines(lms: Seq<LineModel>, buf: Seq<u8>, starts: Seq<usize>, m: (usize, usize), upto: int) -> Seq<LineModel>
    decreases upto - first_line(starts, m),
{
    if upto <= first_line(starts, m) {
        lms
    } else {
        push_range(
            add_lines(lms, buf, starts, m, upto - 1),
            (upto - 1) as usize,
            starts[upto - 1],
            range_on_line(buf, starts, m, upto - 1),
        )
    }
}

/// An empty match at the very position where the previous reported range ended.
pub open spec fn is_repeat_empty_match(lms: Seq<LineModel>, starts: Seq<usize>, m: (usize, usize)) -> bool {
    &&& m.0 == m.1
    &&& lms.len() > 0
    &&& lms.last().ranges.len() > 0
    &&& lms.last().line_number == line_of(starts, m.0 as int)
    &&& lms.last().line_start + lms.last().ranges.last().1 == m.0
}

/// `lms` after adding match `m`. The empty match at the end of the buffer, and
/// an empty match right where the previous one ended, add nothing.
pub open spec fn add_match(lms: Seq<LineModel>, buf: Seq<u8>, starts: Seq<usize>, m: (usize, usize)) -> Seq<LineModel> {
    if m.0 == m.1 && m.0 == buf.len() {
        lms
    } else if is_repeat_empty_match(lms, starts, m) {
        lms
    } else {
        add_lines(lms, buf, starts, m, last_line(starts, m) + 1)
    }
}

/// The reported lines for the first `n` matches of `ms`.
pub open spec fn group_matches(buf: Seq<u8>, ms: Seq<(usize, usize)>, n: int) -> Seq<LineModel>
    decreases n,
{
    if n <= 0 {
        Seq::empty()
    } else {
        add_match(group_matches(buf, ms, n - 1), buf, line_starts(buf), ms[n - 1])
    }
}

/// The reported lines for all matches `ms` in `buf`.
pub open spec fn lines_of_matches(buf: Seq<u8>, ms: Seq<(usize, usize)>) -> Seq<LineModel> {
    group_matches(buf, ms, ms.len() as int)
}

/// Every reported line starts within `buf` and its ranges end within it.
pub open spec fn within_buffer(lms: Seq<LineModel>, len: int) -> bool {
    forall|i: int| 0 <= i < lms.len() ==> {
        &&& (#[trigger] lms[i]).line_start <= len
        &&& forall|j: int| 0 <= j < lms[i].ranges.len() ==> lms[i].line_start + (#[trigger] lms[i].ranges[j]).1 <= len
    }
}


/// Every reported line is a line of the table, and its start is the one the table gives.
pub open spec fn agrees_with_table(lms: Seq<LineModel>, starts: Seq<usize>) -> bool {
    forall|i: int| 0 <= i < lms.len() ==> {
        &&& (#[trigger] lms[i]).line_number < starts.len()
        &&& lms[i].line_start == starts[lms[i].line_number as int]
    }
}

proof fn lemma_push_range(lms: Seq<LineModel>, starts: Seq<usize>, len: int, line: usize, r: (usize, usize))
    requires
        within_buffer(lms, len),
        agrees_with_table(lms, starts),
        line < starts.len(),
        starts[line as int] + r.1 <= len,
    ensures
        within_buffer(push_range(lms, line, starts[line as int], r), len),
        agrees_with_table(push_range(lms, line, starts[line as int], r), starts),
{
    let res = push_range(lms, line, starts[line as int], r);
    if lms.len() > 0 && lms.last().line_number == line {
        assert forall|i: int| 0 <= i < res.len() implies {
            &&& (#[trigger] res[i]).line_start <= len
            &&& forall|j: int| 0 <= j < res[i].ranges.len() ==> res[i].line_start + (#[trigger] res[i].ranges[j]).1 <= len
        } by {
            if i < lms.len() - 1 {
                assert(res[i] == lms[i]);
            } else {
                assert forall|j: int| 0 <= j < res[i].ranges.len() implies res[i].line_start + (#[trigger] res[i].ranges[j]).1 <= len by {
                    if j < lms.last().ranges.len() {
                        assert(res[i].ranges[j] == lms[lms.len() - 1].ranges[j]);
                    }
                }
            }
        }
    } else {
        assert forall|i: int| 0 <= i < res.len() implies {
            &&& (#[trigger] res[i]).line_start <= len
            &&& forall|j: int| 0 <= j < res[i].ranges.len() ==> res[i].line_start + (#[trigger] res[i].ranges[j]).1 <= len
        } by {
            if i < lms.len() {
                assert(res[i] == lms[i]);
            }
        }
    }
}

/// The lines come in strictly increasing order of line number.
pub open spec fn lines_in_order(lms: Seq<LineModel>) -> bool {
    forall|i: int, j: int| 0 <= i < j < lms.len() ==> lms[i].line_number < lms[j].line_number
}

proof fn lemma_add_lines_order(lms: Seq<LineModel>, buf: Seq<u8>, starts: Seq<usize>, m: (usize, usize), upto: int)
    requires
        lines_in_order(lms),
        lms.len() > 0 ==> lms.last().line_number <= first_line(starts, m),
        0 <= first_line(starts, m),
        upto <= starts.len() <= usize::MAX,
    ensures
        lines_in_order(add_lines(lms, buf, starts, m, upto)),
        upto > first_line(starts, m) ==> {
            &&& add_lines(lms, buf, starts, m, upto).len() > 0
            &&& add_lines(lms, buf, starts, m, upto).last().line_number == upto - 1
        },
        upto <= first_line(starts, m) ==> add_lines(lms, buf, starts, m, upto) == lms,
    decreases upto - first_line(starts, m),
{
    if upto > first_line(starts, m) {
        lemma_add_lines_order(lms, buf, starts, m, upto - 1);
        let prev = add_lines(lms, buf, starts, m, upto - 1);
        let line = (upto - 1) as usize;
        let res = push_range(prev, line, starts[upto - 1], range_on_line(buf, starts, m, upto - 1));
        assert(prev.len() > 0 ==> prev.last().line_number <= upto - 1);
        if prev.len() > 0 && prev.last().line_number == line {
            assert forall|i: int, j: int| 0 <= i < j < res.len() implies res[i].line_number < res[j].line_number by {
                assert(res[i].line_number == prev[i].line_number);
                assert(res[j].line_number == prev[j].line_number);
            }
        } else {
            assert forall|i: int, j: int| 0 <= i < j < res.len() implies res[i].line_number < res[j].line_number by {
                if j < prev.len() {
                    assert(res[i] == prev[i]);
                    assert(res[j] == prev[j]);
                } else if i < prev.len() {
                    assert(res[i] == prev[i]);
                    assert(prev[i].line_number <= prev.last().line_number);
                }
            }
        }
    }
}

/// Grouping matches that come in order gives lines in order, each line of
/// the table, and the last no later than the first line of any later match.
proof fn lemma_group_order(buf: Seq<u8>, ms: Seq<(usize, usize)>, n: int)
    requires
        matches_in_order(ms, buf.len() as int),
        0 <= n <= ms.len(),
        buf.len() <= usize::MAX,
    ensures
        lines_in_order(group_matches(buf, ms, n)),
        group_matches(buf, ms, n).len() > 0 ==> forall|j: int| n <= j < ms.len()
            ==> group_matches(buf, ms, n).last().line_number <= #[trigger] first_line(line_starts(buf), ms[j]),
    decreases n,
{
    let starts = line_starts(buf);
    let len = buf.len() as int;
    crate::lines::lemma_line_starts(buf);
    crate::lines::lemma_line_count_bound(buf);
    if n > 0 {
        lemma_group_order(buf, ms, n - 1);
        let prev = group_matches(buf, ms, n - 1);
        let m = ms[n - 1];
        assert(m.0 <= m.1 <= len);
        lemma_line_of(starts, len, m.0 as int);
        if m.1 > m.0 {
            lemma_line_of(starts, len, m.1 - 1);
            lemma_line_of_monotonic(starts, len, m.0 as int, m.1 - 1);
        }
        let res = group_matches(buf, ms, n);
        if m.0 == m.1 && m.0 == buf.len() {
        } else if is_repeat_empty_match(prev, starts, m) {
        } else {
            lemma_add_lines_order(prev, buf, starts, m, last_line(starts, m) + 1);
            assert forall|j: int| n <= j < ms.len() implies res.last().line_number <= #[trigger] first_line(starts, ms[j]) by {
                assert(ms[n - 1].1 <= ms[j].0);
                if m.1 > m.0 {
                    lemma_line_of_monotonic(starts, len, m.1 - 1, ms[j].0 as int);
                } else {
                    lemma_line_of_monotonic(starts, len, m.0 as int, ms[j].0 as int);
                }
            }
        }
    }
}

/// Every range of `lm` lies within its line: it starts no later than it ends,
/// and ends no later than the line's newline (or the end of `buf`).
pub open spec fn ranges_in_line(buf: Seq<u8>, lm: LineModel) -> bool {
    forall|j: int| 0 <= j < lm.ranges.len()
        ==> (#[trigger] lm.ranges[j]).0 <= lm.ranges[j].1 <= next_newline(buf, lm.line_start as int) - lm.line_start
}

/// Every reported line's ranges lie within that line.
pub open spec fn ranges_within_lines(buf: Seq<u8>, lms: Seq<LineModel>) -> bool {
    forall|i: int| 0 <= i < lms.len() ==> ranges_in_line(buf, #[trigger] lms[i])
}

/// A byte before the end of `buf` on line `k` lies no later than that line's newline.
proof fn lemma_offset_before_newline(buf: Seq<u8>, k: int, o: int)
    requires
        buf.len() <= usize::MAX,
        0 <= k < line_starts(buf).len(),
        line_starts(buf)[k] <= o < buf.len(),
        k + 1 < line_starts(buf).len() ==> o < line_starts(buf)[k + 1],
    ensures
        line_starts(buf)[k] <= next_newline(buf, line_starts(buf)[k] as int),
        o <= next_newline(buf, line_starts(buf)[k] as int),
{
    let starts = line_starts(buf);
    crate::lines::lemma_line_starts(buf);
    let ls = starts[k] as int;
    lemma_next_newline(buf, ls);
    let nn = next_newline(buf, ls);
    if nn < o {
        assert(buf[nn] == 10u8);
        assert(starts.contains((nn + 1) as usize));
        let r = choose|r: int| 0 <= r < starts.len() && starts[r] == (nn + 1) as usize;
        if r <= k {
            if r < k {
                assert(starts[r] < starts[k]);
            }
        } else {
            assert(starts[k + 1] <= starts[r]);
        }
    }
}

/// The part of a match on one of the lines it touches lies within that line.
proof fn lemma_range_on_line_within(buf: Seq<u8>, m: (usize, usize), k: int)
    requires
        buf.len() <= usize::MAX,
        m.0 <= m.1 <= buf.len(),
        m.0 < buf.len(),
        first_line(line_starts(buf), m) <= k <= last_line(line_starts(buf), m),
    ensures
        0 <= k < line_starts(buf).len(),
        line_starts(buf)[k] <= next_newline(buf, line_starts(buf)[k] as int),
        range_on_line(buf, line_starts(buf), m, k).0 <= range_on_line(buf, line_starts(buf), m, k).1,
        range_on_line(buf, line_starts(buf), m, k).1
            <= next_newline(buf, line_starts(buf)[k] as int) - line_starts(buf)[k],
{
    let starts = line_starts(buf);
    let len = buf.len() as int;
    crate::lines::lemma_line_starts(buf);
    let fl = first_line(starts, m);
    let ll = last_line(starts, m);
    lemma_line_of(starts, len, m.0 as int);
    if m.1 > m.0 {
        lemma_line_of(starts, len, m.1 - 1);
        lemma_line_of_monotonic(starts, len, m.0 as int, m.1 - 1);
    }
    let ls = starts[k] as int;
    lemma_next_newline(buf, ls);
    if k == fl {
        lemma_offset_before_newline(buf, k, m.0 as int);
    }
    if k > fl {
        assert(starts[fl] < starts[k]);
    }
    if k < ll {
        assert(starts[k] < starts[ll]);
    }
}

proof fn lemma_push_range_in_line(lms: Seq<LineModel>, buf: Seq<u8>, line: usize, r: (usize, usize))
    requires
        ranges_within_lines(buf, lms),
        agrees_with_table(lms, line_starts(buf)),
        line < line_starts(buf).len(),
        r.0 <= r.1 <= next_newline(buf, line_starts(buf)[line as int] as int) - line_starts(buf)[line as int],
    ensures
        ranges_within_lines(buf, push_range(lms, line, line_starts(buf)[line as int], r)),
        agrees_with_table(push_range(lms, line, line_starts(buf)[line as int], r), line_starts(buf)),
{
    let starts = line_starts(buf);
    let res = push_range(lms, line, starts[line as int], r);
    assert forall|i: int| 0 <= i < res.len() implies ranges_in_line(buf, #[trigger] res[i])
        && res[i].line_number < starts.len() && res[i].line_start == starts[res[i].line_number as int] by {
        if i < lms.len() && !(i == lms.len() - 1 && lms.last().line_number == line) {
            assert(res[i] == lms[i]);
        } else if i == lms.len() - 1 {
            assert(ranges_in_line(buf, lms[i]));
            assert forall|j: int| 0 <= j < res[i].ranges.len() implies (#[trigger] res[i].ranges[j]).0 <= res[i].ranges[j].1
                <= next_newline(buf, res[i].line_start as int) - res[i].line_start by {
                if j < lms[i].ranges.len() {
                    assert(res[i].ranges[j] == lms[i].ranges[j]);
                }
            }
        } else {
            assert(res[i].ranges =~= seq![r]);
        }
    }
}

proof fn lemma_add_lines_in_line(lms: Seq<LineModel>, buf: Seq<u8>, m: (usize, usize), upto: int)
    requires
        buf.len() <= usize::MAX,
        m.0 <= m.1 <= buf.len(),
        m.0 < buf.len(),
        upto <= last_line(line_starts(buf), m) + 1,
        ranges_within_lines(buf, lms),
        agrees_with_table(lms, line_starts(buf)),
    ensures
        ranges_within_lines(buf, add_lines(lms, buf, line_starts(buf), m, upto)),
        agrees_with_table(add_lines(lms, buf, line_starts(buf), m, upto), line_starts(buf)),
    decreases upto - first_line(line_starts(buf), m),
{
    let starts = line_starts(buf);
    if upto > first_line(starts, m) {
        lemma_add_lines_in_line(lms, buf, m, upto - 1);
        lemma_range_on_line_within(buf, m, upto - 1);
        crate::lines::lemma_line_count_bound(buf);
        assert(((upto - 1) as usize) as int == upto - 1);
        lemma_push_range_in_line(
            add_lines(lms, buf, starts, m, upto - 1),
            buf,
            (upto - 1) as usize,
            range_on_line(buf, starts, m, upto - 1),
        );
    }
}

/// Grouping matches that lie within the buffer gives lines whose ranges lie
/// within those lines, each line of the table.
proof fn lemma_group_in_line(buf: Seq<u8>, ms: Seq<(usize, usize)>, n: int)
    requires
        matches_in_order(ms, buf.len() as int),
        0 <= n <= ms.len(),
        buf.len() <= usize::MAX,
    ensures
        ranges_within_lines(buf, group_matches(buf, ms, n)),
        agrees_with_table(group_matches(buf, ms, n), line_starts(buf)),
    decreases n,
{
    if n > 0 {
        lemma_group_in_line(buf, ms, n - 1);
        let m = ms[n - 1];
        let prev = group_matches(buf, ms, n - 1);
        if m.0 == m.1 && m.0 == buf.len() {
        } else if is_repeat_empty_match(prev, line_starts(buf), m) {
        } else {
            lemma_add_lines_in_line(prev, buf, m, last_line(line_starts(buf), m) + 1);
        }
    }
}

fn push_range_exec(lms: &mut Vec<LineMatch>, line: usize, ls: usize, r: (usize, usize))
    ensures
        models(final(lms)@) == push_range(models(old(lms)@), line, ls, r),
{
    let n = lms.len();
    if n > 0 && lms[n - 1].line_number == line {
        let ghost before = models(lms@);
        let mut last = lms.pop().unwrap();
        last.match_ranges.push(r);
        lms.push(last);
        proof {
            assert(models(lms@) =~= push_range(before, line, ls, r));
        }
    } else {
        let ghost before = models(lms@);
        let mut ranges: Vec<(usize, usize)> = Vec::new();
        ranges.push(r);
        lms.push(LineMatch { line_number: line, line_start: ls, match_ranges: ranges });
        proof {
            assert(models(lms@) =~= push_range(before, line, ls, r));
        }
    }
}

/// Groups the matches `all_matches` of a pattern in `buf` into reported lines:
/// each match adds its part on every line it touches, and parts on the same
/// line as the previous entry join that entry.
pub fn line_matches_from(buf: &[u8], line_starts_table: &[usize], all_matches: &[(usize, usize)]) -> (lms: Vec<LineMatch>)
    requires
        line_starts_table@ == line_starts(buf@),
        forall|i: int| 0 <= i < all_matches@.len() ==> (#[trigger] all_matches@[i]).0 <= all_matches@[i].1,
    ensures
        models(lms@) == lines_of_matches(buf@, all_matches@),
        within_buffer(models(lms@), buf@.len() as int),
        agrees_with_table(models(lms@), line_starts_table@),
{
    let ghost len = buf@.len() as int;
    let ghost starts = line_starts_table@;
    let _ = buf.len();
    proof {
        crate::lines::lemma_line_starts(buf@);
    }
    let mut lms: Vec<LineMatch> = Vec::new();
    let mut i: usize = 0;
    while i < all_matches.len()
        invariant
            i <= all_matches@.len(),
            starts == line_starts_table@,
            starts == line_starts(buf@),
            len == buf@.len(),
            valid_line_table(starts, len),
            forall|i: int| 0 <= i < all_matches@.len() ==> (#[trigger] all_matches@[i]).0 <= all_matches@[i].1,
            models(lms@) == group_matches(buf@, all_matches@, i as int),
            within_buffer(models(lms@), len),
            agrees_with_table(models(lms@), starts),
        decreases all_matches@.len() - i,
    {
        let m = all_matches[i];
        let ghost before = models(lms@);
        if m.0 == m.1 && m.0 == buf.len() {
            i = i + 1;
            continue;
        }
        let mut repeat = false;
        if m.0 == m.1 {
            let n = lms.len();
            if n > 0 {
                let nr = lms[n - 1].match_ranges.len();
                if nr > 0 {
                    let last_me = lms[n - 1].match_ranges[nr - 1].1;
                    proof {
                        assert(before[n - 1].ranges[nr - 1] == lms@[n - 1].match_ranges@[nr - 1]);
                    }
                    if lms[n - 1].line_number == offset_to_line(line_starts_table, m.0)
                        && lms[n - 1].line_start + last_me == m.0 {
                        repeat = true;
                    }
                }
            }
        }
        if !repeat {
            proof {
                lemma_line_of(starts, len, m.0 as int);
                if m.1 > m.0 {
                    lemma_line_of(starts, len, m.1 - 1);
                    lemma_line_of_monotonic(starts, len, m.0 as int, m.1 - 1);
                }
            }
            let sl = offset_to_line(line_starts_table, m.0);
            let el = if m.1 > m.0 { offset_to_line(line_starts_table, m.1 - 1) } else { sl };
            let mut k = sl;
            while k <= el
                invariant
                    sl <= k <= el + 1,
                    el < starts.len(),
                    sl == first_line(starts, m),
                    el == last_line(starts, m),
                    starts == line_starts_table@,
                    len == buf@.len(),
                    valid_line_table(starts, len),
                    starts[sl as int] <= m.0,
                    m.0 <= m.1,
                    m.1 > m.0 ==> starts[el as int] <= m.1 - 1,
                    m.1 == m.0 ==> sl == el,
                    models(lms@) == add_lines(before, buf@, starts, m, k as int),
                    within_buffer(models(lms@), len),
                    agrees_with_table(models(lms@), starts),
                decreases el + 1 - k,
            {
                let ls = line_starts_table[k];
                let le = line_end(buf, ls);
                let line_len = le - ls;
                let rs = if k == sl { m.0 - ls } else { 0 };
                let re = if k == el {
                    if m.1 - ls < line_len { m.1 - ls } else { line_len }
                } else {
                    line_len
                };
                proof {
                    lemma_push_range(models(lms@), starts, len, k, (rs, re));
                    assert((rs, re) == range_on_line(buf@, starts, m, k as int));
                }
                push_range_exec(&mut lms, k, ls, (rs, re));
                k = k + 1;
            }
        }
        i = i + 1;
        proof {
            assert(all_matches@[i - 1] == m);
        }
    }
    proof {
        assert(all_matches@.len() == i);
    }
    lms
}

/// Line `k` is among the reported lines.
pub open spec fn reports_line(lms: Seq<LineModel>, k: int) -> bool {
    exists|i: int| 0 <= i < lms.len() && lms[i].line_number == k
}

/// A line with nothing highlighted.
pub open spec fn bare_line(starts: Seq<usize>, k: int) -> LineModel {
    LineModel { line_number: k as usize, line_start: starts[k], ranges: Seq::empty() }
}

/// Among the first `n` lines, those that `lms` does not report, in order.
pub open spec fn unreported_lines(lms: Seq<LineModel>, starts: Seq<usize>, n: int) -> Seq<LineModel>
    decreases n,
{
    if n <= 0 {
        Seq::empty()
    } else if reports_line(lms, n - 1) {
        unreported_lines(lms, starts, n - 1)
    } else {
        unreported_lines(lms, starts, n - 1).push(bare_line(starts, n - 1))
    }
}

/// When every line is shown, how many entries of `lms` have been used up by
/// the time line `n` is reached: an entry is used when it is next in turn and
/// names the current line.
pub open spec fn passthru_cursor(lms: Seq<LineModel>, n: int) -> int
    decreases n,
{
    if n <= 0 {
        0
    } else {
        let c = passthru_cursor(lms, n - 1);
        if c < lms.len() && lms[c].line_number == n - 1 {
            c + 1
        } else {
            c
        }
    }
}

/// Line `k` when every line is shown: with the ranges of the entry in turn if
/// that entry names line `k`, else with none.
pub open spec fn passthru_line(lms: Seq<LineModel>, starts: Seq<usize>, k: int) -> LineModel {
    let c = passthru_cursor(lms, k);
    if c < lms.len() && lms[c].line_number == k {
        LineModel { line_number: k as usize, line_start: starts[k], ranges: lms[c].ranges }
    } else {
        bare_line(starts, k)
    }
}

/// Every line of the table, as shown with `--passthru`.
pub open spec fn passthru_lines(lms: Seq<LineModel>, starts: Seq<usize>) -> Seq<LineModel> {
    Seq::new(starts.len(), |k: int| passthru_line(lms, starts, k))
}

/// The lines `unreported_lines` lists are, in increasing order, those among
/// the first `n` that `lms` does not report, each with its start from the table.
pub proof fn lemma_unreported(lms: Seq<LineModel>, starts: Seq<usize>, n: int)
    requires
        0 <= n <= starts.len(),
        starts.len() <= usize::MAX + 1,
    ensures
        forall|k: int| #[trigger] reports_line(unreported_lines(lms, starts, n), k) <==> 0 <= k < n && !reports_line(lms, k),
        forall|i: int, j: int| 0 <= i < j < unreported_lines(lms, starts, n).len()
            ==> unreported_lines(lms, starts, n)[i].line_number < unreported_lines(lms, starts, n)[j].line_number,
        forall|i: int| 0 <= i < unreported_lines(lms, starts, n).len()
            ==> #[trigger] unreported_lines(lms, starts, n)[i].line_number < n
                && unreported_lines(lms, starts, n)[i].line_start == starts[unreported_lines(lms, starts, n)[i].line_number as int],
    decreases n,
{
    if n > 0 {
        lemma_unreported(lms, starts, n - 1);
        let prev = unreported_lines(lms, starts, n - 1);
        let cur = unreported_lines(lms, starts, n);
        if !reports_line(lms, n - 1) {
            assert(cur == prev.push(bare_line(starts, n - 1)));
            assert(cur[cur.len() - 1].line_number == n - 1);
            assert forall|k: int| #[trigger] reports_line(cur, k) <==> 0 <= k < n && !reports_line(lms, k) by {
                if reports_line(cur, k) {
                    let w = choose|w: int| 0 <= w < cur.len() && cur[w].line_number == k;
                    if w < prev.len() {
                        assert(cur[w] == prev[w]);
                        assert(reports_line(prev, k));
                    }
                }
                if 0 <= k < n - 1 && !reports_line(lms, k) {
                    assert(reports_line(prev, k));
                    let w = choose|w: int| 0 <= w < prev.len() && prev[w].line_number == k;
                    assert(cur[w] == prev[w]);
                }
                if k == n - 1 && !reports_line(lms, k) {
                    assert(cur[cur.len() - 1].line_number == k);
                }
            }
            assert forall|i: int| 0 <= i < cur.len() implies #[trigger] cur[i].line_number < n
                && cur[i].line_start == starts[cur[i].line_number as int] by {
                if i < prev.len() {
                    assert(cur[i] == prev[i]);
                }
            }
        } else {
            assert forall|k: int| #[trigger] reports_line(cur, k) <==> 0 <= k < n && !reports_line(lms, k) by {
                assert(reports_line(prev, k) == reports_line(cur, k));
            }
        }
    } else {
        assert forall|k: int| #[trigger] reports_line(unreported_lines(lms, starts, n), k) <==> 0 <= k < n && !reports_line(lms, k) by {}
    }
}

proof fn lemma_final_order(lms: Seq<LineModel>, starts: Seq<usize>, invert: bool, max: Option<usize>, passthru: bool)
    requires
        lines_in_order(lms),
        agrees_with_table(lms, starts),
        starts.len() <= usize::MAX,
    ensures
        lines_in_order(final_lines(lms, starts, invert, max, passthru).0),
        agrees_with_table(final_lines(lms, starts, invert, max, passthru).0, starts),
{
    let res = final_lines(lms, starts, invert, max, passthru).0;
    if invert {
        lemma_unreported(lms, starts, starts.len() as int);
        assert forall|i: int| 0 <= i < res.len() implies {
            &&& (#[trigger] res[i]).line_number < starts.len()
            &&& res[i].line_start == starts[res[i].line_number as int]
        } by {}
    } else {
        let kept = lms.take(kept_count(lms.len() as int, max));
        if passthru {
            assert forall|i: int, j: int| 0 <= i < j < res.len() implies res[i].line_number < res[j].line_number by {
                assert(res[i] == passthru_line(kept, starts, i));
                assert(res[j] == passthru_line(kept, starts, j));
            }
            assert forall|i: int| 0 <= i < res.len() implies {
                &&& (#[trigger] res[i]).line_number < starts.len()
                &&& res[i].line_start == starts[res[i].line_number as int]
            } by {
                assert(res[i] == passthru_line(kept, starts, i));
            }
        } else {
            assert forall|i: int, j: int| 0 <= i < j < res.len() implies res[i].line_number < res[j].line_number by {
                assert(res[i] == lms[i]);
                assert(res[j] == lms[j]);
            }
            assert forall|i: int| 0 <= i < res.len() implies {
                &&& (#[trigger] res[i]).line_number < starts.len()
                &&& res[i].line_start == starts[res[i].line_number as int]
            } by {
                assert(res[i] == lms[i]);
            }
        }
    }
}

proof fn lemma_passthru_cursor_bounds(lms: Seq<LineModel>, n: int)
    ensures
        0 <= passthru_cursor(lms, n),
    decreases n,
{
    if n > 0 {
        lemma_passthru_cursor_bounds(lms, n - 1);
    }
}

proof fn lemma_unreported_in_line(buf: Seq<u8>, lms: Seq<LineModel>, starts: Seq<usize>, n: int)
    ensures
        ranges_within_lines(buf, unreported_lines(lms, starts, n)),
    decreases n,
{
    if n > 0 {
        lemma_unreported_in_line(buf, lms, starts, n - 1);
        let prev = unreported_lines(lms, starts, n - 1);
        let cur = unreported_lines(lms, starts, n);
        assert forall|i: int| 0 <= i < cur.len() implies ranges_in_line(buf, #[trigger] cur[i]) by {
            if i < prev.len() {
                assert(cur[i] == prev[i]);
            }
        }
    }
}

/// Inverting, cutting or padding the lines keeps every range within its line.
proof fn lemma_final_in_line(buf: Seq<u8>, lms: Seq<LineModel>, invert: bool, max: Option<usize>, passthru: bool)
    requires
        ranges_within_lines(buf, lms),
        agrees_with_table(lms, line_starts(buf)),
    ensures
        ranges_within_lines(buf, final_lines(lms, line_starts(buf), invert, max, passthru).0),
{
    let starts = line_starts(buf);
    let res = final_lines(lms, starts, invert, max, passthru).0;
    if invert {
        lemma_unreported_in_line(buf, lms, starts, starts.len() as int);
    } else {
        let kept = lms.take(kept_count(lms.len() as int, max));
        if passthru {
            assert forall|i: int| 0 <= i < res.len() implies ranges_in_line(buf, #[trigger] res[i]) by {
                assert(res[i] == passthru_line(kept, starts, i));
                let c = passthru_cursor(kept, i);
                lemma_passthru_cursor_bounds(kept, i);
                if c < kept.len() && kept[c].line_number == i {
                    assert(kept[c] == lms[c]);
                    assert(ranges_in_line(buf, lms[c]));
                }
            }
        } else {
            assert forall|i: int| 0 <= i < res.len() implies ranges_in_line(buf, #[trigger] res[i]) by {
                assert(res[i] == lms[i]);
            }
        }
    }
}

/// How many reported lines are kept under a limit of `max`.
pub open spec fn kept_count(len: int, max: Option<usize>) -> int {
    match max {
        Some(m) => if m < len { m as int } else { len },
        None => len,
    }
}

/// The lines and the count that a search reports, given the matched lines
/// `lms` and the options: inverted, cut to `max`, or padded to every line.
pub open spec fn final_lines(lms: Seq<LineModel>, starts: Seq<usize>, invert: bool, max: Option<usize>, passthru: bool) -> (Seq<LineModel>, int) {
    if invert {
        let inv = unreported_lines(lms, starts, starts.len() as int);
        (inv, inv.len() as int)
    } else {
        let kept = lms.take(kept_count(lms.len() as int, max));
        if passthru {
            (passthru_lines(kept, starts), kept.len() as int)
        } else {
            (kept, kept.len() as int)
        }
    }
}

/// `res` is the error-free result that `final_lines` describes.
pub open spec fn is_final_result(res: &SearchResult, lms: Seq<LineModel>, starts: Seq<usize>, invert: bool, max: Option<usize>, passthru: bool) -> bool {
    let (lines, count) = final_lines(lms, starts, invert, max, passthru);
    &&& models(res.matches@) == lines
    &&& res.match_count == count
    &&& !res.had_error
}

/// A copy of the ranges `v`.
pub fn copy_ranges(v: &Vec<(usize, usize)>) -> (r: Vec<(usize, usize)>)
    ensures
        r@ == v@,
{
    let mut r: Vec<(usize, usize)> = Vec::new();
    let mut i: usize = 0;
    while i < v.len()
        invariant
            i <= v@.len(),
            r@ == v@.take(i as int),
        decreases v@.len() - i,
    {
        r.push(v[i]);
        i = i + 1;
        proof {
            assert(r@ =~= v@.take(i as int));
        }
    }
    proof {
        assert(v@.take(v@.len() as int) =~= v@);
    }
    r
}

/// The indices of the lines that `lms` reports.
pub fn reported_line_set(lms: &[LineMatch]) -> (set: std::collections::HashSet<usize>)
    ensures
        forall|k: usize| set@.contains(k) <==> reports_line(models(lms@), k as int),
{
    broadcast use vstd::std_specs::hash::group_hash_axioms;
    let ghost all = models(lms@);
    let mut set: std::collections::HashSet<usize> = std::collections::HashSet::new();
    let mut j: usize = 0;
    while j < lms.len()
        invariant
            j <= lms@.len(),
            all == models(lms@),
            forall|k: usize| set@.contains(k) <==> exists|i: int| 0 <= i < j && all[i].line_number == k,
        decreases lms@.len() - j,
    {
        set.insert(lms[j].line_number);
        proof {
            assert forall|k: usize| set@.contains(k) <==> exists|i: int| 0 <= i < j + 1 && all[i].line_number == k by {
                if k == lms@[j as int].line_number {
                    assert(all[j as int].line_number == k);
                }
            }
        }
        j = j + 1;
    }
    set
}

/// Turns the matched lines of a buffer into what the search reports: with
/// `invert_match`, every line that has no match; otherwise the first `max`
/// matched lines, and with `passthru` every line, carrying the ranges of the
/// matched ones.
pub fn finish_search(line_matches: Vec<LineMatch>, line_starts_table: &[usize], invert_match: bool, max: Option<usize>, passthru: bool) -> (res: SearchResult)
    ensures
        is_final_result(&res, models(line_matches@), line_starts_table@, invert_match, max, passthru),
{
    broadcast use vstd::std_specs::hash::group_hash_axioms;
    let ghost lms0 = models(line_matches@);
    let ghost starts = line_starts_table@;
    if invert_match {
        let matched = reported_line_set(line_matches.as_slice());
        let mut inverted: Vec<LineMatch> = Vec::new();
        let mut i: usize = 0;
        while i < line_starts_table.len()
            invariant
                i <= starts.len(),
                starts == line_starts_table@,
                lms0 == models(line_matches@),
                forall|k: usize| matched@.contains(k) <==> reports_line(lms0, k as int),
                models(inverted@) == unreported_lines(lms0, starts, i as int),
            decreases starts.len() - i,
        {
            if !matched.contains(&i) {
                let ghost before = models(inverted@);
                inverted.push(LineMatch { line_number: i, line_start: line_starts_table[i], match_ranges: Vec::new() });
                proof {
                    assert(models(inverted@) =~= before.push(bare_line(starts, i as int)));
                }
            }
            i = i + 1;
        }
        let count = inverted.len();
        return SearchResult { matches: inverted, match_count: count, had_error: false };
    }
    let mut line_matches = line_matches;
    if let Some(m) = max {
        line_matches.truncate(m);
    }
    proof {
        assert(models(line_matches@) =~= lms0.take(kept_count(lms0.len() as int, max)));
    }
    let match_count = line_matches.len();
    if passthru {
        let ghost kept = models(line_matches@);
        let mut all_lines: Vec<LineMatch> = Vec::new();
        let mut mi: usize = 0;
        let mut i: usize = 0;
        while i < line_starts_table.len()
            invariant
                i <= starts.len(),
                starts == line_starts_table@,
                kept == models(line_matches@),
                mi == passthru_cursor(kept, i as int),
                mi <= kept.len(),
                models(all_lines@) =~= Seq::new(i as nat, |k: int| passthru_line(kept, starts, k)),
            decreases starts.len() - i,
        {
            let ghost before = models(all_lines@);
            let ghost old_all = all_lines@;
            assert(before.len() == i);
            assert(old_all.len() == i);
            if mi < line_matches.len() && line_matches[mi].line_number == i {
                let ranges = copy_ranges(&line_matches[mi].match_ranges);
                all_lines.push(LineMatch { line_number: i, line_start: line_starts_table[i], match_ranges: ranges });
                mi = mi + 1;
            } else {
                all_lines.push(LineMatch { line_number: i, line_start: line_starts_table[i], match_ranges: Vec::new() });
            }
            proof {
                let c = passthru_cursor(kept, i as int);
                assert(all_lines@ == old_all.push(all_lines@[i as int]));
                assert(models(all_lines@)[i as int] == all_lines@[i as int].deep_view());
                if c < kept.len() {
                    assert(kept[c] == line_matches@[c].deep_view());
                }
                assert(models(all_lines@)[i as int] == passthru_line(kept, starts, i as int));
                assert forall|k: int| 0 <= k < i implies models(all_lines@)[k] == passthru_line(kept, starts, k) by {
                    assert(all_lines@[k] == old_all[k]);
                    assert(models(all_lines@)[k] == before[k]);
                }
                assert(models(all_lines@) =~= Seq::new((i + 1) as nat, |k: int| passthru_line(kept, starts, k)));
            }
            i = i + 1;
        }
        return SearchResult { matches: all_lines, match_count, had_error: false };
    }
    SearchResult { matches: line_matches, match_count, had_error: false }
}

/// The ranges a line shows once the highlight pattern has run on it: the
/// highlight matches when the engine found some, else the line's own ranges
/// (no highlight match, or the engine gave up on the line).
pub fn highlight_ranges(old: Vec<(usize, usize)>, found: Option<Vec<(usize, usize)>>) -> (r: Vec<(usize, usize)>)
    ensures
        match found {
            Some(f) => if f@.len() > 0 { r@ == f@ } else { r@ == old@ },
            None => r@ == old@,
        },
{
    match found {
        Some(f) => if f.len() > 0 { f } else { old },
        None => old,
    }
}

/// The bytes of the line that starts at `ls`, up to (not including) its newline.
pub open spec fn line_bytes_from(buf: Seq<u8>, ls: int) -> Seq<u8> {
    buf.subrange(ls, next_newline(buf, ls))
}

/// `h` is `lms` after highlighting: every line keeps its number and start, and
/// either keeps its ranges or takes the (non-empty) matches of the highlight
/// pattern `hl` in its text; where that pattern has no match in the line, the
/// line keeps its ranges. Which of the two a line gets where the pattern does
/// match is `highlight_ranges` applied to what the engine answered for that
/// line. Without a highlight pattern nothing changes.
pub open spec fn highlight_outcome(buf: Seq<u8>, lms: Seq<LineModel>, hl: Option<(Seq<char>, usize)>, h: Seq<LineModel>) -> bool {
    &&& h.len() == lms.len()
    &&& forall|i: int| 0 <= i < h.len() ==> {
        &&& (#[trigger] h[i]).line_number == lms[i].line_number
        &&& h[i].line_start == lms[i].line_start
        &&& match hl {
            None => h[i].ranges == lms[i].ranges,
            Some((p, cap)) => {
                let found = regex_find_all(p, cap, line_bytes_from(buf, lms[i].line_start as int));
                &&& h[i].ranges == lms[i].ranges || (h[i].ranges == found && found.len() > 0)
                &&& found.len() == 0 ==> h[i].ranges == lms[i].ranges
            },
        }
    }
}

/// The pattern and capacity of an optional matcher.
pub open spec fn matcher_spec(m: Option<&Matcher>) -> Option<(Seq<char>, usize)> {
    match m {
        Some(mm) => Some((mm.pattern(), mm.capacity())),
        None => None,
    }
}

/// `res` is a result of searching `buf` for `re` as `search_buffer` does.
/// An empty buffer reports nothing; when the engine gives up, `had_error` is
/// set and nothing is reported; otherwise the matches are grouped into lines,
/// whose ranges `highlight_re` may replace, and the lines are then inverted,
/// cut or padded as `is_final_result` says. The reported lines come in
/// increasing order, each a line of the buffer with its start offset, and
/// every range lies within its line.
pub open spec fn search_outcome(re: &Matcher, highlight_re: Option<&Matcher>, buf: Seq<u8>, args: &Args, effective_max: Option<usize>, res: &SearchResult) -> bool {
    &&& buf.len() == 0 ==> res.matches@.len() == 0 && res.match_count == 0 && !res.had_error
    &&& res.had_error ==> res.matches@.len() == 0 && res.match_count == 0
    &&& !res.had_error ==> lines_in_order(models(res.matches@)) && agrees_with_table(models(res.matches@), line_starts(buf))
    &&& !res.had_error ==> ranges_within_lines(buf, models(res.matches@))
    &&& buf.len() > 0 && !res.had_error ==> exists|h: Seq<LineModel>| {
        &&& highlight_outcome(
            buf,
            lines_of_matches(buf, regex_find_all(re.pattern(), re.capacity(), buf)),
            matcher_spec(highlight_re),
            h,
        )
        &&& is_final_result(
            res,
            h,
            line_starts(buf),
            args.invert_match,
            match effective_max { Some(m) => Some(m), None => args.max_count },
            args.passthru,
        )
    }
}

/// Searches `buf` for `re` and reports lines as the options say: the matches
/// are grouped into lines, their ranges replaced by those of `highlight_re`
/// where it matches the line, and the lines then inverted, cut to the limit
/// (`effective_max`, else `--max-count`) or padded to every line.
/// An empty buffer reports nothing; when the engine gives up on `buf`,
/// `had_error` is set and nothing is reported.
pub fn search_buffer(re: &Matcher, highlight_re: Option<&Matcher>, buf: &[u8], args: &Args, effective_max: Option<usize>) -> (res: SearchResult)
    ensures
        search_outcome(re, highlight_re, buf@, args, effective_max, &res),
{
    if buf.len() == 0 {
        return SearchResult { matches: Vec::new(), match_count: 0, had_error: false };
    }
    let all_matches = match re.find_all(buf) {
        Some(m) => m,
        None => {
            return SearchResult { matches: Vec::new(), match_count: 0, had_error: true };
        },
    };
    let starts = build_line_index(buf);
    let grouped = line_matches_from(buf, &starts, &all_matches);
    let ghost g = models(grouped@);
    proof {
        lemma_group_in_line(buf@, all_matches@, all_matches@.len() as int);
    }
    let lms = match highlight_re {
        None => grouped,
        Some(hl) => {
            let mut out: Vec<LineMatch> = Vec::new();
            let mut i: usize = 0;
            while i < grouped.len()
                invariant
                    i <= grouped@.len(),
                    g == models(grouped@),
                    within_buffer(g, buf@.len() as int),
                    ranges_within_lines(buf@, g),
                    ranges_within_lines(buf@, models(out@)),
                    models(out@).len() == i,
                    forall|k: int| 0 <= k < i ==> {
                        &&& (#[trigger] models(out@)[k]).line_number == g[k].line_number
                        &&& models(out@)[k].line_start == g[k].line_start
                        &&& {
                            let found = regex_find_all(hl.pattern(), hl.capacity(), line_bytes_from(buf@, g[k].line_start as int));
                            &&& models(out@)[k].ranges == g[k].ranges || (models(out@)[k].ranges == found && found.len() > 0)
                            &&& found.len() == 0 ==> models(out@)[k].ranges == g[k].ranges
                        }
                    },
                decreases grouped@.len() - i,
            {
                let ls = grouped[i].line_start;
                proof {
                    assert(g[i as int] == grouped@[i as int].deep_view());
                }
                let le = line_end(buf, ls);
                let line_buf = &buf[ls..le];
                assert(line_buf@ == line_bytes_from(buf@, ls as int));
                let ghost old_out = out@;
                let found_opt = hl.find_all(line_buf);
                let ranges = highlight_ranges(copy_ranges(&grouped[i].match_ranges), found_opt);
                proof {
                    let f = regex_find_all(hl.pattern(), hl.capacity(), line_buf@);
                    assert(g[i as int] == grouped@[i as int].deep_view());
                    assert(ranges@ == g[i as int].ranges || (ranges@ == f && f.len() > 0));
                    assert(f.len() == 0 ==> ranges@ == g[i as int].ranges);
                    assert(ranges@ == g[i as int].ranges || matches_in_order(ranges@, line_buf@.len() as int));
                    assert(ranges_in_line(buf@, g[i as int]));
                    assert forall|j: int| 0 <= j < ranges@.len() implies (#[trigger] ranges@[j]).0 <= ranges@[j].1
                        <= next_newline(buf@, ls as int) - ls by {
                        if ranges@ != g[i as int].ranges {
                            assert(ranges@[j].1 <= line_buf@.len());
                        }
                    }
                }
                out.push(LineMatch { line_number: grouped[i].line_number, line_start: ls, match_ranges: ranges });
                proof {
                    assert(out@ == old_out.push(out@[i as int]));
                    assert forall|k: int| 0 <= k < i + 1 implies {
                        &&& (#[trigger] models(out@)[k]).line_number == g[k].line_number
                        &&& models(out@)[k].line_start == g[k].line_start
                        &&& {
                            let found = regex_find_all(hl.pattern(), hl.capacity(), line_bytes_from(buf@, g[k].line_start as int));
                            &&& models(out@)[k].ranges == g[k].ranges || (models(out@)[k].ranges == found && found.len() > 0)
                            &&& found.len() == 0 ==> models(out@)[k].ranges == g[k].ranges
                        }
                    } by {
                        if k < i {
                            assert(out@[k] == old_out[k]);
                            assert(models(out@)[k] == models(old_out)[k]);
                        } else {
                            assert(models(out@)[k] == out@[k].deep_view());
                            assert(g[k] == grouped@[k].deep_view());
                            assert(models(out@)[k].line_number == g[k].line_number);
                            assert(models(out@)[k].line_start == g[k].line_start);
                            assert(models(out@)[k].ranges == ranges@);
                            assert(line_buf@ == line_bytes_from(buf@, g[k].line_start as int));
                        }
                    }
                    assert forall|k: int| 0 <= k < i + 1 implies ranges_in_line(buf@, #[trigger] models(out@)[k]) by {
                        if k < i {
                            assert(out@[k] == old_out[k]);
                            assert(models(out@)[k] == models(old_out)[k]);
                        } else {
                            assert(models(out@)[k] == out@[k].deep_view());
                            assert(models(out@)[k].ranges == ranges@);
                            assert(models(out@)[k].line_start == ls);
                        }
                    }
                }
                i = i + 1;
            }
            proof {
                assert(highlight_outcome(buf@, g, matcher_spec(highlight_re), models(out@)));
            }
            out
        },
    };
    proof {
        assert(highlight_outcome(buf@, g, matcher_spec(highlight_re), models(lms@)));
    }
    let max = match effective_max {
        Some(m) => Some(m),
        None => args.max_count,
    };
    let ghost hl = models(lms@);
    let res = finish_search(lms, &starts, args.invert_match, max, args.passthru);
    proof {
        crate::lines::lemma_line_starts(buf@);
        crate::lines::lemma_line_count_bound(buf@);
        lemma_group_order(buf@, all_matches@, all_matches@.len() as int);
        assert(lines_in_order(hl)) by {
            assert forall|i: int, j: int| 0 <= i < j < hl.len() implies hl[i].line_number < hl[j].line_number by {
                assert(hl[i].line_number == g[i].line_number);
                assert(hl[j].line_number == g[j].line_number);
            }
        }
        assert(agrees_with_table(hl, starts@)) by {
            assert forall|i: int| 0 <= i < hl.len() implies {
                &&& (#[trigger] hl[i]).line_number < starts@.len()
                &&& hl[i].line_start == starts@[hl[i].line_number as int]
            } by {
                assert(hl[i].line_number == g[i].line_number);
            }
        }
        lemma_final_order(hl, starts@, args.invert_match, max, args.passthru);
        lemma_final_in_line(buf@, hl, args.invert_match, max, args.passthru);
    }
    res
}

/// Whether any of the `--not` patterns matches somewhere in `buf`; a pattern
/// on which the engine gives up counts as not matching. On an empty buffer the
/// engine always answers, so there the result is exact.
pub fn any_not_matches(not_res: &[Matcher], buf: &[u8]) -> (found: bool)
    ensures
        found ==> exists|i: int| 0 <= i < not_res@.len()
            && regex_is_match(not_res@[i].pattern(), not_res@[i].capacity(), buf@),
        (forall|i: int| 0 <= i < not_res@.len()
            ==> !regex_is_match(#[trigger] not_res@[i].pattern(), not_res@[i].capacity(), buf@)) ==> !found,
        buf@.len() == 0 ==> (found <==> exists|i: int| 0 <= i < not_res@.len()
            && #[trigger] regex_is_match(not_res@[i].pattern(), not_res@[i].capacity(), buf@)),
{
    let mut i: usize = 0;
    while i < not_res.len()
        invariant
            i <= not_res@.len(),
            buf@.len() == 0 ==> forall|j: int| 0 <= j < i
                ==> !regex_is_match(#[trigger] not_res@[j].pattern(), not_res@[j].capacity(), buf@),
        decreases not_res@.len() - i,
    {
        if let Some(true) = not_res[i].is_match(buf) {
            return true;
        }
        i = i + 1;
    }
    false
}

} // verus!
