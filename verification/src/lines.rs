//! Lines of a byte buffer: where they start, where they end, and how many there are.
use vstd::prelude::*;

use crate::engine::{count_byte, count_byte_occurrences, find_byte};

verus! {

/// Offsets at which the lines of `buf` start, as seen after reading its first
/// `n` bytes: offset 0, then every position right after a newline that is not
/// the last byte of the buffer.
pub open spec fn line_starts_upto(buf: Seq<u8>, n: int) -> Seq<usize>
    decreases n,
{
    if n <= 0 {
        seq![0usize]
    } else if buf[n - 1] == 10u8 && n < buf.len() {
        line_starts_upto(buf, n - 1).push(n as usize)
    } else {
        line_starts_upto(buf, n - 1)
    }
}

/// The start offset of every line of `buf`.
pub open spec fn line_starts(buf: Seq<u8>) -> Seq<usize> {
    line_starts_upto(buf, buf.len() as int)
}

/// `s` is sorted in strictly increasing order.
pub open spec fn strictly_increasing(s: Seq<usize>) -> bool {
    forall|i: int, j: int| 0 <= i < j < s.len() ==> s[i] < s[j]
}

/// A table of line starts as `build_line_index` produces it for a buffer of
/// `len` bytes: it begins with 0, rises strictly, and stays within the buffer.
pub open spec fn valid_line_table(starts: Seq<usize>, len: int) -> bool {
    &&& starts.len() >= 1
    &&& starts[0] == 0
    &&& strictly_increasing(starts)
    &&& forall|k: int| 0 <= k < starts.len() ==> #[trigger] starts[k] <= len
}

proof fn lemma_line_starts_upto(buf: Seq<u8>, n: int)
    requires
        0 <= n <= buf.len(),
        buf.len() <= usize::MAX,
    ensures
        valid_line_table(line_starts_upto(buf, n), n),
        forall|k: int| 0 < k < line_starts_upto(buf, n).len() ==> {
            let p = #[trigger] line_starts_upto(buf, n)[k];
            &&& 0 < p < buf.len()
            &&& buf[p - 1] == 10u8
        },
        forall|i: int| 0 <= i < n && i + 1 < buf.len() && buf[i] == 10u8
            ==> line_starts_upto(buf, n).contains((i + 1) as usize),
    decreases n,
{
    if n > 0 {
        lemma_line_starts_upto(buf, n - 1);
        let prev = line_starts_upto(buf, n - 1);
        if buf[n - 1] == 10u8 && n < buf.len() {
            let cur = prev.push(n as usize);
            assert forall|i: int| 0 <= i < n && i + 1 < buf.len() && buf[i] == 10u8
                implies cur.contains((i + 1) as usize) by {
                if i < n - 1 {
                    let w = choose|w: int| 0 <= w < prev.len() && prev[w] == (i + 1) as usize;
                    assert(cur[w] == (i + 1) as usize);
                } else {
                    assert(cur[cur.len() - 1] == (i + 1) as usize);
                }
            }
        }
    }
}

/// The line table of a buffer is valid, and its entries after the first are
/// exactly the positions right after a newline that is not the final byte.
pub proof fn lemma_line_starts(buf: Seq<u8>)
    requires
        buf.len() <= usize::MAX,
    ensures
        valid_line_table(line_starts(buf), buf.len() as int),
        forall|k: int| 0 < k < line_starts(buf).len() ==> {
            let p = #[trigger] line_starts(buf)[k];
            &&& 0 < p < buf.len()
            &&& buf[p - 1] == 10u8
        },
        forall|i: int| 0 <= i && i + 1 < buf.len() && buf[i] == 10u8
            ==> line_starts(buf).contains((i + 1) as usize),
{
    lemma_line_starts_upto(buf, buf.len() as int);
}

proof fn lemma_increasing_at_least_index(s: Seq<usize>, k: int)
    requires
        strictly_increasing(s),
        0 <= k < s.len(),
    ensures
        s[k] >= k,
    decreases k,
{
    if k > 0 {
        lemma_increasing_at_least_index(s, k - 1);
    }
}

/// A buffer has at most as many lines as bytes (and one line when empty).
pub proof fn lemma_line_count_bound(buf: Seq<u8>)
    requires
        buf.len() <= usize::MAX,
    ensures
        line_starts(buf).len() <= if buf.len() == 0 { 1 } else { buf.len() },
{
    lemma_line_starts(buf);
    let s = line_starts(buf);
    if s.len() > 1 {
        lemma_increasing_at_least_index(s, s.len() - 1);
        assert(s[s.len() - 1] < buf.len());
    }
}

/// Returns the byte offset at which each line of `buf` starts.
/// The first line always starts at 0; a newline that ends the buffer opens no new line.
pub fn build_line_index(buf: &[u8]) -> (starts: Vec<usize>)
    ensures
        starts@ == line_starts(buf@),
        valid_line_table(starts@, buf@.len() as int),
{
    let mut starts: Vec<usize> = Vec::new();
    starts.push(0);
    let mut i: usize = 0;
    while i < buf.len()
        invariant
            i <= buf.len(),
            starts@ == line_starts_upto(buf@, i as int),
        decreases buf.len() - i,
    {
        if buf[i] == 10u8 && i + 1 < buf.len() {
            starts.push(i + 1);
        }
        i = i + 1;
    }
    proof {
        lemma_line_starts(buf@);
    }
    starts
}

/// The last index among the first `n` entries of `starts` whose offset is at
/// most `offset` (0 when there is none).
pub open spec fn last_start_at_most(starts: Seq<usize>, offset: int, n: int) -> int
    decreases n,
{
    if n <= 1 {
        0
    } else if starts[n - 1] <= offset {
        n - 1
    } else {
        last_start_at_most(starts, offset, n - 1)
    }
}

/// The index of the line that holds byte `offset`.
pub open spec fn line_of(starts: Seq<usize>, offset: int) -> int {
    last_start_at_most(starts, offset, starts.len() as int)
}

proof fn lemma_last_start_at_most(starts: Seq<usize>, offset: int, n: int)
    requires
        1 <= n <= starts.len(),
        strictly_increasing(starts),
        starts[0] <= offset,
    ensures
        0 <= last_start_at_most(starts, offset, n) < n,
        starts[last_start_at_most(starts, offset, n)] <= offset,
        last_start_at_most(starts, offset, n) + 1 < n
            ==> offset < starts[last_start_at_most(starts, offset, n) + 1],
    decreases n,
{
    if n > 1 && starts[n - 1] > offset {
        lemma_last_start_at_most(starts, offset, n - 1);
    }
}

/// In a valid line table, `line_of` is the one index whose line holds `offset`.
pub proof fn lemma_line_of(starts: Seq<usize>, len: int, offset: int)
    requires
        valid_line_table(starts, len),
        0 <= offset,
    ensures
        0 <= line_of(starts, offset) < starts.len(),
        starts[line_of(starts, offset)] <= offset,
        line_of(starts, offset) + 1 < starts.len() ==> offset < starts[line_of(starts, offset) + 1],
        forall|r: int| 0 <= r < starts.len() && #[trigger] starts[r] <= offset
            && (r + 1 < starts.len() ==> offset < starts[r + 1]) ==> r == line_of(starts, offset),
{
    lemma_last_start_at_most(starts, offset, starts.len() as int);
    let l = line_of(starts, offset);
    assert forall|r: int| 0 <= r < starts.len() && #[trigger] starts[r] <= offset
        && (r + 1 < starts.len() ==> offset < starts[r + 1]) implies r == l by {
        if r < l {
            assert(starts[r + 1] <= starts[l]);
        } else if l < r {
            assert(starts[l + 1] <= starts[r]);
        }
    }
}

/// Lines are numbered in the order of their offsets.
pub proof fn lemma_line_of_monotonic(starts: Seq<usize>, len: int, a: int, b: int)
    requires
        valid_line_table(starts, len),
        0 <= a <= b,
    ensures
        line_of(starts, a) <= line_of(starts, b),
{
    lemma_line_of(starts, len, a);
    lemma_line_of(starts, len, b);
    let la = line_of(starts, a);
    let lb = line_of(starts, b);
    if lb < la {
        assert(starts[lb + 1] <= starts[la]);
    }
}

/// The index of the line that holds byte `offset`, found by binary search.
pub fn offset_to_line(line_starts: &[usize], offset: usize) -> (line: usize)
    requires
        valid_line_table(line_starts@, line_starts@.last() as int),
    ensures
        line == line_of(line_starts@, offset as int),
{
    proof {
        lemma_line_of(line_starts@, line_starts@.last() as int, offset as int);
    }
    let mut lo: usize = 0;
    let mut hi: usize = line_starts.len();
    while hi - lo > 1
        invariant
            valid_line_table(line_starts@, line_starts@.last() as int),
            0 <= lo < hi <= line_starts@.len(),
            line_starts@[lo as int] <= offset,
            hi < line_starts@.len() ==> offset < line_starts@[hi as int],
        decreases hi - lo,
    {
        let mid = lo + (hi - lo) / 2;
        if line_starts[mid] <= offset {
            lo = mid;
        } else {
            hi = mid;
        }
    }
    lo
}

/// The offset of the first newline at or after `i`, or the length of `buf` when there is none.
pub open spec fn next_newline(buf: Seq<u8>, i: int) -> int
    decreases buf.len() - i,
{
    if i >= buf.len() {
        buf.len() as int
    } else if buf[i] == 10u8 {
        i
    } else {
        next_newline(buf, i + 1)
    }
}

pub proof fn lemma_next_newline(buf: Seq<u8>, i: int)
    requires
        0 <= i <= buf.len(),
    ensures
        i <= next_newline(buf, i) <= buf.len(),
        next_newline(buf, i) < buf.len() ==> buf[next_newline(buf, i)] == 10u8,
        forall|j: int| i <= j < next_newline(buf, i) ==> buf[j] != 10u8,
    decreases buf.len() - i,
{
    if i < buf.len() && buf[i] != 10u8 {
        lemma_next_newline(buf, i + 1);
    }
}

proof fn lemma_next_newline_is_first(buf: Seq<u8>, i: int, p: int)
    requires
        0 <= i <= p <= buf.len(),
        p < buf.len() ==> buf[p] == 10u8,
        forall|j: int| i <= j < p ==> buf[j] != 10u8,
    ensures
        next_newline(buf, i) == p,
    decreases p - i,
{
    if i < p {
        lemma_next_newline_is_first(buf, i + 1, p);
    }
}

/// The offset at which the line starting at `line_start` ends (its newline, or the end of `buf`).
pub fn line_end(buf: &[u8], line_start: usize) -> (end: usize)
    requires
        line_start <= buf@.len(),
    ensures
        end == next_newline(buf@, line_start as int),
        line_start <= end <= buf@.len(),
{
    let rest = &buf[line_start..buf.len()];
    let end = match find_byte(10u8, rest) {
        Some(pos) => line_start + pos,
        None => buf.len(),
    };
    proof {
        assert forall|j: int| line_start <= j < end implies buf@[j] != 10u8 by {
            assert(buf@[j] == rest@[j - line_start]);
        }
        if end < buf@.len() {
            assert(buf@[end as int] == rest@[end - line_start]);
        }
        lemma_next_newline_is_first(buf@, line_start as int, end as int);
    }
    end
}

/// The bytes of line `idx`, from its start to the start of the next line.
pub open spec fn raw_line(buf: Seq<u8>, starts: Seq<usize>, idx: int) -> Seq<u8> {
    let end = if idx + 1 < starts.len() { starts[idx + 1] as int } else { buf.len() as int };
    buf.subrange(starts[idx] as int, end)
}

/// `line` without its line terminator (`\r\n` or `\n`).
pub open spec fn strip_line_end(line: Seq<u8>) -> Seq<u8> {
    if line.len() >= 2 && line[line.len() - 2] == 13u8 && line[line.len() - 1] == 10u8 {
        line.take(line.len() - 2)
    } else if line.len() >= 1 && line[line.len() - 1] == 10u8 {
        line.take(line.len() - 1)
    } else {
        line
    }
}

/// The text of line `idx` of `buf`, without its line terminator.
pub open spec fn line_text(buf: Seq<u8>, starts: Seq<usize>, idx: int) -> Seq<u8> {
    strip_line_end(raw_line(buf, starts, idx))
}

/// Returns the text of line `line_idx`, without its `\n` or `\r\n`.
pub fn get_line<'a>(buf: &'a [u8], line_starts: &[usize], line_idx: usize) -> (line: &'a [u8])
    requires
        valid_line_table(line_starts@, buf@.len() as int),
        line_idx < line_starts@.len(),
    ensures
        line@ == line_text(buf@, line_starts@, line_idx as int),
{
    let start = line_starts[line_idx];
    let end = if line_idx + 1 < line_starts.len() {
        line_starts[line_idx + 1]
    } else {
        buf.len()
    };
    let line = &buf[start..end];
    let n = line.len();
    if n >= 2 && line[n - 2] == 13u8 && line[n - 1] == 10u8 {
        &line[0..n - 2]
    } else if n >= 1 && line[n - 1] == 10u8 {
        &line[0..n - 1]
    } else {
        line
    }
}

/// The number of lines in `buf`: none when it is empty, and a final line
/// without a newline counts as a line.
pub open spec fn line_count(buf: Seq<u8>) -> nat {
    if buf.len() == 0 {
        0
    } else if buf.last() == 10u8 {
        count_byte(buf, 10u8)
    } else {
        count_byte(buf, 10u8) + 1
    }
}

/// Counts the lines of `buf`.
pub fn count_lines(buf: &[u8]) -> (n: usize)
    ensures
        n == line_count(buf@),
{
    if buf.len() == 0 {
        return 0;
    }
    let newlines = count_byte_occurrences(10u8, buf);
    if buf[buf.len() - 1] == 10u8 {
        newlines
    } else {
        proof {
            lemma_count_byte_bound(buf@, 10u8);
            assert(buf@.last() != 10u8);
            assert(count_byte(buf@.drop_last(), 10u8) == count_byte(buf@, 10u8));
            lemma_count_byte_bound(buf@.drop_last(), 10u8);
        }
        newlines + 1
    }
}

pub proof fn lemma_count_byte_bound(s: Seq<u8>, b: u8)
    ensures
        count_byte(s, b) <= s.len(),
    decreases s.len(),
{
    if s.len() > 0 {
        lemma_count_byte_bound(s.drop_last(), b);
    }
}

/// How many bytes at the head of a buffer are examined for a NUL byte.
pub const BINARY_PROBE_LEN: usize = 8192;

/// A buffer looks binary when a NUL byte occurs among its first `BINARY_PROBE_LEN` bytes.
pub open spec fn looks_binary(buf: Seq<u8>) -> bool {
    exists|i: int| 0 <= i < buf.len() && i < BINARY_PROBE_LEN && buf[i] == 0u8
}

/// Whether `buf` looks binary.
pub fn is_binary(buf: &[u8]) -> (b: bool)
    ensures
        b == looks_binary(buf@),
{
    let check_len = if buf.len() < BINARY_PROBE_LEN { buf.len() } else { BINARY_PROBE_LEN };
    let head = &buf[0..check_len];
    let found = find_byte(0u8, head);
    proof {
        if let Some(i) = found {
            assert(buf@[i as int] == head@[i as int]);
        } else {
            assert forall|i: int| 0 <= i < buf@.len() && i < BINARY_PROBE_LEN implies buf@[i] != 0u8 by {
                assert(buf@[i] == head@[i]);
            }
        }
    }
    found.is_some()
}

} // verus!
