//! Cutting an output stream to a window of lines (`--offset`, `--head`).
use vstd::prelude::*;

use crate::engine::count_byte;

verus! {

/// The offset just after the `k`-th newline of `data` (a `k` of 0 counts as 1),
/// or the length of `data` when it has fewer newlines.
pub open spec fn nth_newline_end(data: Seq<u8>, k: int) -> int
    decreases data.len(),
{
    if data.len() == 0 {
        0
    } else if data[0] == 10u8 {
        if k <= 1 {
            1
        } else {
            1 + nth_newline_end(data.drop_first(), k - 1)
        }
    } else {
        1 + nth_newline_end(data.drop_first(), k)
    }
}

/// Counting a byte from the front gives the same as counting from the back.
pub proof fn lemma_count_byte_first(s: Seq<u8>, b: u8)
    requires
        s.len() > 0,
    ensures
        count_byte(s, b) == count_byte(s.drop_first(), b) + if s[0] == b { 1nat } else { 0nat },
    decreases s.len(),
{
    if s.len() > 1 {
        lemma_count_byte_first(s.drop_last(), b);
        assert(s.drop_last().drop_first() =~= s.drop_first().drop_last());
    } else {
        assert(s.drop_first() =~= s.drop_last());
    }
}

pub proof fn lemma_count_byte_append(s: Seq<u8>, t: Seq<u8>, b: u8)
    ensures
        count_byte(s + t, b) == count_byte(s, b) + count_byte(t, b),
    decreases t.len(),
{
    if t.len() > 0 {
        lemma_count_byte_append(s, t.drop_last(), b);
        assert((s + t).drop_last() =~= s + t.drop_last());
    } else {
        assert(s + t =~= s);
    }
}

/// What `nth_newline_end` cuts off: a prefix that holds `min(k, all)` newlines
/// (with `k` at least 1) and, when it stops at a newline, ends right after it.
pub proof fn lemma_nth_newline_end(data: Seq<u8>, k: int)
    ensures
        0 <= nth_newline_end(data, k) <= data.len(),
        data.len() > 0 ==> nth_newline_end(data, k) >= 1,
        count_byte(data.take(nth_newline_end(data, k)), 10u8)
            == if count_byte(data, 10u8) < (if k < 1 { 1 } else { k }) { count_byte(data, 10u8) as int } else { if k < 1 { 1 } else { k } },
        nth_newline_end(data, k) < data.len() ==> data[nth_newline_end(data, k) - 1] == 10u8,
        count_byte(data, 10u8) >= (if k < 1 { 1 } else { k }) ==> nth_newline_end(data, k) >= 1 && data[nth_newline_end(data, k) - 1] == 10u8,
    decreases data.len(),
{
    if data.len() > 0 {
        let rest = data.drop_first();
        lemma_count_byte_first(data, 10u8);
        let e = nth_newline_end(data, k);
        let p = data.take(e);
        if data[0] == 10u8 && k <= 1 {
            assert(p.drop_first() =~= Seq::<u8>::empty());
            lemma_count_byte_first(p, 10u8);
        } else {
            let k2 = if data[0] == 10u8 { k - 1 } else { k };
            lemma_nth_newline_end(rest, k2);
            assert(p.drop_first() =~= rest.take(nth_newline_end(rest, k2)));
            lemma_count_byte_first(p, 10u8);
            if e >= 2 {
                assert(data[e - 1] == rest[e - 2]);
            }
        }
    } else {
        assert(data.take(0) =~= data);
    }
}

/// Returns the byte offset just after the `n`th newline in `data`, or
/// `data.len()` if there are fewer than `n` newlines. (For `n` of 0 it is the
/// offset after the first newline.)
pub fn find_nth_newline(data: &[u8], n: usize) -> (pos: usize)
    ensures
        pos == nth_newline_end(data@, n as int),
{
    let mut count: usize = 0;
    let mut i: usize = 0;
    assert(data@.skip(0) =~= data@);
    while i < data.len()
        invariant
            i <= data@.len(),
            count <= i,
            count < n || (n == 0 && count == 0),
            nth_newline_end(data@, n as int) == i + nth_newline_end(data@.skip(i as int), n - count),
        decreases data@.len() - i,
    {
        assert(data@.skip(i as int).drop_first() =~= data@.skip(i + 1));
        assert(data@.skip(i as int)[0] == data@[i as int]);
        if data[i] == 10u8 {
            count = count + 1;
            if count >= n {
                return i + 1;
            }
        }
        i = i + 1;
    }
    assert(data@.skip(i as int).len() == 0);
    data.len()
}

/// Counts the newlines of `data`.
pub fn count_newlines(data: &[u8]) -> (n: usize)
    ensures
        n == count_byte(data@, 10u8),
{
    let mut n: usize = 0;
    let mut i: usize = 0;
    while i < data.len()
        invariant
            i <= data@.len(),
            n == count_byte(data@.take(i as int), 10u8),
            n <= i,
        decreases data@.len() - i,
    {
        assert(data@.take(i + 1).drop_last() =~= data@.take(i as int));
        if data[i] == 10u8 {
            n = n + 1;
        }
        i = i + 1;
    }
    assert(data@.take(i as int) =~= data@);
    n
}

/// What `paginate_chunk` does to one chunk: the part to write (if any), whether
/// the head limit cut it, and the offset and head budgets left afterwards.
pub open spec fn paginate_spec(output: Seq<u8>, offset: usize, head: Option<usize>) -> (Option<(int, int)>, bool, usize, Option<usize>) {
    let file_lines = count_byte(output, 10u8) as int;
    if offset > 0 && file_lines <= offset {
        (None, false, (offset - file_lines) as usize, head)
    } else {
        let skip_to = if offset > 0 { nth_newline_end(output, offset as int) } else { 0 };
        let rest_lines = if offset > 0 { file_lines - offset } else { file_lines };
        let rest = output.skip(skip_to);
        match head {
            None => (Some((skip_to, output.len() as int)), false, 0usize, None),
            Some(r) => if r == 0 {
                (None, rest_lines > 0, 0usize, Some(0usize))
            } else if rest_lines <= r {
                (Some((skip_to, output.len() as int)), false, 0usize, Some((r - rest_lines) as usize))
            } else {
                (Some((skip_to, skip_to + nth_newline_end(rest, r as int))), true, 0usize, Some(0usize))
            },
        }
    }
}

/// Applies offset/head pagination to one output chunk.
///
/// Updates `offset_remaining` and `head_remaining` in place. Returns the slice
/// to write (`None` means skip the chunk entirely) and whether the head limit
/// truncated it.
pub fn paginate_chunk<'a>(output: &'a [u8], offset_remaining: &mut usize, head_remaining: &mut Option<usize>) -> (res: (Option<&'a [u8]>, bool))
    ensures
        ({
            let (part, truncated, off, head) = paginate_spec(output@, *old(offset_remaining), *old(head_remaining));
            &&& res.1 == truncated
            &&& *final(offset_remaining) == off
            &&& *final(head_remaining) == head
            &&& match part {
                None => res.0 is None,
                Some((a, b)) => res.0 matches Some(s) && s@ == output@.subrange(a, b),
            }
        }),
{
    let file_lines = count_newlines(output);
    let mut rest: &'a [u8] = output;
    let mut rest_lines = file_lines;
    let ghost skip_to: int = 0;
    if *offset_remaining > 0 {
        if file_lines <= *offset_remaining {
            *offset_remaining = *offset_remaining - file_lines;
            return (None, false);
        }
        let skip = find_nth_newline(output, *offset_remaining);
        proof {
            lemma_nth_newline_end(output@, *offset_remaining as int);
        }
        let skipped = count_newlines(&output[0..skip]);
        *offset_remaining = 0;
        rest = &output[skip..output.len()];
        rest_lines = file_lines - skipped;
        proof {
            skip_to = skip as int;
        }
    }
    assert(rest@ == output@.skip(skip_to));
    match head_remaining {
        None => (Some(rest), false),
        Some(remaining) => {
            if *remaining == 0 {
                return (None, rest_lines > 0);
            }
            if rest_lines <= *remaining {
                *remaining = *remaining - rest_lines;
                (Some(rest), false)
            } else {
                let cut = find_nth_newline(rest, *remaining);
                proof {
                    lemma_nth_newline_end(rest@, *remaining as int);
                }
                *remaining = 0;
                (Some(&rest[0..cut]), true)
            }
        },
    }
}

} // verus!
