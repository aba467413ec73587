//! Properties of the library as a whole: how its functions relate to one
//! another, and what holds of every result.
use vstd::prelude::*;

use crate::args::{
    left_of, match_limit,
    base_words, excluded, excluded_upto, fixed_words_of, highlight_pattern, nots_applied, resolved,
    scope_applied, scope_of, words_pattern, wrapped, wrapped_all, Args, highlight_terms, union_of,
};
use crate::engine::{count_byte, regex_find_all, Matcher};
use crate::lines::{line_count, line_starts, line_starts_upto, line_text};
use crate::printer::{
    digit_count, file_mode_pieces, heading_pieces, json_output, json_upto, line_part, match_record, number_bytes,
    prefix_pieces, prefix_width_of, saturated, text_output, text_upto, utf8, min_of, unique_key, Paint, PrinterOpts,
    RecordModel, before_context, leading_part, results_output, sat_sub, utf8_lossy,
};
use crate::engine::escaped;
use crate::text::{decimal, digit_char};
use crate::paginate::{lemma_count_byte_append, lemma_nth_newline_end, nth_newline_end, paginate_spec};
use crate::search::{
    highlight_outcome, is_final_result, kept_count, lines_of_matches, matcher_spec, models,
    passthru_lines, reports_line, search_outcome, unreported_lines, LineModel, SearchResult,
};

verus! {

proof fn lemma_starts_count(buf: Seq<u8>, n: int)
    requires
        0 <= n < buf.len(),
    ensures
        line_starts_upto(buf, n).len() == 1 + count_byte(buf.take(n), 10u8),
    decreases n,
{
    if n > 0 {
        lemma_starts_count(buf, n - 1);
        assert(buf.take(n).drop_last() =~= buf.take(n - 1));
    } else {
        assert(buf.take(0) =~= Seq::<u8>::empty());
    }
}

/// The number of lines that `count_lines` gives a non-empty buffer is the
/// number of entries of its line index (`build_line_index`).
pub proof fn law_line_count_is_index_len(buf: Seq<u8>)
    requires
        buf.len() > 0,
    ensures
        line_count(buf) == line_starts(buf).len(),
{
    lemma_starts_count(buf, buf.len() - 1);
    assert(buf.take(buf.len() - 1) =~= buf.drop_last());
}


/// The lines that the pattern of a search matches, before highlighting,
/// inverting or limiting.
pub open spec fn matched_lines(re: &Matcher, buf: Seq<u8>) -> Seq<LineModel> {
    lines_of_matches(buf, regex_find_all(re.pattern(), re.capacity(), buf))
}

/// With `--invert-match`, a search reports exactly the lines of the buffer on
/// which the pattern has no match, in increasing order.
pub proof fn law_invert_reports_unmatched(
    re: &Matcher,
    highlight_re: Option<&Matcher>,
    buf: Seq<u8>,
    args: &Args,
    effective_max: Option<usize>,
    sr: &SearchResult,
)
    requires
        search_outcome(re, highlight_re, buf, args, effective_max, sr),
        args.invert_match,
        !sr.had_error,
        buf.len() > 0,
        buf.len() <= usize::MAX,
    ensures
        forall|k: int| 0 <= k < line_starts(buf).len() ==>
            (reports_line(models(sr.matches@), k) <==> !reports_line(matched_lines(re, buf), k)),
        forall|k: int| reports_line(models(sr.matches@), k) ==> 0 <= k < line_starts(buf).len(),
        forall|i: int, j: int| 0 <= i < j < sr.matches@.len() ==> sr.matches@[i].line_number < sr.matches@[j].line_number,
{
    let g = matched_lines(re, buf);
    let starts = line_starts(buf);
    crate::lines::lemma_line_count_bound(buf);
    let h = choose|h: Seq<LineModel>| {
        &&& highlight_outcome(buf, g, matcher_spec(highlight_re), h)
        &&& is_final_result(sr, h, starts, args.invert_match,
            match effective_max { Some(m) => Some(m), None => args.max_count }, args.passthru)
    };
    crate::search::lemma_unreported(h, starts, starts.len() as int);
    let inv = unreported_lines(h, starts, starts.len() as int);
    assert(models(sr.matches@) == inv);
    assert forall|k: int| reports_line(h, k) <==> reports_line(g, k) by {
        if reports_line(h, k) {
            let w = choose|w: int| 0 <= w < h.len() && h[w].line_number == k;
            assert(g[w].line_number == k);
        }
        if reports_line(g, k) {
            let w = choose|w: int| 0 <= w < g.len() && g[w].line_number == k;
            assert(h[w].line_number == k);
        }
    }
    assert forall|k: int| 0 <= k < starts.len() implies
        (reports_line(models(sr.matches@), k) <==> !reports_line(g, k)) by {
        assert(reports_line(inv, k) <==> 0 <= k < starts.len() && !reports_line(h, k));
    }
    assert forall|k: int| reports_line(models(sr.matches@), k) implies 0 <= k < starts.len() by {
        assert(reports_line(inv, k));
    }
    assert forall|i: int, j: int| 0 <= i < j < sr.matches@.len() implies sr.matches@[i].line_number < sr.matches@[j].line_number by {
        assert(models(sr.matches@)[i] == sr.matches@[i].deep_view());
        assert(models(sr.matches@)[j] == sr.matches@[j].deep_view());
    }
}

/// Without `--invert-match`, a search reports no more lines than its limit
/// (the given one, else `--max-count`), and its count is the number of
/// lines kept; with `--passthru` every line of the buffer is listed once, in
/// order, and the count is still that of the matched lines kept.
pub proof fn law_limit_and_passthru(
    re: &Matcher,
    highlight_re: Option<&Matcher>,
    buf: Seq<u8>,
    args: &Args,
    effective_max: Option<usize>,
    sr: &SearchResult,
)
    requires
        search_outcome(re, highlight_re, buf, args, effective_max, sr),
        !args.invert_match,
        !sr.had_error,
        buf.len() > 0,
        buf.len() <= usize::MAX,
    ensures
        ({
            let limit = match effective_max { Some(m) => Some(m), None => args.max_count };
            &&& limit matches Some(m) ==> sr.match_count <= m
            &&& sr.match_count <= matched_lines(re, buf).len()
            &&& !args.passthru ==> sr.matches@.len() == sr.match_count
            &&& args.passthru ==> {
                &&& sr.matches@.len() == line_starts(buf).len()
                &&& forall|i: int| 0 <= i < sr.matches@.len() ==> #[trigger] sr.matches@[i].line_number == i
            }
        }),
{
    let g = matched_lines(re, buf);
    let starts = line_starts(buf);
    let limit = match effective_max { Some(m) => Some(m), None => args.max_count };
    let h = choose|h: Seq<LineModel>| {
        &&& highlight_outcome(buf, g, matcher_spec(highlight_re), h)
        &&& is_final_result(sr, h, starts, args.invert_match, limit, args.passthru)
    };
    let kept = h.take(kept_count(h.len() as int, limit));
    assert(models(sr.matches@).len() == sr.matches@.len());
    if args.passthru {
        crate::lines::lemma_line_count_bound(buf);
        assert(models(sr.matches@) == passthru_lines(kept, starts));
        assert forall|i: int| 0 <= i < sr.matches@.len() implies #[trigger] sr.matches@[i].line_number == i by {
            assert(models(sr.matches@)[i] == sr.matches@[i].deep_view());
            assert(passthru_lines(kept, starts)[i] == crate::search::passthru_line(kept, starts, i));
            assert((i as usize) as int == i);
        }
    }
}

/// Paginating a chunk of output with `n` lines: the offset budget skips
/// `min(offset, n)` of them, and of the rest at most the head budget is
/// written, as whole lines (the written part ends at a newline or at the end
/// of the chunk); each budget goes down by what it used, and the chunk
/// counts as truncated exactly when the head limit left lines out.
pub proof fn law_paginate_accounting(output: Seq<u8>, offset: usize, head: Option<usize>)
    ensures
        ({
            let (part, truncated, off, hd) = paginate_spec(output, offset, head);
            let n = count_byte(output, 10u8) as int;
            let skipped = min_of(offset as int, n);
            let left = n - skipped;
            let written = match head { Some(r) => min_of(r as int, left), None => left };
            &&& off == offset - skipped
            &&& hd == match head { Some(r) => Some((r - written) as usize), None => None::<usize> }
            &&& truncated == (written < left)
            &&& match part {
                Some((a, b)) => {
                    &&& 0 <= a <= b <= output.len()
                    &&& count_byte(output.subrange(a, b), 10u8) == written
                    &&& (b == output.len() || output[b - 1] == 10u8)
                },
                None => written == 0,
            }
        }),
{
    let n = count_byte(output, 10u8) as int;
    if offset > 0 && n <= offset {
        return;
    }
    let skip_to = if offset > 0 { nth_newline_end(output, offset as int) } else { 0 };
    if offset > 0 {
        lemma_nth_newline_end(output, offset as int);
    }
    assert(output.take(0) =~= Seq::<u8>::empty());
    let rest = output.skip(skip_to);
    assert(output.take(skip_to) + rest =~= output);
    lemma_count_byte_append(output.take(skip_to), rest, 10u8);
    assert(output.subrange(skip_to, output.len() as int) =~= rest);
    match head {
        None => {},
        Some(r) => {
            if r > 0 && n - min_of(offset as int, n) > r {
                lemma_nth_newline_end(rest, r as int);
                let e = nth_newline_end(rest, r as int);
                assert(output.subrange(skip_to, skip_to + e) =~= rest.take(e));
                if skip_to + e < output.len() {
                    assert(output[skip_to + e - 1] == rest[e - 1]);
                }
            }
        },
    }
}

/// `a1` and `a2` shape terms alike: they agree on every option that
/// `wrapped` reads, and on the exclusions and the near distance.
pub open spec fn same_shaping(a1: &Args, a2: &Args) -> bool {
    &&& a1.fixed_strings == a2.fixed_strings
    &&& a1.raw == a2.raw
    &&& a1.word_regexp == a2.word_regexp
    &&& a1.line_regexp == a2.line_regexp
    &&& a1.case_sensitive == a2.case_sensitive
    &&& a1.ignore_case == a2.ignore_case
    &&& a1.smart_case == a2.smart_case
    &&& a1.exclude_match == a2.exclude_match
    &&& a1.not == a2.not
    &&& a1.near == a2.near
}

proof fn lemma_shaping(a1: &Args, a2: &Args, c: Seq<char>, n: int)
    requires
        same_shaping(a1, a2),
        scope_of(a1) == scope_of(a2),
    ensures
        forall|p: Seq<char>, w: Option<Seq<char>>| #[trigger] wrapped(a1, p, w) == wrapped(a2, p, w),
        forall|ps: Seq<Seq<char>>, w: Option<Seq<char>>| #[trigger] wrapped_all(a1, ps, w) == wrapped_all(a2, ps, w),
        excluded_upto(a1, c, n) == excluded_upto(a2, c, n),
    decreases n,
{
    assert forall|p: Seq<char>, w: Option<Seq<char>>| #[trigger] wrapped(a1, p, w) == wrapped(a2, p, w) by {}
    assert forall|ps: Seq<Seq<char>>, w: Option<Seq<char>>| #[trigger] wrapped_all(a1, ps, w) == wrapped_all(a2, ps, w) by {
        assert(wrapped_all(a1, ps, w) =~= wrapped_all(a2, ps, w));
    }
    if n > 0 {
        lemma_shaping(a1, a2, c, n - 1);
    }
}

/// `-p word` is shorthand for `--scope paragraph -a word`: without a base
/// pattern (positional, `-e` or `-f`), the two ask for the same search
/// pattern, the same `--not` filters and the same highlighting, whatever
/// else the options say.
pub proof fn law_paragraph_shorthand(a1: &Args, a2: &Args, files: Seq<Result<String, String>>)
    requires
        a1.pattern is None,
        a1.regexp@.len() == 0,
        a1.pattern_file@.len() == 0,
        a1.paragraphs matches Some(p) && p@.len() == 1,
        a1.and@.len() == 0,
        a1.scope is None,
        a2.paragraphs matches Some(p) ==> p@.len() == 0,
        a2.and.deep_view() == a1.paragraphs->0.deep_view(),
        a2.scope matches Some(s) && s@ == "paragraph"@,
        *a2 == (Args { paragraphs: a2.paragraphs, and: a2.and, scope: a2.scope, ..*a1 }),
    ensures
        resolved(a1, files) == resolved(a2, files),
        highlight_pattern(a1) == highlight_pattern(a2),
{
    reveal_strlit("paragraph");
    assert(scope_of(a1) == "paragraph"@);
    assert(scope_of(a2) == "paragraph"@);
    assert(same_shaping(a1, a2));
    let w1 = base_words(a1);
    let w2 = base_words(a2);
    assert(w1 =~= w2);
    assert(fixed_words_of(a1) == fixed_words_of(a2));
    lemma_shaping(a1, a2, Seq::empty(), 0);
    let fixed = fixed_words_of(a1);
    let scope = scope_of(a1);
    let single = w1.len() + fixed.len() == 1 && a1.not@.len() == 0 && scope == "line"@;
    let wild = crate::args::wild_of(scope);
    let word_terms = wrapped_all(a1, w1, if single { None } else { Some("_*"@) });
    assert(word_terms == wrapped_all(a2, w2, if single { None } else { Some("_*"@) }));
    let fixed_terms = Seq::new(fixed.len(), |i: int|
        if single { crate::engine::escaped(fixed[i]) } else { "(_*"@ + crate::engine::escaped(fixed[i]) + "_*)"@ });
    let c = crate::args::joined(word_terms + fixed_terms, "&"@);
    assert(nots_applied(a1, c, scope, wild) == nots_applied(a2, c, scope, wild));
    let (c1, file_nots) = nots_applied(a1, c, scope, wild);
    let c2 = if file_nots.len() == 0 && a1.not@.len() > 0 && scope == "line"@ { "^("@ + c1 + ")$"@ } else { c1 };
    lemma_shaping(a1, a2, c2, a1.exclude_match@.len() as int);
    assert(excluded(a1, c2) == excluded(a2, c2));
    assert(scope_applied(a1, excluded(a1, c2)) == scope_applied(a2, excluded(a2, c2)));
    assert(words_pattern(a1, w1) == words_pattern(a2, w2));
    let from_para1 = wrapped_all(a1, a1.paragraphs->0.deep_view(), None);
    let from_para2 = match a2.paragraphs {
        Some(w) => wrapped_all(a2, w.deep_view(), None),
        None => Seq::empty(),
    };
    assert(from_para2 =~= Seq::<Seq<char>>::empty());
    assert(wrapped_all(a1, a1.and.deep_view(), None) =~= Seq::<Seq<char>>::empty());
    assert(wrapped_all(a2, a2.regexp.deep_view(), None) =~= Seq::<Seq<char>>::empty());
    assert(wrapped_all(a2, a2.and.deep_view(), None) == from_para1);
}

/// The printed forms of the first `n` reported lines of `all`, one after another.
pub open spec fn lines_printed(buf: Seq<u8>, all: Seq<LineModel>, path: Option<Seq<char>>, opts: &PrinterOpts, n: int) -> Seq<(Paint, Seq<u8>)>
    decreases n,
{
    if n <= 0 {
        Seq::empty()
    } else {
        lines_printed(buf, all, path, opts, n - 1) + line_part(buf, line_starts(buf), path, opts, all[n - 1])
    }
}

proof fn lemma_text_plain(buf: Seq<u8>, all: Seq<LineModel>, path: Option<Seq<char>>, opts: &PrinterOpts, seen0: Set<Seq<u8>>, n: int)
    requires
        opts.before_ctx == 0,
        opts.after_ctx == 0,
        !opts.show_scope,
        !opts.unique,
        opts.max_columns is None,
        0 <= n <= all.len(),
    ensures
        text_upto(buf, all, path, opts, seen0, n).out == lines_printed(buf, all, path, opts, n),
        text_upto(buf, all, path, opts, seen0, n).last_scope is None,
        text_upto(buf, all, path, opts, seen0, n).seen == seen0,
    decreases n,
{
    if n > 0 {
        lemma_text_plain(buf, all, path, opts, seen0, n - 1);
    }
}

/// Without context, scope headers, `--unique` or `--max-columns`, the text
/// output for a file is its heading followed by each reported line printed
/// on its own, in the order given; nothing is printed for no lines.
pub proof fn law_text_lines_in_order(buf: Seq<u8>, all: Seq<LineModel>, path: Option<Seq<char>>, opts: &PrinterOpts, seen0: Set<Seq<u8>>)
    requires
        opts.before_ctx == 0,
        opts.after_ctx == 0,
        !opts.show_scope,
        !opts.unique,
        opts.max_columns is None,
    ensures
        all.len() == 0 ==> text_output(buf, all, path, opts, seen0).0.len() == 0,
        all.len() > 0 ==> text_output(buf, all, path, opts, seen0).0
            == heading_pieces(all, path, opts) + lines_printed(buf, all, path, opts, all.len() as int),
{
    lemma_text_plain(buf, all, path, opts, seen0, all.len() as int);
}

proof fn lemma_json_plain(buf: Seq<u8>, all: Seq<LineModel>, path: Option<Seq<char>>, opts: &PrinterOpts, seen0: Set<Seq<u8>>, n: int)
    requires
        !opts.unique,
        0 <= n <= all.len(),
    ensures
        json_upto(buf, all, path, opts, seen0, n).0.len() == n,
        forall|i: int| 0 <= i < n ==> #[trigger] json_upto(buf, all, path, opts, seen0, n).0[i]
            == RecordModel::Match(match_record(buf, line_starts(buf), all[i], path, opts)),
    decreases n,
{
    if n > 0 {
        lemma_json_plain(buf, all, path, opts, seen0, n - 1);
        let prev = json_upto(buf, all, path, opts, seen0, n - 1).0;
        let cur = json_upto(buf, all, path, opts, seen0, n).0;
        assert forall|i: int| 0 <= i < n implies #[trigger] cur[i]
            == RecordModel::Match(match_record(buf, line_starts(buf), all[i], path, opts)) by {
            if i < n - 1 {
                assert(cur[i] == prev[i]);
            }
        }
    }
}

/// Without `--unique`, and when the options ask for lines rather than file
/// names or a count, `--json` gives one record per reported line, in the
/// order given, each the record of that line.
pub proof fn law_json_one_record_per_line(buf: Seq<u8>, all: Seq<LineModel>, path: Option<Seq<char>>, opts: &PrinterOpts, seen0: Set<Seq<u8>>)
    requires
        !opts.unique,
        !opts.files_with_matches,
        !opts.files_without_match,
        !opts.count,
    ensures
        json_output(buf, all, path, opts, seen0).0.len() == all.len(),
        forall|i: int| 0 <= i < all.len() ==> #[trigger] json_output(buf, all, path, opts, seen0).0[i]
            == RecordModel::Match(match_record(buf, line_starts(buf), all[i], path, opts)),
{
    lemma_json_plain(buf, all, path, opts, seen0, all.len() as int);
}

/// For a file with a name, `-l` prints it exactly when it has reported
/// lines, and `--files-without-match` exactly when it has none.
pub proof fn law_file_modes_complementary(all: Seq<LineModel>, path: Option<Seq<char>>, opts: &PrinterOpts)
    requires
        path is Some,
        opts.files_with_matches != opts.files_without_match,
    ensures
        opts.files_with_matches ==> (file_mode_pieces(all, path, opts).len() > 0 <==> all.len() > 0),
        opts.files_without_match ==> (file_mode_pieces(all, path, opts).len() > 0 <==> all.len() == 0),
{
}

/// `--max-total`: when the total so far is within the limit and the next
/// file reports no more lines than the limit it was given, the total stays
/// within the limit (the walk's totals saturate, and never pass it here).
pub proof fn law_max_total_respected(args: &Args, total: usize, count: usize)
    requires
        args.max_total matches Some(mt) && total <= mt,
        match_limit(args, total) matches Some(l) && count <= l,
    ensures
        total + count <= args.max_total->0,
        crate::walk::sat_add(total, count) == total + count,
{
    let mt = args.max_total->0;
    assert(left_of(mt, total) == mt - total);
}

/// The key that `--unique` compares for reported line `lm` of `buf`.
pub open spec fn line_key(buf: Seq<u8>, lm: LineModel, opts: &PrinterOpts) -> Seq<u8> {
    unique_key(line_text(buf, line_starts(buf), lm.line_number as int), lm.ranges, opts)
}

/// Under `--unique`, the indices among the first `n` reported lines whose
/// key had not been seen, and the keys seen after them.
pub open spec fn unique_kept(buf: Seq<u8>, all: Seq<LineModel>, opts: &PrinterOpts, seen0: Set<Seq<u8>>, n: int) -> (Seq<int>, Set<Seq<u8>>)
    decreases n,
{
    if n <= 0 {
        (Seq::empty(), seen0)
    } else {
        let (kept, seen) = unique_kept(buf, all, opts, seen0, n - 1);
        let key = line_key(buf, all[n - 1], opts);
        if seen.contains(key) { (kept, seen) } else { (kept.push(n - 1), seen.insert(key)) }
    }
}

proof fn lemma_unique_kept(buf: Seq<u8>, all: Seq<LineModel>, path: Option<Seq<char>>, opts: &PrinterOpts, seen0: Set<Seq<u8>>, n: int)
    requires
        opts.unique,
        0 <= n <= all.len(),
    ensures
        ({
            let (kept, seen) = unique_kept(buf, all, opts, seen0, n);
            let (recs, seen_j) = json_upto(buf, all, path, opts, seen0, n);
            &&& seen_j == seen
            &&& recs.len() == kept.len()
            &&& forall|k: int| 0 <= k < kept.len() ==> #[trigger] recs[k]
                == RecordModel::Match(match_record(buf, line_starts(buf), all[kept[k]], path, opts))
            &&& forall|k: int| 0 <= k < kept.len() ==> 0 <= #[trigger] kept[k] < n
            &&& forall|i: int, j: int| 0 <= i < j < kept.len() ==> kept[i] < kept[j]
            &&& forall|i: int, j: int| 0 <= i < j < kept.len() ==>
                line_key(buf, all[kept[i]], opts) != line_key(buf, all[kept[j]], opts)
            &&& forall|k: int| 0 <= k < kept.len() ==> !seen0.contains(#[trigger] line_key(buf, all[kept[k]], opts))
            &&& forall|k: int| 0 <= k < kept.len() ==> seen.contains(#[trigger] line_key(buf, all[kept[k]], opts))
            &&& forall|i: int| 0 <= i < n ==> seen.contains(#[trigger] line_key(buf, all[i], opts))
            &&& forall|q: Seq<u8>| seen0.contains(q) ==> #[trigger] seen.contains(q)
            &&& forall|q: Seq<u8>| #[trigger] seen.contains(q) ==> seen0.contains(q) || exists|k: int| 0 <= k < kept.len() && line_key(buf, all[kept[k]], opts) == q
        }),
    decreases n,
{
    if n > 0 {
        lemma_unique_kept(buf, all, path, opts, seen0, n - 1);
        let (kept, seen) = unique_kept(buf, all, opts, seen0, n - 1);
        let (recs, _) = json_upto(buf, all, path, opts, seen0, n - 1);
        let key = line_key(buf, all[n - 1], opts);
        if !seen.contains(key) {
            let kept2 = kept.push(n - 1);
            let seen2 = seen.insert(key);
            let recs2 = json_upto(buf, all, path, opts, seen0, n).0;
            assert(recs2 == recs.push(RecordModel::Match(match_record(buf, line_starts(buf), all[n - 1], path, opts))));
            assert forall|k: int| 0 <= k < kept2.len() implies #[trigger] recs2[k]
                == RecordModel::Match(match_record(buf, line_starts(buf), all[kept2[k]], path, opts)) by {
                if k < kept.len() {
                    assert(recs2[k] == recs[k]);
                    assert(kept2[k] == kept[k]);
                }
            }
            assert forall|i: int, j: int| 0 <= i < j < kept2.len() implies
                line_key(buf, all[kept2[i]], opts) != line_key(buf, all[kept2[j]], opts) by {
                if j == kept.len() {
                    assert(kept2[i] == kept[i]);
                    assert(seen.contains(line_key(buf, all[kept[i]], opts)));
                } else {
                    assert(kept2[i] == kept[i]);
                    assert(kept2[j] == kept[j]);
                }
            }
            assert forall|q: Seq<u8>| #[trigger] seen2.contains(q) implies seen0.contains(q) || exists|k: int| 0 <= k < kept2.len() && line_key(buf, all[kept2[k]], opts) == q by {
                if q == key {
                    assert(kept2[kept.len() as int] == n - 1);
                } else if !seen0.contains(q) {
                    let k = choose|k: int| 0 <= k < kept.len() && line_key(buf, all[kept[k]], opts) == q;
                    assert(kept2[k] == kept[k]);
                }
            }
            assert forall|k: int| 0 <= k < kept2.len() implies !seen0.contains(#[trigger] line_key(buf, all[kept2[k]], opts)) by {
                if k < kept.len() {
                    assert(kept2[k] == kept[k]);
                }
            }
            assert forall|k: int| 0 <= k < kept2.len() implies seen2.contains(#[trigger] line_key(buf, all[kept2[k]], opts)) by {
                if k < kept.len() {
                    assert(kept2[k] == kept[k]);
                }
            }
        }
    }
}

/// With `--unique`, `--json` gives the records of the reported lines whose
/// key (the line, or its first match with `-o`) was not seen before, in
/// order: no two records share a key, none has a key seen in an earlier
/// file, and afterwards every line's key counts as seen.
pub proof fn law_json_unique(buf: Seq<u8>, all: Seq<LineModel>, path: Option<Seq<char>>, opts: &PrinterOpts, seen0: Set<Seq<u8>>)
    requires
        opts.unique,
        !opts.files_with_matches,
        !opts.files_without_match,
        !opts.count,
    ensures
        ({
            let (kept, _) = unique_kept(buf, all, opts, seen0, all.len() as int);
            let (recs, seen) = json_output(buf, all, path, opts, seen0);
            &&& recs.len() == kept.len()
            &&& forall|k: int| 0 <= k < kept.len() ==> #[trigger] recs[k]
                == RecordModel::Match(match_record(buf, line_starts(buf), all[kept[k]], path, opts))
            &&& forall|i: int, j: int| 0 <= i < j < kept.len() ==> 0 <= #[trigger] kept[i] < #[trigger] kept[j] < all.len()
            &&& forall|i: int, j: int| 0 <= i < j < kept.len() ==>
                line_key(buf, all[kept[i]], opts) != line_key(buf, all[kept[j]], opts)
            &&& forall|k: int| 0 <= k < kept.len() ==> !seen0.contains(#[trigger] line_key(buf, all[kept[k]], opts))
            &&& forall|i: int| 0 <= i < all.len() ==> seen.contains(#[trigger] line_key(buf, all[i], opts))
        }),
{
    lemma_unique_kept(buf, all, path, opts, seen0, all.len() as int);
}
/// The number of bytes in the pieces `ps`.
pub open spec fn pieces_len(ps: Seq<(Paint, Seq<u8>)>) -> int
    decreases ps.len(),
{
    if ps.len() == 0 {
        0
    } else {
        pieces_len(ps.drop_last()) + ps.last().1.len()
    }
}

proof fn lemma_pieces_len_concat(a: Seq<(Paint, Seq<u8>)>, b: Seq<(Paint, Seq<u8>)>)
    ensures
        pieces_len(a + b) == pieces_len(a) + pieces_len(b),
    decreases b.len(),
{
    if b.len() == 0 {
        assert(a + b =~= a);
    } else {
        lemma_pieces_len_concat(a, b.drop_last());
        assert((a + b).drop_last() =~= a + b.drop_last());
    }
}

proof fn lemma_number_bytes_len(n: nat)
    ensures
        number_bytes(n).len() == digit_count(n),
{
    lemma_decimal_ascii(n);
    vstd::utf8::is_ascii_chars_encode_utf8(decimal(n));
}

proof fn lemma_decimal_ascii(n: nat)
    ensures
        vstd::utf8::is_ascii_chars(decimal(n)),
        decimal(n).len() == digit_count(n),
    decreases n,
{
    if n >= 10 {
        lemma_decimal_ascii(n / 10);
        let d = decimal(n / 10).push(digit_char((n % 10) as int));
        assert forall|i: int| 0 <= i < d.len() implies '\0' <= #[trigger] d[i] <= '\u{7f}' by {
            if i < d.len() - 1 {
                assert(d[i] == decimal(n / 10)[i]);
            }
        }
    }
}

proof fn lemma_field_len(field: Seq<u8>, sep: Seq<u8>, paint: Paint)
    requires
        sep.len() == 1,
    ensures
        pieces_len(seq![(paint, field), (Paint::Plain, sep)]) == field.len() + 1,
{
    let s = seq![(paint, field), (Paint::Plain, sep)];
    let one = seq![(paint, field)];
    assert(s.drop_last() =~= one);
    assert(one.drop_last() =~= Seq::<(Paint, Seq<u8>)>::empty());
    assert(pieces_len(one.drop_last()) == 0);
    assert(one.last().1 == field);
    assert(pieces_len(one) == field.len());
    assert(pieces_len(s) == pieces_len(one) + sep.len());
}

/// The width that `prefix_width` gives a line is the number of bytes of the
/// prefix that is printed before it (`prefix_pieces`, as written without
/// colour): each shown field and its one-byte separator, whether the line is a
/// match or a context line. The width saturates at the largest `usize`; below
/// that it is exactly the byte count.
pub proof fn law_prefix_width_is_written_length(
    path: Option<Seq<char>>,
    opts: &PrinterOpts,
    line_number: usize,
    line_start: usize,
    ranges: Seq<(usize, usize)>,
    is_context: bool,
)
    requires
        path matches Some(p) ==> utf8(p).len() <= usize::MAX,
    ensures
        pieces_len(prefix_pieces(path, opts, line_number, line_start, ranges, is_context))
            == prefix_width_of(path, opts, line_number, line_start, ranges),
        pieces_len(prefix_pieces(path, opts, line_number, line_start, ranges, is_context)) <= usize::MAX
            ==> saturated(prefix_width_of(path, opts, line_number, line_start, ranges))
                == pieces_len(prefix_pieces(path, opts, line_number, line_start, ranges, is_context)),
{
    let sep = if is_context { utf8("-"@) } else { utf8(":"@) };
    assert(sep.len() == 1) by {
        reveal_strlit("-");
        reveal_strlit(":");
        vstd::utf8::is_ascii_chars_encode_utf8("-"@);
        vstd::utf8::is_ascii_chars_encode_utf8(":"@);
    }
    let e = Seq::<(Paint, Seq<u8>)>::empty();
    let a = if opts.show_path && path is Some { seq![(Paint::Magenta, utf8(path->0)), (Paint::Plain, sep)] } else { e };
    let b = if opts.line_number { seq![(Paint::Green, number_bytes((line_number + 1) as nat)), (Paint::Plain, sep)] } else { e };
    let c = if opts.column && ranges.len() > 0 { seq![(Paint::Green, number_bytes((ranges[0].0 + 1) as nat)), (Paint::Plain, sep)] } else { e };
    let d = if opts.byte_offset { seq![(Paint::Green, number_bytes(line_start as nat)), (Paint::Plain, sep)] } else { e };
    assert(prefix_pieces(path, opts, line_number, line_start, ranges, is_context) == a + b + c + d);
    lemma_pieces_len_concat(a, b);
    lemma_pieces_len_concat(a + b, c);
    lemma_pieces_len_concat(a + b + c, d);
    if opts.show_path && path is Some {
        lemma_field_len(utf8(path->0), sep, Paint::Magenta);
    }
    if opts.line_number {
        lemma_field_len(number_bytes((line_number + 1) as nat), sep, Paint::Green);
        lemma_number_bytes_len((line_number + 1) as nat);
    }
    if opts.column && ranges.len() > 0 {
        lemma_field_len(number_bytes((ranges[0].0 + 1) as nat), sep, Paint::Green);
        lemma_number_bytes_len((ranges[0].0 + 1) as nat);
    }
    if opts.byte_offset {
        lemma_field_len(number_bytes(line_start as nat), sep, Paint::Green);
        lemma_number_bytes_len(line_start as nat);
    }
}

/// The keys of the first `n` reported lines.
pub open spec fn keys_before(buf: Seq<u8>, all: Seq<LineModel>, opts: &PrinterOpts, n: int) -> Set<Seq<u8>> {
    Set::new(|q: Seq<u8>| exists|j: int| 0 <= j < n && line_key(buf, all[j], opts) == q)
}

/// Reported line `i` has a key seen in an earlier file or on an earlier line.
pub open spec fn repeats_key(buf: Seq<u8>, all: Seq<LineModel>, opts: &PrinterOpts, seen0: Set<Seq<u8>>, i: int) -> bool {
    seen0.contains(line_key(buf, all[i], opts)) || exists|j: int| 0 <= j < i && line_key(buf, all[j], opts) == line_key(buf, all[i], opts)
}

proof fn lemma_text_seen(buf: Seq<u8>, all: Seq<LineModel>, path: Option<Seq<char>>, opts: &PrinterOpts, seen0: Set<Seq<u8>>, n: int)
    requires
        opts.unique,
        0 <= n <= all.len(),
    ensures
        text_upto(buf, all, path, opts, seen0, n).seen == seen0.union(keys_before(buf, all, opts, n)),
    decreases n,
{
    if n > 0 {
        lemma_text_seen(buf, all, path, opts, seen0, n - 1);
        let st = text_upto(buf, all, path, opts, seen0, n - 1);
        let key = line_key(buf, all[n - 1], opts);
        let now = text_upto(buf, all, path, opts, seen0, n);
        assert(now.seen == if st.seen.contains(key) { st.seen } else { st.seen.insert(key) });
        assert forall|q: Seq<u8>| now.seen.contains(q) <==> seen0.union(keys_before(buf, all, opts, n)).contains(q) by {
            if keys_before(buf, all, opts, n - 1).contains(q) {
                let j = choose|j: int| 0 <= j < n - 1 && line_key(buf, all[j], opts) == q;
                assert(keys_before(buf, all, opts, n).contains(q));
            }
            if keys_before(buf, all, opts, n).contains(q) && q != key {
                let j = choose|j: int| 0 <= j < n && line_key(buf, all[j], opts) == q;
                assert(keys_before(buf, all, opts, n - 1).contains(q));
            }
            if q == key {
                assert(keys_before(buf, all, opts, n).contains(q));
            }
        }
        assert(now.seen =~= seen0.union(keys_before(buf, all, opts, n)));
    } else {
        assert(keys_before(buf, all, opts, 0) =~= Set::<Seq<u8>>::empty());
        assert(seen0.union(Set::<Seq<u8>>::empty()) =~= seen0);
    }
}

/// With `--unique`, the text output skips every reported line whose key (the
/// line, or its first match with `-o`) was seen in an earlier file or on an
/// earlier line: such a line leaves the printer's state, output included,
/// unchanged. Any other line has its key recorded, and afterwards the keys
/// seen are those seen before together with every reported line's key.
pub proof fn law_text_unique(buf: Seq<u8>, all: Seq<LineModel>, path: Option<Seq<char>>, opts: &PrinterOpts, seen0: Set<Seq<u8>>)
    requires
        opts.unique,
    ensures
        forall|i: int| 0 <= i < all.len() && #[trigger] repeats_key(buf, all, opts, seen0, i)
            ==> text_upto(buf, all, path, opts, seen0, i + 1) == text_upto(buf, all, path, opts, seen0, i),
        forall|i: int| 0 <= i < all.len() && !#[trigger] repeats_key(buf, all, opts, seen0, i)
            ==> text_upto(buf, all, path, opts, seen0, i + 1).seen
                == text_upto(buf, all, path, opts, seen0, i).seen.insert(line_key(buf, all[i], opts)),
        text_output(buf, all, path, opts, seen0).1 == seen0.union(keys_before(buf, all, opts, all.len() as int)),
{
    assert forall|i: int| 0 <= i < all.len() implies {
        &&& #[trigger] repeats_key(buf, all, opts, seen0, i) ==> text_upto(buf, all, path, opts, seen0, i + 1) == text_upto(buf, all, path, opts, seen0, i)
        &&& !repeats_key(buf, all, opts, seen0, i) ==> text_upto(buf, all, path, opts, seen0, i + 1).seen
                == text_upto(buf, all, path, opts, seen0, i).seen.insert(line_key(buf, all[i], opts))
    } by {
        lemma_text_seen(buf, all, path, opts, seen0, i);
        let key = line_key(buf, all[i], opts);
        let st = text_upto(buf, all, path, opts, seen0, i);
        if repeats_key(buf, all, opts, seen0, i) {
            if !seen0.contains(key) {
                let j = choose|j: int| 0 <= j < i && line_key(buf, all[j], opts) == key;
                assert(keys_before(buf, all, opts, i).contains(key));
            }
            assert(st.seen.contains(key));
        } else {
            if keys_before(buf, all, opts, i).contains(key) {
                let j = choose|j: int| 0 <= j < i && line_key(buf, all[j], opts) == key;
            }
            assert(!st.seen.contains(key));
        }
    }
    lemma_text_seen(buf, all, path, opts, seen0, all.len() as int);
    if all.len() == 0 {
        assert(keys_before(buf, all, opts, 0) =~= Set::<Seq<u8>>::empty());
        assert(seen0.union(Set::<Seq<u8>>::empty()) =~= seen0);
    }
}

/// The end of the prefix of `x` that holds its first `k` newlines (0 for no
/// newline at all).
pub open spec fn lines_end(x: Seq<u8>, k: int) -> int {
    if k <= 0 { 0 } else { nth_newline_end(x, k) }
}

/// `x` is made of whole lines: it is empty or ends with a newline.
pub open spec fn whole_lines(x: Seq<u8>) -> bool {
    x.len() == 0 || x.last() == 10u8
}

/// The bytes that paginating `x` writes (none when it is skipped).
pub open spec fn written_part(x: Seq<u8>, offset: usize, head: Option<usize>) -> Seq<u8> {
    match paginate_spec(x, offset, head).0 {
        Some((s, e)) => x.subrange(s, e),
        None => Seq::empty(),
    }
}

proof fn lemma_lines_end_within(a: Seq<u8>, b: Seq<u8>, k: int)
    requires
        1 <= k <= count_byte(a, 10u8),
    ensures
        lines_end(a + b, k) == lines_end(a, k),
    decreases a.len(),
{
    crate::paginate::lemma_count_byte_first(a, 10u8);
    let a1 = a.drop_first();
    assert((a + b).drop_first() =~= a1 + b);
    assert((a + b)[0] == a[0]);
    if a[0] == 10u8 {
        if k > 1 {
            lemma_lines_end_within(a1, b, k - 1);
        }
    } else {
        lemma_lines_end_within(a1, b, k);
    }
}

proof fn lemma_lines_end_beyond(a: Seq<u8>, b: Seq<u8>, k: int)
    requires
        whole_lines(a),
        count_byte(a, 10u8) <= k,
    ensures
        lines_end(a + b, k) == a.len() + lines_end(b, k - count_byte(a, 10u8)),
    decreases a.len(),
{
    if a.len() == 0 {
        assert(a + b =~= b);
    } else {
        assert(count_byte(a, 10u8) == count_byte(a.drop_last(), 10u8) + 1);
        crate::paginate::lemma_count_byte_first(a, 10u8);
        let a1 = a.drop_first();
        assert((a + b).drop_first() =~= a1 + b);
        assert((a + b)[0] == a[0]);
        if a1.len() > 0 {
            assert(a1.last() == a.last());
            assert(count_byte(a1, 10u8) == count_byte(a1.drop_last(), 10u8) + 1);
        }
        if a[0] == 10u8 {
            if k <= 1 {
                assert(a1.len() == 0);
            } else {
                lemma_lines_end_beyond(a1, b, k - 1);
            }
        } else {
            lemma_lines_end_beyond(a1, b, k);
        }
    }
}

/// What paginating a chunk of whole lines writes is the span between the end
/// of the skipped lines and the end of the written ones.
proof fn lemma_written_span(x: Seq<u8>, offset: usize, head: Option<usize>)
    requires
        whole_lines(x),
    ensures
        0 <= lines_end(x, skipped_lines(x, offset))
            <= lines_end(x, skipped_lines(x, offset) + written_lines(x, offset, head)) <= x.len(),
        written_part(x, offset, head) == x.subrange(
            lines_end(x, skipped_lines(x, offset)),
            lines_end(x, skipped_lines(x, offset) + written_lines(x, offset, head)),
        ),
{
    let n = count_byte(x, 10u8) as int;
    let skipped = min_of(offset as int, n);
    let left = n - skipped;
    let written = match head { Some(r) => min_of(r as int, left), None => left };
    lemma_lines_end_beyond(x, Seq::empty(), n);
    assert(x + Seq::<u8>::empty() =~= x);
    assert(lines_end(x, n) == x.len());
    lemma_nth_newline_end(x, skipped);
    lemma_nth_newline_end(x, skipped + written);
    let skip_to = lines_end(x, skipped);
    let pre = x.take(skip_to);
    let rest = x.skip(skip_to);
    assert(pre + rest =~= x);
    if skipped > 0 {
        assert(count_byte(pre, 10u8) == skipped);
    } else {
        assert(pre =~= Seq::<u8>::empty());
    }
    if written < left && written > 0 {
        lemma_lines_end_beyond(pre, rest, skipped + written);
        lemma_nth_newline_end(rest, written);
    }
    if offset > 0 && n <= offset {
    } else if written == left {
    } else if written == 0 {
    } else {
        assert(skip_to == (if offset > 0 { nth_newline_end(x, offset as int) } else { 0 }));
    }
}

/// How many lines paginating `x` skips with an offset budget of `offset`.
pub open spec fn skipped_lines(x: Seq<u8>, offset: usize) -> int {
    min_of(offset as int, count_byte(x, 10u8) as int)
}

/// How many lines paginating `x` writes.
pub open spec fn written_lines(x: Seq<u8>, offset: usize, head: Option<usize>) -> int {
    let left = count_byte(x, 10u8) - skipped_lines(x, offset);
    match head {
        Some(r) => min_of(r as int, left),
        None => left,
    }
}

proof fn lemma_concat_budgets(a: Seq<u8>, b: Seq<u8>, offset: usize, head: Option<usize>)
    ensures
        ({
            let (_, ta, oa, ha) = paginate_spec(a, offset, head);
            let (_, tb, ob, hb) = paginate_spec(b, oa, ha);
            let (_, tc, oc, hc) = paginate_spec(a + b, offset, head);
            &&& (ta || tb) == tc
            &&& ob == oc
            &&& hb == hc
            &&& skipped_lines(a + b, offset) == skipped_lines(a, offset) + skipped_lines(b, oa)
            &&& written_lines(a + b, offset, head) == written_lines(a, offset, head) + written_lines(b, oa, ha)
            &&& written_lines(b, oa, ha) > 0 ==> skipped_lines(a, offset) + written_lines(a, offset, head) == count_byte(a, 10u8)
            &&& skipped_lines(b, oa) > 0 ==> skipped_lines(a, offset) == count_byte(a, 10u8)
        }),
{
    let (_, ta, oa, ha) = paginate_spec(a, offset, head);
    lemma_count_byte_append(a, b, 10u8);
    law_paginate_accounting(a, offset, head);
    law_paginate_accounting(b, oa, ha);
    law_paginate_accounting(a + b, offset, head);
}

proof fn lemma_concat_bytes(a: Seq<u8>, b: Seq<u8>, offset: usize, head: Option<usize>, oa: usize, ha: Option<usize>)
    requires
        whole_lines(a),
        whole_lines(b),
        whole_lines(a + b),
        count_byte(a + b, 10u8) == count_byte(a, 10u8) + count_byte(b, 10u8),
        skipped_lines(a + b, offset) == skipped_lines(a, offset) + skipped_lines(b, oa),
        written_lines(a + b, offset, head) == written_lines(a, offset, head) + written_lines(b, oa, ha),
        written_lines(b, oa, ha) > 0 ==> skipped_lines(a, offset) + written_lines(a, offset, head) == count_byte(a, 10u8),
        skipped_lines(b, oa) > 0 ==> skipped_lines(a, offset) == count_byte(a, 10u8),
    ensures
        written_part(a, offset, head) + written_part(b, oa, ha) == written_part(a + b, offset, head),
{
    let c = a + b;
    let na = count_byte(a, 10u8) as int;
    lemma_written_span(a, offset, head);
    lemma_written_span(b, oa, ha);
    lemma_written_span(c, offset, head);
    let sa = skipped_lines(a, offset);
    let wa = written_lines(a, offset, head);
    let sc = skipped_lines(c, offset);
    let wc = written_lines(c, offset, head);
    let wb = written_lines(b, oa, ha);
    if sc + wc <= na {
        if sc >= 1 {
            lemma_lines_end_within(a, b, sc);
        }
        if sc + wc >= 1 {
            lemma_lines_end_within(a, b, sc + wc);
        }
        assert(written_part(b, oa, ha) =~= Seq::<u8>::empty());
        assert(written_part(a, offset, head) + written_part(b, oa, ha) =~= written_part(c, offset, head));
    } else {
        lemma_lines_end_beyond(a, b, sc + wc);
        if sc >= na {
            lemma_lines_end_beyond(a, b, sc);
            assert(written_part(a, offset, head) =~= Seq::<u8>::empty());
            assert(written_part(a, offset, head) + written_part(b, oa, ha) =~= written_part(c, offset, head));
        } else {
            if sc >= 1 {
                lemma_lines_end_within(a, b, sc);
            }
            lemma_lines_end_beyond(a, Seq::empty(), na);
            assert(a + Seq::<u8>::empty() =~= a);
            assert(written_part(a, offset, head) + written_part(b, oa, ha) =~= written_part(c, offset, head));
        }
    }
}

/// Paginating a stream chunk by chunk, where each chunk is whole lines, writes
/// the same bytes as paginating the chunks joined into one: the parts written
/// for `a` and then `b` (with the budgets that `a` left) make up the part
/// written for `a + b`; the budgets left over are the same, and the joined
/// chunk is truncated exactly when one of the two was.
pub proof fn law_paginate_concat(a: Seq<u8>, b: Seq<u8>, offset: usize, head: Option<usize>)
    requires
        whole_lines(a),
        whole_lines(b),
    ensures
        ({
            let (_, ta, oa, ha) = paginate_spec(a, offset, head);
            let (_, tb, ob, hb) = paginate_spec(b, oa, ha);
            let (_, tc, oc, hc) = paginate_spec(a + b, offset, head);
            &&& written_part(a, offset, head) + written_part(b, oa, ha) == written_part(a + b, offset, head)
            &&& (ta || tb) == tc
            &&& ob == oc
            &&& hb == hc
        }),
{
    let (_, ta, oa, ha) = paginate_spec(a, offset, head);
    lemma_count_byte_append(a, b, 10u8);
    assert(whole_lines(a + b)) by {
        if b.len() > 0 {
            assert((a + b).last() == b.last());
        } else {
            assert(a + b =~= a);
        }
    }
    lemma_concat_budgets(a, b, offset, head);
    lemma_concat_bytes(a, b, offset, head, oa, ha);
}

proof fn lemma_before_context_extends(buf: Seq<u8>, starts: Seq<usize>, path: Option<Seq<char>>, opts: &PrinterOpts, out: Seq<(Paint, Seq<u8>)>, lp: Option<usize>, from: int, upto: int)
    ensures
        before_context(buf, starts, path, opts, out, lp, from, upto).0.len() >= out.len(),
        before_context(buf, starts, path, opts, out, lp, from, upto).0.take(out.len() as int) == out,
    decreases upto - from,
{
    if upto > from {
        lemma_before_context_extends(buf, starts, path, opts, out, lp, from, upto - 1);
        let o = before_context(buf, starts, path, opts, out, lp, from, upto - 1).0;
        let r = before_context(buf, starts, path, opts, out, lp, from, upto).0;
        assert(r.take(out.len() as int) =~= o.take(out.len() as int));
    } else {
        assert(out.take(out.len() as int) =~= out);
    }
}

/// Line `k` lies strictly between lines `last` and `start`.
pub open spec fn strictly_between(last: usize, k: int, start: int) -> bool {
    last < k < start
}

/// Some line lies strictly between the last printed line and line `start`.
pub open spec fn lines_between(last: usize, start: int) -> bool {
    exists|k: int| #[trigger] strictly_between(last, k, start)
}

/// With context on, the context separator comes before the lines leading up to
/// reported line `ln` exactly when a line was printed before and at least one
/// line lies between it and the first of those lines (and the separator is not
/// empty): then the first piece written is the separator on a line of its
/// own. Otherwise, in particular when the new lines follow on or overlap the
/// last printed line, only the context lines themselves are written.
pub proof fn law_context_separator_only_at_gaps(
    buf: Seq<u8>,
    starts: Seq<usize>,
    path: Option<Seq<char>>,
    opts: &PrinterOpts,
    out: Seq<(Paint, Seq<u8>)>,
    lp: Option<usize>,
    ln: int,
)
    ensures
        ({
            let first = sat_sub(ln, opts.before_ctx as int);
            let gap = lp matches Some(l) && lines_between(l, first) && opts.context_separator@.len() > 0;
            let res = leading_part(buf, starts, path, opts, out, lp, ln);
            &&& gap ==> {
                &&& res.0.len() > out.len()
                &&& res.0.take(out.len() as int) == out
                &&& res.0[out.len() as int] == (Paint::Plain, utf8(opts.context_separator@ + "\n"@))
            }
            &&& !gap ==> res == before_context(buf, starts, path, opts, out, lp, first, ln)
        }),
{
    let first = sat_sub(ln, opts.before_ctx as int);
    let sep = (Paint::Plain, utf8(opts.context_separator@ + "\n"@));
    if let Some(l) = lp {
        if first > l + 1 {
            assert(lines_between(l, first)) by {
                assert(strictly_between(l, l + 1, first));
            }
            if opts.context_separator@.len() > 0 {
                let o = out + seq![sep];
                lemma_before_context_extends(buf, starts, path, opts, o, lp, first, ln);
                let r = leading_part(buf, starts, path, opts, out, lp, ln).0;
                assert(r == before_context(buf, starts, path, opts, o, lp, first, ln).0);
                assert(o.len() == out.len() + 1);
                assert(r.take(o.len() as int) == o);
                assert(r[out.len() as int] == r.take(o.len() as int)[out.len() as int]);
                assert(r.take(out.len() as int) =~= o.take(out.len() as int));
                assert(o.take(out.len() as int) =~= out);
            }
        } else {
            if lines_between(l, first) {
                let k = choose|k: int| strictly_between(l, k, first);
            }
        }
    }
}

/// With `--count`, the number printed for a file is the number of lines its
/// search reports (`match_count`), inverted lines that carry no ranges
/// included; a file with none prints nothing.
pub proof fn law_count_is_match_count(
    buf: Seq<u8>,
    lms: Seq<LineModel>,
    invert: bool,
    max: Option<usize>,
    res: &SearchResult,
    path: Option<Seq<char>>,
    opts: &PrinterOpts,
    seen0: Set<Seq<u8>>,
)
    requires
        is_final_result(res, lms, line_starts(buf), invert, max, false),
        opts.count,
        !opts.json,
        !opts.files_with_matches,
        !opts.files_without_match,
    ensures
        ({
            let printed = results_output(buf, models(res.matches@), path, opts, seen0).0;
            &&& res.match_count == 0 ==> printed.len() == 0
            &&& res.match_count > 0 ==> printed.len() > 0
                && printed.last() == (Paint::Plain, utf8(decimal(res.match_count as nat) + "\n"@))
        }),
{
    assert(models(res.matches@).len() == res.match_count);
}

/// A `--json` match record has one submatch for each match range of its line,
/// in the same order: the range's offsets clamped to the line's text, and the
/// text between them.
pub proof fn law_json_submatch_per_range(buf: Seq<u8>, starts: Seq<usize>, lm: LineModel, path: Option<Seq<char>>, opts: &PrinterOpts)
    ensures
        ({
            let line = line_text(buf, starts, lm.line_number as int);
            let rec = match_record(buf, starts, lm, path, opts);
            &&& rec.submatches.len() == lm.ranges.len()
            &&& forall|k: int| 0 <= k < lm.ranges.len() ==> {
                let s = min_of(lm.ranges[k].0 as int, line.len() as int);
                let e = min_of(lm.ranges[k].1 as int, line.len() as int);
                &&& (#[trigger] rec.submatches[k]).start == s
                &&& rec.submatches[k].end == e
                &&& rec.submatches[k].text == utf8_lossy(line.subrange(s, e))
            }
        }),
{
}

/// Each term of `ts` is one of the search's positive terms: the positional
/// pattern, an `-e` pattern, an `--and` term or a `-p` word (each wrapped), or
/// an `-F` word (escaped).
pub open spec fn is_positive_term(a: &Args, t: Seq<char>) -> bool {
    ||| a.pattern matches Some(p) && t == wrapped(a, p@, None)
    ||| exists|i: int| 0 <= i < a.regexp@.len() && t == wrapped(a, a.regexp@[i]@, None)
    ||| exists|i: int| 0 <= i < a.and@.len() && t == wrapped(a, a.and@[i]@, None)
    ||| a.paragraphs matches Some(w) && exists|i: int| 0 <= i < w@.len() && t == wrapped(a, w@[i]@, None)
    ||| exists|i: int| 0 <= i < fixed_words_of(a).len() && t == escaped(fixed_words_of(a)[i])
}

/// The highlight pattern, when there is one, is the alternation of the
/// search's positive terms: every one of them (the positional pattern, each
/// `-e` pattern, each `--and` term and each `-p` word, wrapped, and each `-F`
/// word, escaped) is one of its alternatives, and nothing else is.
pub proof fn law_highlight_has_every_term(a: &Args)
    ensures
        highlight_pattern(a) is Some ==> highlight_pattern(a) == Some(union_of(highlight_terms(a))),
        forall|t: Seq<char>| #[trigger] highlight_terms(a).contains(t) <==> is_positive_term(a, t),
        a.pattern matches Some(p) ==> highlight_terms(a).contains(wrapped(a, p@, None)),
        forall|i: int| 0 <= i < a.regexp@.len() ==> highlight_terms(a).contains(#[trigger] wrapped(a, a.regexp@[i]@, None)),
        forall|i: int| 0 <= i < a.and@.len() ==> highlight_terms(a).contains(#[trigger] wrapped(a, a.and@[i]@, None)),
        forall|i: int| 0 <= i < fixed_words_of(a).len() ==> highlight_terms(a).contains(#[trigger] escaped(fixed_words_of(a)[i])),
{
    let from_pattern: Seq<Seq<char>> = match a.pattern {
        Some(p) => seq![wrapped(a, p@, None)],
        None => Seq::empty(),
    };
    let re = wrapped_all(a, a.regexp.deep_view(), None);
    let an = wrapped_all(a, a.and.deep_view(), None);
    let from_para: Seq<Seq<char>> = match a.paragraphs {
        Some(w) => wrapped_all(a, w.deep_view(), None),
        None => Seq::empty(),
    };
    let fixed = fixed_words_of(a);
    let fx = Seq::new(fixed.len(), |i: int| escaped(fixed[i]));
    let ts = highlight_terms(a);
    assert(ts == from_pattern + re + an + from_para + fx);
    let n1 = from_pattern.len() as int;
    let n2 = n1 + re.len();
    let n3 = n2 + an.len();
    let n4 = n3 + from_para.len();
    assert forall|i: int| 0 <= i < a.regexp@.len() implies ts.contains(#[trigger] wrapped(a, a.regexp@[i]@, None)) by {
        assert(a.regexp.deep_view()[i] == a.regexp@[i]@);
        assert(ts[n1 + i] == re[i]);
    }
    assert forall|i: int| 0 <= i < a.and@.len() implies ts.contains(#[trigger] wrapped(a, a.and@[i]@, None)) by {
        assert(a.and.deep_view()[i] == a.and@[i]@);
        assert(ts[n2 + i] == an[i]);
    }
    assert forall|i: int| 0 <= i < fixed.len() implies ts.contains(#[trigger] escaped(fixed[i])) by {
        assert(ts[n4 + i] == fx[i]);
    }
    if let Some(p) = a.pattern {
        assert(ts[0] == wrapped(a, p@, None));
    }
    assert forall|t: Seq<char>| #[trigger] ts.contains(t) <==> is_positive_term(a, t) by {
        if ts.contains(t) {
            let j = choose|j: int| 0 <= j < ts.len() && ts[j] == t;
            if j < n1 {
            } else if j < n2 {
                assert(ts[j] == re[j - n1]);
                assert(a.regexp.deep_view()[j - n1] == a.regexp@[j - n1]@);
            } else if j < n3 {
                assert(ts[j] == an[j - n2]);
                assert(a.and.deep_view()[j - n2] == a.and@[j - n2]@);
            } else if j < n4 {
                assert(ts[j] == from_para[j - n3]);
                if let Some(w) = a.paragraphs {
                    assert(w.deep_view()[j - n3] == w@[j - n3]@);
                }
            } else {
                assert(ts[j] == fx[j - n4]);
            }
        }
        if is_positive_term(a, t) {
            if a.pattern matches Some(p) && t == wrapped(a, p@, None) {
            } else if exists|i: int| 0 <= i < a.regexp@.len() && t == wrapped(a, a.regexp@[i]@, None) {
                let i = choose|i: int| 0 <= i < a.regexp@.len() && t == wrapped(a, a.regexp@[i]@, None);
                assert(ts.contains(wrapped(a, a.regexp@[i]@, None)));
            } else if exists|i: int| 0 <= i < a.and@.len() && t == wrapped(a, a.and@[i]@, None) {
                let i = choose|i: int| 0 <= i < a.and@.len() && t == wrapped(a, a.and@[i]@, None);
                assert(ts.contains(wrapped(a, a.and@[i]@, None)));
            } else if exists|i: int| 0 <= i < fixed.len() && t == escaped(fixed[i]) {
                let i = choose|i: int| 0 <= i < fixed.len() && t == escaped(fixed[i]);
                assert(ts.contains(escaped(fixed[i])));
            } else {
                if let Some(w) = a.paragraphs {
                    let i = choose|i: int| 0 <= i < w@.len() && t == wrapped(a, w@[i]@, None);
                    assert(w.deep_view()[i] == w@[i]@);
                    assert(ts[n3 + i] == from_para[i]);
                }
            }
        }
    }
}

} // verus!
