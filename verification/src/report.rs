//! Searching one buffer, a file's or standard input's, and reporting what was found.
use vstd::prelude::*;

use crate::args::{match_limit, opt_chars, Args};
use crate::engine::{regex_is_match, Matcher};
use crate::lines::{count_lines, is_binary, line_count, looks_binary};
use crate::printer::{
    piece_models, printable, results_output, results_printable, write_results_with_unique, Paint,
    PrinterOpts, RecordModel, Report, UniqueSet,
};
use crate::search::{any_not_matches, models, search_buffer, search_outcome, LineModel, SearchResult};

verus! {

/// Why a searched buffer could not be reported.
#[derive(PartialEq, Eq, Structural, Debug, Clone, Copy)]
pub enum SearchError {
    /// The engine gave up on standard input.
    CapacityExceeded,
    /// A range of a reported line reaches past the line's text where the
    /// printer would cut it out.
    Unprintable,
}

/// Reporting a search result: the outcome (found, count), and the pieces,
/// records and `--unique` keys that printing it leaves. A result that a
/// `--not` pattern excludes reports nothing; `--quiet` and `--count-matches`
/// print nothing.
pub open spec fn report_spec(
    buf: Seq<u8>,
    lines: Seq<LineModel>,
    count: usize,
    excluded: bool,
    path: Option<Seq<char>>,
    args: &Args,
    opts: &PrinterOpts,
    seen0: Set<Seq<u8>>,
) -> (Result<(bool, usize), SearchError>, Seq<(Paint, Seq<u8>)>, Seq<RecordModel>, Set<Seq<u8>>) {
    if excluded {
        (Ok((false, 0usize)), Seq::empty(), Seq::empty(), seen0)
    } else if args.quiet || args.count_matches {
        (Ok((count > 0, count)), Seq::empty(), Seq::empty(), seen0)
    } else if !printable(buf, lines, opts) {
        (Err(SearchError::Unprintable), Seq::empty(), Seq::empty(), seen0)
    } else {
        let (pieces, recs, seen) = results_output(buf, lines, path, opts, seen0);
        (Ok((count > 0, count)), pieces, recs, seen)
    }
}

/// Reports the result `sr` of searching `buf` (the file `path`, or standard
/// input): whether something was found and how many lines count, printed to
/// `out` unless the options ask for silence. `excluded` says that a `--not`
/// pattern matched the buffer.
pub fn report_results(
    sr: &SearchResult,
    excluded: bool,
    buf: &[u8],
    path: Option<&str>,
    args: &Args,
    opts: &PrinterOpts,
    out: &mut Report,
    unique_set: &mut UniqueSet,
) -> (res: Result<(bool, usize), SearchError>)
    ensures
        ({
            let (r, pieces, recs, seen) = report_spec(buf@, models(sr.matches@), sr.match_count, excluded, opt_chars(path), args, opts, old(unique_set).keys());
            &&& res == r
            &&& piece_models(final(out).pieces@) == piece_models(old(out).pieces@) + pieces
            &&& final(out).records.deep_view() == old(out).records.deep_view() + recs
            &&& final(unique_set).keys() == seen
        }),
{
    proof {
        assert(piece_models(out.pieces@) =~= piece_models(out.pieces@) + Seq::<(Paint, Seq<u8>)>::empty());
        assert(out.records.deep_view() =~= out.records.deep_view() + Seq::<RecordModel>::empty());
    }
    if excluded {
        return Ok((false, 0));
    }
    let found = sr.match_count > 0;
    if args.quiet || args.count_matches {
        return Ok((found, sr.match_count));
    }
    if !results_printable(buf, sr.matches.as_slice(), opts) {
        return Err(SearchError::Unprintable);
    }
    write_results_with_unique(out, buf, sr.matches.as_slice(), path, opts, unique_set);
    Ok((found, sr.match_count))
}

/// `excluded` is an answer of `any_not_matches` for `not_res` on `buf`.
pub open spec fn not_check(not_res: Seq<Matcher>, buf: Seq<u8>, excluded: bool) -> bool {
    &&& excluded ==> exists|i: int| 0 <= i < not_res.len() && regex_is_match(not_res[i].pattern(), not_res[i].capacity(), buf)
    &&& (forall|i: int| 0 <= i < not_res.len() ==> !regex_is_match(#[trigger] not_res[i].pattern(), not_res[i].capacity(), buf)) ==> !excluded
}

/// Searches the contents `buf` of the file `path` and reports them to `out`:
/// (found, engine gave up, count, lines of the file). Binary files (unless
/// `-uuu`) are counted but not searched; a file on which the engine gives up
/// reports nothing and sets the second flag.
pub fn search_file_to_writer(
    re: &Matcher,
    highlight_re: Option<&Matcher>,
    not_res: &[Matcher],
    buf: &[u8],
    path: &str,
    args: &Args,
    printer_opts: &PrinterOpts,
    out: &mut Report,
    effective_max: Option<usize>,
    unique_set: &mut UniqueSet,
) -> (res: Result<(bool, bool, usize, usize), SearchError>)
    ensures
        res matches Ok((_, _, _, lines)) ==> lines == line_count(buf@),
        args.unrestricted < 3 && looks_binary(buf@) ==> {
            &&& res == Ok::<(bool, bool, usize, usize), SearchError>((false, false, 0usize, line_count(buf@) as usize))
            &&& *final(out) == *old(out)
            &&& *final(unique_set) == *old(unique_set)
        },
        !(args.unrestricted < 3 && looks_binary(buf@)) ==> exists|sr: SearchResult, excluded: bool| {
            &&& #[trigger] search_outcome(re, highlight_re, buf@, args, effective_max, &sr)
            &&& #[trigger] not_check(not_res@, buf@, excluded)
            &&& if sr.had_error {
                &&& res == Ok::<(bool, bool, usize, usize), SearchError>((false, true, 0usize, line_count(buf@) as usize))
                &&& *final(out) == *old(out)
                &&& *final(unique_set) == *old(unique_set)
            } else {
                let (r, pieces, recs, seen) = report_spec(buf@, models(sr.matches@), sr.match_count, sr.match_count > 0 && excluded,
                    Some(path@), args, printer_opts, old(unique_set).keys());
                &&& match r {
                    Ok((found, count)) => res == Ok::<(bool, bool, usize, usize), SearchError>((found, false, count, line_count(buf@) as usize)),
                    Err(e) => res == Err::<(bool, bool, usize, usize), SearchError>(e),
                }
                &&& piece_models(final(out).pieces@) == piece_models(old(out).pieces@) + pieces
                &&& final(out).records.deep_view() == old(out).records.deep_view() + recs
                &&& final(unique_set).keys() == seen
            }
        },
{
    let line_count = count_lines(buf);
    if !args.search_binary() && is_binary(buf) {
        return Ok((false, false, 0, line_count));
    }
    let result = search_buffer(re, highlight_re, buf, args, effective_max);
    if result.had_error {
        proof {
            assert(not_check(not_res@, buf@, false));
        }
        return Ok((false, true, 0, line_count));
    }
    let excluded = result.match_count > 0 && any_not_matches(not_res, buf);
    let ghost ex = excluded;
    proof {
        assert(not_check(not_res@, buf@, ex || (result.match_count == 0 && false)));
    }
    match report_results(&result, excluded, buf, Some(path), args, printer_opts, out, unique_set) {
        Ok((found, count)) => Ok((found, false, count, line_count)),
        Err(e) => Err(e),
    }
}

/// Searches what came on standard input and reports it to `out`: (found,
/// count). The limit is `--max-count` and `--max-total`; `--unique` starts
/// afresh. When the engine gives up, that is an error.
pub fn search_stdin(
    re: &Matcher,
    highlight_re: Option<&Matcher>,
    not_res: &[Matcher],
    stdin_buf: &[u8],
    args: &Args,
    printer_opts: &PrinterOpts,
    out: &mut Report,
) -> (res: Result<(bool, usize), SearchError>)
    ensures
        exists|sr: SearchResult, excluded: bool| {
            &&& #[trigger] search_outcome(re, highlight_re, stdin_buf@, args, match_limit(args, 0), &sr)
            &&& #[trigger] not_check(not_res@, stdin_buf@, excluded)
            &&& if sr.had_error {
                &&& res == Err::<(bool, usize), SearchError>(SearchError::CapacityExceeded)
                &&& *final(out) == *old(out)
            } else {
                let (r, pieces, recs, seen) = report_spec(stdin_buf@, models(sr.matches@), sr.match_count, sr.match_count > 0 && excluded,
                    None, args, printer_opts, Set::empty());
                &&& res == r
                &&& piece_models(final(out).pieces@) == piece_models(old(out).pieces@) + pieces
                &&& final(out).records.deep_view() == old(out).records.deep_view() + recs
            }
        },
{
    let result = search_buffer(re, highlight_re, stdin_buf, args, args.effective_max(0));
    if result.had_error {
        proof {
            assert(not_check(not_res@, stdin_buf@, false));
        }
        return Err(SearchError::CapacityExceeded);
    }
    let excluded = result.match_count > 0 && any_not_matches(not_res, stdin_buf);
    let ghost ex = excluded;
    proof {
        assert(not_check(not_res@, stdin_buf@, ex));
    }
    let mut unique_set = UniqueSet::new();
    report_results(&result, excluded, stdin_buf, None, args, printer_opts, out, &mut unique_set)
}
} // verus!
