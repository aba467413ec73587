//! The regex engine and the byte scanner that the search relies on.
//!
//! Each function here that calls `resharp` or `memchr` makes one call; its
//! contract is what the search logic believes of that call.
use vstd::prelude::*;

verus! {

#[verifier::external_type_specification]
#[verifier::external_body]
pub struct ExRegex(resharp::Regex);

/// The leftmost-longest, non-overlapping matches, as `[start, end)` byte
/// ranges, that `resharp` finds for `pattern` (compiled with a DFA state
/// capacity of `capacity`) in `haystack`.
pub uninterp spec fn regex_find_all(pattern: Seq<char>, capacity: usize, haystack: Seq<u8>) -> Seq<(usize, usize)>;

/// Whether `resharp` reports that `pattern` matches somewhere in `haystack`.
pub uninterp spec fn regex_is_match(pattern: Seq<char>, capacity: usize, haystack: Seq<u8>) -> bool;

/// Whether `resharp` accepts `pattern` with a DFA state capacity of `capacity`.
pub uninterp spec fn regex_compiles(pattern: Seq<char>, capacity: usize) -> bool;

/// `ms` are ranges within a buffer of `len` bytes, each ending no later than
/// the next one starts.
pub open spec fn matches_in_order(ms: Seq<(usize, usize)>, len: int) -> bool {
    &&& forall|i: int| 0 <= i < ms.len() ==> (#[trigger] ms[i]).0 <= ms[i].1 <= len
    &&& forall|i: int, j: int| 0 <= i < j < ms.len() ==> (#[trigger] ms[i]).1 <= (#[trigger] ms[j]).0
}

/// A compiled pattern, together with the text and the capacity it was
/// compiled with. Its fields are private and only `Matcher::compile` sets
/// them, so `regex` is always the engine's compilation of `pattern` with
/// `capacity`.
pub struct Matcher {
    regex: resharp::Regex,
    pattern: String,
    capacity: usize,
}

impl Matcher {
    pub closed spec fn pattern(&self) -> Seq<char> {
        self.pattern@
    }

    pub closed spec fn capacity(&self) -> usize {
        self.capacity
    }

    /// Compiles `pattern` with the given DFA state capacity.
    pub fn compile(pattern: &str, capacity: usize) -> (res: Result<Matcher, String>)
        ensures
            res is Ok <==> regex_compiles(pattern@, capacity),
            res matches Ok(m) ==> m.pattern() == pattern@ && m.capacity() == capacity,
    {
        match compile_regex(pattern, capacity) {
            Ok(regex) => Ok(Matcher { regex, pattern: String::from_str(pattern), capacity }),
            Err(e) => Err(e),
        }
    }

    /// All matches of the pattern in `haystack`; `None` when the engine gives
    /// up (its DFA state cache overflows), which it never does on an empty
    /// haystack.
    pub fn find_all(&self, haystack: &[u8]) -> (res: Option<Vec<(usize, usize)>>)
        ensures
            res matches Some(v) ==> v@ == regex_find_all(self.pattern(), self.capacity(), haystack@),
            res matches Some(v) ==> matches_in_order(v@, haystack@.len() as int),
            haystack@.len() == 0 ==> res is Some,
    {
        regex_find_all_call(self, haystack)
    }

    /// Whether the pattern matches somewhere in `haystack`; `None` when the
    /// engine gives up, which it never does on an empty haystack.
    pub fn is_match(&self, haystack: &[u8]) -> (res: Option<bool>)
        ensures
            res matches Some(b) ==> b == regex_is_match(self.pattern(), self.capacity(), haystack@),
            haystack@.len() == 0 ==> res is Some,
    {
        regex_is_match_call(self, haystack)
    }
}

/// Calls `resharp::Regex::with_options` with the default options but for the
/// DFA state capacity. Claims only that it succeeds exactly on the patterns
/// that `resharp` accepts; the error is the engine's message.
#[verifier::external_body]
fn compile_regex(pattern: &str, capacity: usize) -> (res: Result<resharp::Regex, String>)
    ensures
        res is Ok <==> regex_compiles(pattern@, capacity),
{
    let opts = resharp::RegexOptions { max_dfa_capacity: capacity, ..Default::default() };
    resharp::Regex::with_options(pattern, opts).map_err(|e| e.to_string())
}

/// Calls `resharp::Regex::find_all` on the regex of `m`, which
/// `Matcher::compile`, the only place that builds a `Matcher`, compiled from
/// `m.pattern()` with `m.capacity()`. Claims that a successful result is the
/// engine's match list for that pattern and capacity, and, as the engine
/// documents it (non-overlapping `[start, end)` ranges, from left to right),
/// that every range lies within `haystack` and ends no later than the next one
/// starts. On an empty haystack it answers without running the DFA, so it
/// succeeds; elsewhere whether the engine gives up depends on the DFA states
/// cached by earlier calls, and is left open.
#[verifier::external_body]
fn regex_find_all_call(m: &Matcher, haystack: &[u8]) -> (res: Option<Vec<(usize, usize)>>)
    ensures
        res matches Some(v) ==> v@ == regex_find_all(m.pattern(), m.capacity(), haystack@),
        res matches Some(v) ==> matches_in_order(v@, haystack@.len() as int),
        haystack@.len() == 0 ==> res is Some,
{
    match m.regex.find_all(haystack) {
        Ok(ms) => Some(ms.iter().map(|x| (x.start, x.end)).collect()),
        Err(_) => None,
    }
}

/// Calls `resharp::Regex::is_match` on the regex of `m`, compiled from
/// `m.pattern()` with `m.capacity()` (see `regex_find_all_call`). Claims that
/// a successful answer is the engine's answer for that pattern and capacity,
/// and that on an empty haystack it answers without running the DFA, so it
/// succeeds; elsewhere whether the engine gives up depends on the DFA states
/// cached by earlier calls, and is left open.
#[verifier::external_body]
fn regex_is_match_call(m: &Matcher, haystack: &[u8]) -> (res: Option<bool>)
    ensures
        res matches Some(b) ==> b == regex_is_match(m.pattern(), m.capacity(), haystack@),
        haystack@.len() == 0 ==> res is Some,
{
    m.regex.is_match(haystack).ok()
}

/// Whether `c` is one of the characters that `resharp` treats as syntax.
pub open spec fn is_meta_char(c: char) -> bool {
    c == '\\' || c == '.' || c == '+' || c == '*' || c == '?' || c == '(' || c == ')'
        || c == '|' || c == '[' || c == ']' || c == '{' || c == '}' || c == '^' || c == '$'
        || c == '#' || c == '&' || c == '-' || c == '~' || c == '_'
}

/// A pattern that matches `text` literally: every syntax character gets a backslash.
pub open spec fn escaped(text: Seq<char>) -> Seq<char>
    decreases text.len(),
{
    if text.len() == 0 {
        Seq::empty()
    } else {
        let rest = escaped(text.drop_last());
        let c = text.last();
        if is_meta_char(c) {
            rest.push('\\').push(c)
        } else {
            rest.push(c)
        }
    }
}

/// Calls `resharp::escape`, which walks the characters of `text` and puts a
/// backslash before each of the syntax characters listed in `is_meta_char`.
#[verifier::external_body]
pub(crate) fn escape(text: &str) -> (res: String)
    ensures
        res@ == escaped(text@),
{
    resharp::escape(text)
}

/// Calls `memchr::memchr`, which returns the index of the first occurrence of
/// `needle` in `haystack`, or `None` when there is none.
#[verifier::external_body]
pub(crate) fn find_byte(needle: u8, haystack: &[u8]) -> (res: Option<usize>)
    ensures
        match res {
            Some(i) => i < haystack@.len() && haystack@[i as int] == needle
                && forall|j: int| 0 <= j < i ==> haystack@[j] != needle,
            None => forall|j: int| 0 <= j < haystack@.len() ==> haystack@[j] != needle,
        },
{
    memchr::memchr(needle, haystack)
}

/// The number of occurrences of `needle` in `s`.
pub open spec fn count_byte(s: Seq<u8>, needle: u8) -> nat
    decreases s.len(),
{
    if s.len() == 0 {
        0
    } else {
        count_byte(s.drop_last(), needle) + if s.last() == needle { 1nat } else { 0nat }
    }
}

/// Calls `memchr::memchr_iter` and counts what it yields: one item for each
/// occurrence of `needle` in `haystack`.
#[verifier::external_body]
pub(crate) fn count_byte_occurrences(needle: u8, haystack: &[u8]) -> (res: usize)
    ensures
        res == count_byte(haystack@, needle),
{
    memchr::memchr_iter(needle, haystack).count()
}

} // verus!
