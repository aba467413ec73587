//! Characters and strings: decimal numbers, trimming, and the few std string
//! functions the library needs.
use vstd::prelude::*;

verus! {

/// The decimal digit `d` (0 to 9) as a character.
pub open spec fn digit_char(d: int) -> char {
    if d == 0 { '0' } else if d == 1 { '1' } else if d == 2 { '2' } else if d == 3 { '3' }
    else if d == 4 { '4' } else if d == 5 { '5' } else if d == 6 { '6' } else if d == 7 { '7' }
    else if d == 8 { '8' } else { '9' }
}

/// The decimal representation of `n`, without leading zeros.
pub open spec fn decimal(n: nat) -> Seq<char>
    decreases n,
{
    if n < 10 {
        seq![digit_char(n as int)]
    } else {
        decimal(n / 10).push(digit_char((n % 10) as int))
    }
}

fn digit_of(d: usize) -> (c: char)
    requires
        d < 10,
    ensures
        c == digit_char(d as int),
{
    if d == 0 { '0' } else if d == 1 { '1' } else if d == 2 { '2' } else if d == 3 { '3' }
    else if d == 4 { '4' } else if d == 5 { '5' } else if d == 6 { '6' } else if d == 7 { '7' }
    else if d == 8 { '8' } else { '9' }
}

fn decimal_chars(n: usize) -> (v: Vec<char>)
    ensures
        v@ == decimal(n as nat),
    decreases n,
{
    if n < 10 {
        let mut v: Vec<char> = Vec::new();
        v.push(digit_of(n));
        proof {
            assert(v@ =~= decimal(n as nat));
        }
        v
    } else {
        let mut v = decimal_chars(n / 10);
        v.push(digit_of(n % 10));
        v
    }
}

/// Writes `n` in decimal.
pub fn usize_to_string(n: usize) -> (s: String)
    ensures
        s@ == decimal(n as nat),
{
    let v = decimal_chars(n);
    chars_to_string(&v)
}

/// Collects `chars` into a `String` (std's `FromIterator<&char>` for `String`).
#[verifier::external_body]
pub(crate) fn chars_to_string(chars: &[char]) -> (s: String)
    ensures
        s@ == chars@,
{
    chars.iter().collect()
}

/// The characters of `s` in order (std's `str::chars`, collected).
#[verifier::external_body]
pub(crate) fn string_chars(s: &str) -> (v: Vec<char>)
    ensures
        v@ == s@,
{
    s.chars().collect()
}

/// Compares two string slices (std's `PartialEq` for `str`): equal exactly
/// when they hold the same characters.
#[verifier::external_body]
pub(crate) fn str_eq(a: &str, b: &str) -> (eq: bool)
    ensures
        eq == (a@ == b@),
{
    a == b
}

/// Whether std classifies `c` as uppercase (`char::is_uppercase`, the Unicode
/// `Uppercase` property).
pub uninterp spec fn is_uppercase(c: char) -> bool;

/// Whether `c` has the Unicode `White_Space` property, which is what std's
/// `char::is_whitespace` tests: the ASCII controls U+0009 to U+000D, the
/// space, U+0085, U+00A0, U+1680, U+2000 to U+200A, the line and paragraph
/// separators U+2028 and U+2029, U+202F, U+205F and U+3000.
pub open spec fn is_whitespace(c: char) -> bool {
    let u = c as u32;
    ||| 0x09 <= u <= 0x0d
    ||| u == 0x20
    ||| u == 0x85
    ||| u == 0xa0
    ||| u == 0x1680
    ||| 0x2000 <= u <= 0x200a
    ||| u == 0x2028
    ||| u == 0x2029
    ||| u == 0x202f
    ||| u == 0x205f
    ||| u == 0x3000
}

/// Calls `char::is_uppercase`.
#[verifier::external_body]
pub(crate) fn char_is_uppercase(c: char) -> (b: bool)
    ensures
        b == is_uppercase(c),
{
    c.is_uppercase()
}

/// Calls `char::is_whitespace`, which std documents as testing the Unicode
/// `White_Space` property; `is_whitespace` lists that set.
#[verifier::external_body]
pub(crate) fn char_is_whitespace(c: char) -> (b: bool)
    ensures
        b == is_whitespace(c),
{
    c.is_whitespace()
}

/// `line` without one `\r` at its end.
pub open spec fn without_cr(line: Seq<char>) -> Seq<char> {
    if line.len() > 0 && line.last() == '\r' { line.drop_last() } else { line }
}

/// The lines of `text` from offset `start`, scanning from `i`: each `\n`
/// ends a line (dropping a `\r` before it), and what is left after the last
/// `\n`, if anything, is a last line as it stands.
pub open spec fn lines_from(text: Seq<char>, start: int, i: int) -> Seq<Seq<char>>
    decreases text.len() - i,
{
    if i >= text.len() {
        if start < text.len() { seq![text.subrange(start, text.len() as int)] } else { Seq::empty() }
    } else if text[i] == '\n' {
        seq![without_cr(text.subrange(start, i))] + lines_from(text, i + 1, i + 1)
    } else {
        lines_from(text, start, i + 1)
    }
}

/// The lines of `text` as `str::lines` splits it.
pub open spec fn text_lines(text: Seq<char>) -> Seq<Seq<char>> {
    lines_from(text, 0, 0)
}

/// Calls `str::lines`: the text split at `\n` or `\r\n`, the terminators
/// dropped, and no empty line after a final terminator.
#[verifier::external_body]
pub(crate) fn split_lines(text: &str) -> (lines: Vec<String>)
    ensures
        lines.deep_view() == text_lines(text@),
{
    text.lines().map(|l| l.to_string()).collect()
}

/// Whether some character of `s` is uppercase.
pub open spec fn has_uppercase(s: Seq<char>) -> bool {
    exists|i: int| 0 <= i < s.len() && is_uppercase(s[i])
}

/// Whether some character of `s` is uppercase.
pub fn contains_uppercase(s: &str) -> (b: bool)
    ensures
        b == has_uppercase(s@),
{
    let chars = string_chars(s);
    let mut i: usize = 0;
    while i < chars.len()
        invariant
            i <= chars@.len(),
            chars@ == s@,
            forall|j: int| 0 <= j < i ==> !is_uppercase(s@[j]),
        decreases chars@.len() - i,
    {
        if char_is_uppercase(chars[i]) {
            return true;
        }
        i = i + 1;
    }
    false
}

/// The index of the first character of `s` that is not whitespace (the length when all are).
pub open spec fn trim_start_index(s: Seq<char>, i: int) -> int
    decreases s.len() - i,
{
    if i >= s.len() {
        s.len() as int
    } else if is_whitespace(s[i]) {
        trim_start_index(s, i + 1)
    } else {
        i
    }
}

/// The index just after the last character of `s` before `j` that is not whitespace.
pub open spec fn trim_end_index(s: Seq<char>, lo: int, j: int) -> int
    decreases j - lo,
{
    if j <= lo {
        lo
    } else if is_whitespace(s[j - 1]) {
        trim_end_index(s, lo, j - 1)
    } else {
        j
    }
}

/// `s` with leading and trailing whitespace removed (std's `str::trim`).
pub open spec fn trimmed(s: Seq<char>) -> Seq<char> {
    let lo = trim_start_index(s, 0);
    s.subrange(lo, trim_end_index(s, lo, s.len() as int))
}

proof fn lemma_trim_start_index(s: Seq<char>, i: int)
    requires
        0 <= i <= s.len(),
    ensures
        i <= trim_start_index(s, i) <= s.len(),
    decreases s.len() - i,
{
    if i < s.len() && is_whitespace(s[i]) {
        lemma_trim_start_index(s, i + 1);
    }
}

proof fn lemma_trim_end_index(s: Seq<char>, lo: int, j: int)
    requires
        0 <= lo <= j <= s.len(),
    ensures
        lo <= trim_end_index(s, lo, j) <= j,
    decreases j - lo,
{
    if j > lo && is_whitespace(s[j - 1]) {
        lemma_trim_end_index(s, lo, j - 1);
    }
}

/// Removes leading and trailing whitespace, as `str::trim` does.
pub fn trim(s: &str) -> (t: String)
    ensures
        t@ == trimmed(s@),
{
    let chars = string_chars(s);
    let n = chars.len();
    let mut lo: usize = 0;
    proof {
        lemma_trim_start_index(s@, 0);
    }
    while lo < n && char_is_whitespace(chars[lo])
        invariant
            lo <= n,
            n == s@.len(),
            chars@ == s@,
            trim_start_index(s@, lo as int) == trim_start_index(s@, 0),
        decreases n - lo,
    {
        lo = lo + 1;
    }
    let mut hi: usize = n;
    while hi > lo && char_is_whitespace(chars[hi - 1])
        invariant
            lo <= hi <= n,
            n == s@.len(),
            chars@ == s@,
            trim_start_index(s@, 0) == lo,
            trim_end_index(s@, lo as int, hi as int) == trim_end_index(s@, lo as int, n as int),
        decreases hi - lo,
    {
        hi = hi - 1;
    }
    let part = chars_slice_to_string(&chars, lo, hi);
    proof {
        assert(part@ == s@.subrange(lo as int, hi as int));
    }
    part
}

/// The characters `chars[lo..hi]` as a `String`.
pub fn chars_slice_to_string(chars: &Vec<char>, lo: usize, hi: usize) -> (s: String)
    requires
        lo <= hi <= chars@.len(),
    ensures
        s@ == chars@.subrange(lo as int, hi as int),
{
    let part = &chars.as_slice()[lo..hi];
    chars_to_string(part)
}

} // verus!
