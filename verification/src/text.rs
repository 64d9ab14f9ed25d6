//! Byte-level building blocks shared by the HTML and CSS readers: byte
//! classes, maximal runs, literal matching, and the UTF-8 decoding of
//! matched byte runs into `String`s.
use vstd::prelude::*;
use vstd::utf8::{valid_utf8, decode_utf8, pop_first_scalar};

verus! {

/// The result of running a reader at some position of its input.
///
/// `Done(value, end)` is a match that stops at byte `end`; `NoMatch` means the
/// reader does not apply there (and another alternative may be tried);
/// `Abort` marks an input on which reading cannot go on at all: a run of
/// bytes that has to become text but is not valid UTF-8, or a number that
/// does not fit its integer type.
#[derive(Debug)]
pub enum Outcome<T> {
    Done(T, usize),
    NoMatch,
    Abort,
}

/// The mathematical counterpart of [`Outcome`].
pub enum SOutcome<V> {
    Done(V, int),
    NoMatch,
    Abort,
}

impl<T: View> View for Outcome<T> {
    type V = SOutcome<T::V>;

    open spec fn view(&self) -> SOutcome<T::V> {
        match self {
            Outcome::Done(v, p) => SOutcome::Done(v@, *p as int),
            Outcome::NoMatch => SOutcome::NoMatch,
            Outcome::Abort => SOutcome::Abort,
        }
    }
}

impl<V> SOutcome<V> {
    /// The same outcome with `f` applied to a matched value.
    pub open spec fn map<W>(self, f: spec_fn(V) -> W) -> SOutcome<W> {
        match self {
            SOutcome::Done(v, p) => SOutcome::Done(f(v), p),
            SOutcome::NoMatch => SOutcome::NoMatch,
            SOutcome::Abort => SOutcome::Abort,
        }
    }

    /// Ordered choice: `self` unless it does not match, then `other`.
    pub open spec fn or(self, other: SOutcome<V>) -> SOutcome<V> {
        match self {
            SOutcome::NoMatch => other,
            _ => self,
        }
    }
}

impl<T> Outcome<T> {
    /// A match ends somewhere in `[start, len]`.
    pub open spec fn within(self, start: int, len: int) -> bool {
        match self {
            Outcome::Done(_, p) => start <= p <= len,
            _ => true,
        }
    }
}

/// Classes of bytes that the readers scan over.
#[derive(Clone, Copy, Debug, PartialEq, Eq, Structural)]
pub enum ByteClass {
    /// space, tab, carriage return, line feed
    Space,
    /// `0`-`9`
    Digit,
    /// `a`-`z`, `A`-`Z`
    Alpha,
    /// `a`-`z`, `A`-`Z`, `0`-`9`
    AlphaNum,
    /// `0`-`9`, `a`-`f`, `A`-`F`
    Hex,
    /// `A`-`Y`, `a`-`z` and `-`: the letters of a CSS keyword (`Z` is not one)
    KeywordLetter,
    /// letters, digits and `-`: what may follow the first letter of a CSS identifier
    IdentTail,
    /// every byte but `'`
    NotSingleQuote,
    /// every byte but `)` and `>`
    NotUrlEnd,
    /// every byte but `<`
    NotLt,
    /// every byte but `"`
    NotDoubleQuote,
    /// every byte but `>`
    NotGt,
}

pub open spec fn is_alpha(b: u8) -> bool {
    (65 <= b <= 90) || (97 <= b <= 122)
}

pub open spec fn is_digit(b: u8) -> bool {
    48 <= b <= 57
}

pub open spec fn is_hex(b: u8) -> bool {
    is_digit(b) || (65 <= b <= 70) || (97 <= b <= 102)
}

pub open spec fn is_space(b: u8) -> bool {
    b == 32 || b == 9 || b == 13 || b == 10
}

pub open spec fn in_class(c: ByteClass, b: u8) -> bool {
    match c {
        ByteClass::Space => is_space(b),
        ByteClass::Digit => is_digit(b),
        ByteClass::Alpha => is_alpha(b),
        ByteClass::AlphaNum => is_alpha(b) || is_digit(b),
        ByteClass::Hex => is_hex(b),
        ByteClass::KeywordLetter => (65 <= b < 90) || (97 <= b <= 122) || b == 45,
        ByteClass::IdentTail => is_alpha(b) || is_digit(b) || b == 45,
        ByteClass::NotSingleQuote => b != 39,
        ByteClass::NotUrlEnd => b != 41 && b != 62,
        ByteClass::NotLt => b != 60,
        ByteClass::NotDoubleQuote => b != 34,
        ByteClass::NotGt => b != 62,
    }
}

/// Whether the byte is in the class.
pub fn class_contains(c: ByteClass, b: u8) -> (r: bool)
    ensures
        r == in_class(c, b),
{
    match c {
        ByteClass::Space => b == 32 || b == 9 || b == 13 || b == 10,
        ByteClass::Digit => 48 <= b && b <= 57,
        ByteClass::Alpha => (65 <= b && b <= 90) || (97 <= b && b <= 122),
        ByteClass::AlphaNum => (65 <= b && b <= 90) || (97 <= b && b <= 122) || (48 <= b && b
            <= 57),
        ByteClass::Hex => (48 <= b && b <= 57) || (65 <= b && b <= 70) || (97 <= b && b <= 102),
        ByteClass::KeywordLetter => (65 <= b && b < 90) || (97 <= b && b <= 122) || b == 45,
        ByteClass::IdentTail => (65 <= b && b <= 90) || (97 <= b && b <= 122) || (48 <= b && b
            <= 57) || b == 45,
        ByteClass::NotSingleQuote => b != 39,
        ByteClass::NotUrlEnd => b != 41 && b != 62,
        ByteClass::NotLt => b != 60,
        ByteClass::NotDoubleQuote => b != 34,
        ByteClass::NotGt => b != 62,
    }
}

/// The end of the longest run of bytes of class `c` that starts at `i`.
pub open spec fn span(s: Seq<u8>, i: int, c: ByteClass) -> int
    decreases s.len() - i,
{
    if 0 <= i < s.len() && in_class(c, s[i]) {
        span(s, i + 1, c)
    } else {
        i
    }
}

pub proof fn lemma_span(s: Seq<u8>, i: int, c: ByteClass)
    requires
        0 <= i <= s.len(),
    ensures
        i <= span(s, i, c) <= s.len(),
        forall|k: int| i <= k < span(s, i, c) ==> in_class(c, #[trigger] s[k]),
        span(s, i, c) < s.len() ==> !in_class(c, s[span(s, i, c)]),
    decreases s.len() - i,
{
    if i < s.len() && in_class(c, s[i]) {
        lemma_span(s, i + 1, c);
    }
}

/// Scans the run of class `c` from `i`.
pub fn scan(s: &[u8], i: usize, c: ByteClass) -> (r: usize)
    requires
        i <= s@.len(),
    ensures
        r == span(s@, i as int, c),
        i <= r <= s@.len(),
{
    proof {
        lemma_span(s@, i as int, c);
    }
    let mut j = i;
    while j < s.len() && class_contains(c, s[j])
        invariant
            i <= j <= s@.len(),
            span(s@, j as int, c) == span(s@, i as int, c),
        decreases s@.len() - j,
    {
        j = j + 1;
    }
    j
}

/// `t` occurs in `s` at `i`.
pub open spec fn lit_at(s: Seq<u8>, i: int, t: Seq<u8>) -> bool {
    0 <= i && i + t.len() <= s.len() && s.subrange(i, i + t.len()) == t
}

/// Whether `t` occurs in `s` at `i`.
pub fn match_lit(s: &[u8], i: usize, t: &[u8]) -> (r: bool)
    requires
        i <= s@.len(),
    ensures
        r == lit_at(s@, i as int, t@),
{
    let n = s.len();
    if t.len() > n - i {
        return false;
    }
    let mut k: usize = 0;
    while k < t.len()
        invariant
            n == s@.len(),
            i + t@.len() <= n,
            k <= t@.len(),
            forall|m: int| 0 <= m < k ==> s@[i + m] == t@[m],
        decreases t@.len() - k,
    {
        if s[i + k] != t[k] {
            assert(s@.subrange(i as int, i + t@.len())[k as int] != t@[k as int]);
            return false;
        }
        k = k + 1;
    }
    assert(s@.subrange(i as int, i + t@.len()) =~= t@);
    true
}

/// The byte at `i`, if there is one.
pub open spec fn byte_is(s: Seq<u8>, i: int, b: u8) -> bool {
    0 <= i < s.len() && s[i] == b
}

/// Whether the byte at `i` is `b`.
pub fn byte_eq(s: &[u8], i: usize, b: u8) -> (r: bool)
    ensures
        r == byte_is(s@, i as int, b),
{
    i < s.len() && s[i] == b
}

/// A copy of the bytes `s[a..b]`.
pub fn copy_range(s: &[u8], a: usize, b: usize) -> (r: Vec<u8>)
    requires
        a <= b <= s@.len(),
    ensures
        r@ == s@.subrange(a as int, b as int),
{
    let mut v: Vec<u8> = Vec::new();
    let mut k = a;
    while k < b
        invariant
            a <= k <= b <= s@.len(),
            v@ == s@.subrange(a as int, k as int),
        decreases b - k,
    {
        v.push(s[k]);
        k = k + 1;
        assert(v@ =~= s@.subrange(a as int, k as int));
    }
    v
}

/// The text that the bytes encode, when they are valid UTF-8.
pub open spec fn text_of(b: Seq<u8>) -> Option<Seq<char>> {
    if valid_utf8(b) {
        Some(decode_utf8(b))
    } else {
        None
    }
}

/// `String::from_utf8`: the text of a byte vector that is valid UTF-8, and
/// nothing for one that is not. The contract restates the standard
/// library's documented behaviour over vstd's definition of UTF-8.
#[verifier::external_body]
pub(crate) fn bytes_to_text(v: Vec<u8>) -> (r: Option<String>)
    ensures
        r is Some <==> valid_utf8(v@),
        r matches Some(t) ==> t@ == decode_utf8(v@),
{
    String::from_utf8(v).ok()
}

/// Every byte is below 128.
pub open spec fn is_ascii_bytes(b: Seq<u8>) -> bool {
    forall|k: int| 0 <= k < b.len() ==> #[trigger] b[k] < 128
}

/// The characters of ASCII bytes, one for each.
pub open spec fn ascii_chars(b: Seq<u8>) -> Seq<char> {
    Seq::new(b.len(), |k: int| b[k] as char)
}

/// ASCII bytes are valid UTF-8 and decode one character per byte.
pub proof fn lemma_ascii_text(b: Seq<u8>)
    requires
        is_ascii_bytes(b),
    ensures
        text_of(b) == Some(ascii_chars(b)),
    decreases b.len(),
{
    if b.len() > 0 {
        let x = b[0];
        assert(x < 128);
        assert(x & 0x7f == x) by (bit_vector)
            requires
                x < 128,
        ;
        assert(pop_first_scalar(b) =~= b.drop_first());
        assert(is_ascii_bytes(b.drop_first())) by {
            assert forall|k: int| 0 <= k < b.drop_first().len() implies #[trigger] b.drop_first()[k]
                < 128 by {
                assert(b.drop_first()[k] == b[k + 1]);
            }
        }
        lemma_ascii_text(b.drop_first());
        assert(decode_utf8(b) =~= ascii_chars(b));
    } else {
        assert(decode_utf8(b) =~= ascii_chars(b));
    }
}

/// The text of ASCII bytes.
pub fn ascii_text(v: Vec<u8>) -> (r: String)
    requires
        is_ascii_bytes(v@),
    ensures
        r@ == ascii_chars(v@),
{
    proof {
        lemma_ascii_text(v@);
    }
    match bytes_to_text(v) {
        Some(t) => t,
        None => {
            assert(false);
            String::new()
        },
    }
}

/// The bytes of a run that lies in a byte class made of ASCII bytes only are ASCII.
pub proof fn lemma_run_ascii(s: Seq<u8>, a: int, b: int, c: ByteClass)
    requires
        0 <= a <= b <= s.len(),
        forall|k: int| a <= k < b ==> in_class(c, #[trigger] s[k]),
        c != ByteClass::NotSingleQuote && c != ByteClass::NotUrlEnd && c != ByteClass::NotLt
            && c != ByteClass::NotDoubleQuote && c != ByteClass::NotGt,
    ensures
        is_ascii_bytes(s.subrange(a, b)),
{
    assert forall|k: int| 0 <= k < s.subrange(a, b).len() implies #[trigger] s.subrange(a, b)[k]
        < 128 by {
        assert(s.subrange(a, b)[k] == s[a + k]);
        assert(in_class(c, s[a + k]));
    }
}

/// ASCII lowercase of a byte.
pub open spec fn lower_byte(b: u8) -> u8 {
    if 65 <= b <= 90 {
        (b + 32) as u8
    } else {
        b
    }
}

/// The ASCII lowercase of a byte.
pub fn to_lower_byte(b: u8) -> (r: u8)
    ensures
        r == lower_byte(b),
{
    if 65 <= b && b <= 90 {
        b + 32
    } else {
        b
    }
}

/// The first position from `k` at which `t` occurs, or the end of input.
pub open spec fn find_lit(s: Seq<u8>, k: int, t: Seq<u8>) -> int
    decreases s.len() - k,
{
    if k < 0 || k >= s.len() || lit_at(s, k, t) {
        k
    } else {
        find_lit(s, k + 1, t)
    }
}

pub proof fn lemma_find_lit(s: Seq<u8>, k: int, t: Seq<u8>)
    requires
        0 <= k <= s.len(),
    ensures
        k <= find_lit(s, k, t) <= s.len(),
    decreases s.len() - k,
{
    if !(k >= s.len() || lit_at(s, k, t)) {
        lemma_find_lit(s, k + 1, t);
    }
}

/// The first position from `k` at which `t` occurs, or the end of input.
pub fn scan_to_lit(s: &[u8], k: usize, t: &[u8]) -> (r: usize)
    requires
        k <= s@.len(),
    ensures
        r == find_lit(s@, k as int, t@),
        k <= r <= s@.len(),
{
    let n = s.len();
    let mut e = k;
    proof {
        lemma_find_lit(s@, k as int, t@);
    }
    while e < n && !match_lit(s, e, t)
        invariant
            n == s@.len(),
            k <= e <= n,
            find_lit(s@, e as int, t@) == find_lit(s@, k as int, t@),
        decreases n - e,
    {
        e = e + 1;
    }
    e
}

/// The characters of a string, in order (`str::chars` collected).
#[verifier::external_body]
pub(crate) fn chars_of(s: &str) -> (r: Vec<char>)
    ensures
        r@ == s@,
{
    s.chars().collect()
}

/// The string made of the given characters (`String::from_iter`).
#[verifier::external_body]
pub(crate) fn string_of(v: &[char]) -> (r: String)
    ensures
        r@ == v@,
{
    String::from_iter(v.iter())
}


/// What `str::to_lowercase` gives for a text: each character mapped by the
/// Unicode lowercase mapping.
pub uninterp spec fn lowercase(s: Seq<char>) -> Seq<char>;

/// Every character is ASCII.
pub open spec fn is_ascii_text(s: Seq<char>) -> bool {
    forall|k: int| 0 <= k < s.len() ==> (#[trigger] s[k] as u32) < 128
}

/// ASCII lowercase of a character: `A`-`Z` become `a`-`z`.
pub open spec fn lower_char(c: char) -> char {
    if 'A' <= c <= 'Z' {
        ((c as u32) + 32) as char
    } else {
        c
    }
}

/// Each character in ASCII lowercase.
pub open spec fn ascii_lowercase(s: Seq<char>) -> Seq<char> {
    Seq::new(s.len(), |k: int| lower_char(s[k]))
}

/// The lowercase of a text: ASCII lowercase for ASCII text, else what
/// [`lowercase`] names.
pub open spec fn lower_text(s: Seq<char>) -> Seq<char> {
    if is_ascii_text(s) {
        ascii_lowercase(s)
    } else {
        lowercase(s)
    }
}

/// `str::to_lowercase`. Its result depends on the characters alone and is
/// named by [`lowercase`]. Of the Unicode lowercase mapping only its ASCII
/// part is stated: ASCII text maps `A`-`Z` to `a`-`z` and keeps every other
/// character, as the Unicode mapping does for ASCII and as the function's
/// documented example (`"HELLO"` to `"hello"`) shows.
#[verifier::external_body]
pub(crate) fn to_lowercase(s: &str) -> (r: String)
    ensures
        r@ == lowercase(s@),
        is_ascii_text(s@) ==> r@ == ascii_lowercase(s@),
{
    s.to_lowercase()
}

} // verus!
