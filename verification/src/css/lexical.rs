//! The lexical layer of the CSS reader: white space, numbers, units,
//! strings, identifiers, keywords, colours, URLs and unicode ranges.
//!
//! Each reader comes as a spec function `sp_*` over the input bytes and a
//! position, and an executable function of the same name without the
//! prefix whose result is proved to be the spec function's.
use vstd::prelude::*;
use crate::text::{
    Outcome, SOutcome, ByteClass, span, lemma_span, scan, byte_is, byte_eq, lit_at, match_lit,
    copy_range, text_of, bytes_to_text, ascii_chars, ascii_text, lemma_run_ascii, is_ascii_bytes,
    lower_byte, to_lower_byte, is_digit, is_alpha, class_contains, is_hex,
};
use crate::css::model::{all_digits, Decimal, DecimalView, Unit, Value, ValueView};

verus! {

// ---------------------------------------------------------------- white space
/// `[ \t\r\n]*`
pub open spec fn sp_space(s: Seq<u8>, i: int) -> int {
    span(s, i, ByteClass::Space)
}

/// The end of the white space that starts at `i`.
pub fn space(s: &[u8], i: usize) -> (r: usize)
    requires
        i <= s@.len(),
    ensures
        r == sp_space(s@, i as int),
        i <= r <= s@.len(),
{
    let n = s.len();
    scan(s, i, ByteClass::Space)
}

// ---------------------------------------------------------------- decimals
/// The values of ASCII digits.
pub open spec fn digit_values(b: Seq<u8>) -> Seq<u8> {
    Seq::new(b.len(), |k: int| (b[k] - 48) as u8)
}

pub open spec fn strip_leading_zeros(d: Seq<u8>) -> Seq<u8>
    decreases d.len(),
{
    if d.len() > 0 && d[0] == 0 {
        strip_leading_zeros(d.drop_first())
    } else {
        d
    }
}

pub open spec fn strip_trailing_zeros(d: Seq<u8>) -> Seq<u8>
    decreases d.len(),
{
    if d.len() > 0 && d.last() == 0 {
        strip_trailing_zeros(d.drop_last())
    } else {
        d
    }
}

/// The canonical decimal with the given sign and digit values.
pub open spec fn canonical(negative: bool, ints: Seq<u8>, fracs: Seq<u8>) -> DecimalView {
    let i = strip_leading_zeros(ints);
    let f = strip_trailing_zeros(fracs);
    DecimalView { negative: negative && !(i.len() == 0 && f.len() == 0), int_digits: i, frac_digits: f }
}

proof fn lemma_strip_leading(d: Seq<u8>)
    ensures
        strip_leading_zeros(d).len() > 0 ==> strip_leading_zeros(d)[0] != 0,
        exists|k: int| 0 <= k <= d.len() && strip_leading_zeros(d) == d.subrange(k, d.len() as int),
    decreases d.len(),
{
    if d.len() > 0 && d[0] == 0 {
        lemma_strip_leading(d.drop_first());
        let k = choose|k: int| 0 <= k <= d.drop_first().len() && strip_leading_zeros(d.drop_first())
            == d.drop_first().subrange(k, d.drop_first().len() as int);
        assert(d.drop_first().subrange(k, d.drop_first().len() as int) =~= d.subrange(k + 1, d.len() as int));
    } else {
        assert(d.subrange(0, d.len() as int) =~= d);
    }
}

proof fn lemma_strip_trailing(d: Seq<u8>)
    ensures
        strip_trailing_zeros(d).len() > 0 ==> strip_trailing_zeros(d).last() != 0,
        exists|k: int| 0 <= k <= d.len() && strip_trailing_zeros(d) == d.subrange(0, k),
    decreases d.len(),
{
    if d.len() > 0 && d.last() == 0 {
        lemma_strip_trailing(d.drop_last());
        let k = choose|k: int| 0 <= k <= d.drop_last().len() && strip_trailing_zeros(d.drop_last())
            == d.drop_last().subrange(0, k);
        assert(d.drop_last().subrange(0, k) =~= d.subrange(0, k));
    } else {
        assert(d.subrange(0, d.len() as int) =~= d);
    }
}

/// Decimals made of digits are canonical once their zeros are stripped.
proof fn lemma_canonical_well_formed(negative: bool, ints: Seq<u8>, fracs: Seq<u8>)
    requires
        all_digits(ints),
        all_digits(fracs),
    ensures
        canonical(negative, ints, fracs).well_formed(),
{
    lemma_strip_leading(ints);
    lemma_strip_trailing(fracs);
    let i = strip_leading_zeros(ints);
    let f = strip_trailing_zeros(fracs);
    let a = choose|k: int| 0 <= k <= ints.len() && i == ints.subrange(k, ints.len() as int);
    let b = choose|k: int| 0 <= k <= fracs.len() && f == fracs.subrange(0, k);
    assert forall|m: int| 0 <= m < i.len() implies #[trigger] i[m] <= 9 by {
        assert(i[m] == ints[a + m]);
    }
    assert forall|m: int| 0 <= m < f.len() implies #[trigger] f[m] <= 9 by {
        assert(f[m] == fracs[m]);
    }
}

fn strip_leading(d: &[u8]) -> (r: Vec<u8>)
    ensures
        r@ == strip_leading_zeros(d@),
{
    let mut k: usize = 0;
    assert(d@.subrange(0, d@.len() as int) =~= d@);
    while k < d.len() && d[k] == 0
        invariant
            k <= d@.len(),
            strip_leading_zeros(d@.subrange(k as int, d@.len() as int)) == strip_leading_zeros(
                d@,
            ),
        decreases d@.len() - k,
    {
        assert(d@.subrange(k as int, d@.len() as int).drop_first() =~= d@.subrange(
            k + 1,
            d@.len() as int,
        ));
        k = k + 1;
    }
    assert(d@.subrange(0, d@.len() as int) =~= d@);
    copy_range(d, k, d.len())
}

fn strip_trailing(d: &[u8]) -> (r: Vec<u8>)
    ensures
        r@ == strip_trailing_zeros(d@),
{
    let mut k: usize = d.len();
    assert(d@.subrange(0, d@.len() as int) =~= d@);
    while k > 0 && d[k - 1] == 0
        invariant
            k <= d@.len(),
            strip_trailing_zeros(d@.subrange(0, k as int)) == strip_trailing_zeros(d@),
        decreases k,
    {
        assert(d@.subrange(0, k as int).drop_last() =~= d@.subrange(0, k - 1));
        k = k - 1;
    }
    copy_range(d, 0, k)
}

impl Decimal {
    /// The canonical decimal with the given sign and digit values: leading
    /// zeros of the integer part and trailing zeros of the fraction dropped,
    /// and no sign on zero.
    pub fn new(negative: bool, int_digits: &[u8], frac_digits: &[u8]) -> (r: Decimal)
        ensures
            r@ == canonical(negative, int_digits@, frac_digits@),
            all_digits(int_digits@) && all_digits(frac_digits@) ==> r@.well_formed(),
    {
        proof {
            if all_digits(int_digits@) && all_digits(frac_digits@) {
                lemma_canonical_well_formed(negative, int_digits@, frac_digits@);
            }
        }
        let ints = strip_leading(int_digits);
        let fracs = strip_trailing(frac_digits);
        let neg = negative && !(ints.len() == 0 && fracs.len() == 0);
        Decimal { negative: neg, int_digits: ints, frac_digits: fracs }
    }
}

fn digits_of(s: &[u8], a: usize, b: usize) -> (r: Vec<u8>)
    requires
        a <= b <= s@.len(),
        forall|k: int| a <= k < b ==> is_digit(#[trigger] s@[k]),
    ensures
        r@ == digit_values(s@.subrange(a as int, b as int)),
        all_digits(r@),
{
    let mut v: Vec<u8> = Vec::new();
    let mut k = a;
    while k < b
        invariant
            a <= k <= b <= s@.len(),
            forall|m: int| a <= m < b ==> is_digit(#[trigger] s@[m]),
            v@ == digit_values(s@.subrange(a as int, k as int)),
        decreases b - k,
    {
        assert(is_digit(s@[k as int]));
        let d = s[k] - 48;
        v.push(d);
        k = k + 1;
        assert(v@ =~= digit_values(s@.subrange(a as int, k as int)));
    }
    v
}

// ---------------------------------------------------------------- numbers
/// The end of the integer part `[1-9][0-9]* | 0` that starts at `j`, or `j`.
pub open spec fn int_part_end(s: Seq<u8>, j: int) -> int {
    if 0 <= j < s.len() && 49 <= s[j] <= 57 {
        span(s, j + 1, ByteClass::Digit)
    } else if byte_is(s, j, 48) {
        j + 1
    } else {
        j
    }
}

/// The end of the fraction `\.[0-9]+` that starts at `j`, or `j`.
pub open spec fn frac_part_end(s: Seq<u8>, j: int) -> int {
    if byte_is(s, j, 46) && span(s, j + 1, ByteClass::Digit) > j + 1 {
        span(s, j + 1, ByteClass::Digit)
    } else {
        j
    }
}

/// `-?([1-9][0-9]*|0)?(\.[0-9]+)?` read as a number: it matches when at
/// least one digit was read.
pub open spec fn sp_number(s: Seq<u8>, i: int) -> SOutcome<DecimalView> {
    let neg = byte_is(s, i, 45);
    let j1 = if neg {
        i + 1
    } else {
        i
    };
    let j2 = int_part_end(s, j1);
    let j3 = frac_part_end(s, j2);
    if j2 == j1 && j3 == j2 {
        SOutcome::NoMatch
    } else {
        SOutcome::Done(
            canonical(
                neg,
                digit_values(s.subrange(j1, j2)),
                digit_values(
                    if j3 > j2 {
                        s.subrange(j2 + 1, j3)
                    } else {
                        Seq::empty()
                    },
                ),
            ),
            j3,
        )
    }
}

/// Reads what [`sp_number`] describes, at `i`.
pub fn number(s: &[u8], i: usize) -> (r: Outcome<Decimal>)
    requires
        i <= s@.len(),
    ensures
        r@ == sp_number(s@, i as int),
        r.within(i as int, s@.len() as int),
        r matches Outcome::Done(d, _) ==> d@.well_formed(),
{
    let n = s.len();
    let neg = byte_eq(s, i, 45);
    let j1 = if neg {
        i + 1
    } else {
        i
    };
    let j2 = if j1 < s.len() && 49 <= s[j1] && s[j1] <= 57 {
        scan(s, j1 + 1, ByteClass::Digit)
    } else if byte_eq(s, j1, 48) {
        j1 + 1
    } else {
        j1
    };
    assert(j2 == int_part_end(s@, j1 as int));
    let mut j3 = j2;
    if byte_eq(s, j2, 46) {
        let e = scan(s, j2 + 1, ByteClass::Digit);
        if e > j2 + 1 {
            j3 = e;
        }
    }
    assert(j3 == frac_part_end(s@, j2 as int));
    if j2 == j1 && j3 == j2 {
        return Outcome::NoMatch;
    }
    proof {
        lemma_span(s@, j1 + 1, ByteClass::Digit);
        if j2 < n {
            lemma_span(s@, j2 + 1, ByteClass::Digit);
        }
    }
    let ints = digits_of(s, j1, j2);
    let fracs = if j3 > j2 {
        digits_of(s, j2 + 1, j3)
    } else {
        assert(s@.subrange(j2 as int, j2 as int) =~= Seq::<u8>::empty());
        digits_of(s, j2, j2)
    };
    let d = Decimal::new(neg, ints.as_slice(), fracs.as_slice());
    Outcome::Done(d, j3)
}

// ---------------------------------------------------------------- units
/// `% | px | rem | em`, tried in that order.
pub open spec fn sp_unit(s: Seq<u8>, i: int) -> SOutcome<Unit> {
    if byte_is(s, i, 37) {
        SOutcome::Done(Unit::Per, i + 1)
    } else if lit_at(s, i, seq![112u8, 120]) {
        SOutcome::Done(Unit::Px, i + 2)
    } else if lit_at(s, i, seq![114u8, 101, 109]) {
        SOutcome::Done(Unit::Rem, i + 3)
    } else if lit_at(s, i, seq![101u8, 109]) {
        SOutcome::Done(Unit::Em, i + 2)
    } else {
        SOutcome::NoMatch
    }
}

/// Reads what [`sp_unit`] describes, at `i`.
pub fn unit(s: &[u8], i: usize) -> (r: Outcome<Unit>)
    requires
        i <= s@.len(),
    ensures
        r@ == sp_unit(s@, i as int),
        r.within(i as int, s@.len() as int),
{
    let n = s.len();
    if byte_eq(s, i, 37) {
        Outcome::Done(Unit::Per, i + 1)
    } else if match_lit(s, i, &[112u8, 120]) {
        assert(seq![112u8, 120] =~= [112u8, 120]@);
        Outcome::Done(Unit::Px, i + 2)
    } else if match_lit(s, i, &[114u8, 101, 109]) {
        Outcome::Done(Unit::Rem, i + 3)
    } else if match_lit(s, i, &[101u8, 109]) {
        Outcome::Done(Unit::Em, i + 2)
    } else {
        Outcome::NoMatch
    }
}

// ---------------------------------------------------------------- lengths
/// A number followed by a unit.
pub open spec fn sp_length_unit(s: Seq<u8>, i: int) -> SOutcome<ValueView> {
    match sp_number(s, i) {
        SOutcome::Done(d, p) => match sp_unit(s, p) {
            SOutcome::Done(u, q) => SOutcome::Done(ValueView::Length(d, u), q),
            SOutcome::NoMatch => SOutcome::NoMatch,
            SOutcome::Abort => SOutcome::Abort,
        },
        SOutcome::NoMatch => SOutcome::NoMatch,
        SOutcome::Abort => SOutcome::Abort,
    }
}

/// Reads what [`sp_length_unit`] describes, at `i`.
pub fn length_unit(s: &[u8], i: usize) -> (r: Outcome<Value>)
    requires
        i <= s@.len(),
    ensures
        r@ == sp_length_unit(s@, i as int),
        r.within(i as int, s@.len() as int),
{
    let n = s.len();
    match number(s, i) {
        Outcome::Done(d, p) => match unit(s, p) {
            Outcome::Done(u, q) => Outcome::Done(Value::Length(d, u), q),
            Outcome::NoMatch => Outcome::NoMatch,
            Outcome::Abort => Outcome::Abort,
        },
        Outcome::NoMatch => Outcome::NoMatch,
        Outcome::Abort => Outcome::Abort,
    }
}

// ---------------------------------------------------------------- strings
/// The byte that the escape `\b` stands for, for the escapable `b`.
pub open spec fn escaped(b: u8) -> Option<u8> {
    if b == 92 {
        Some(92u8)
    } else if b == 47 {
        Some(47u8)
    } else if b == 34 {
        Some(34u8)
    } else if b == 98 {
        Some(8u8)
    } else if b == 102 {
        Some(12u8)
    } else if b == 110 {
        Some(10u8)
    } else if b == 114 {
        Some(13u8)
    } else if b == 116 {
        Some(9u8)
    } else {
        None
    }
}

fn escape_of(b: u8) -> (r: Option<u8>)
    ensures
        r == escaped(b),
{
    if b == 92 {
        Some(92u8)
    } else if b == 47 {
        Some(47u8)
    } else if b == 34 {
        Some(34u8)
    } else if b == 98 {
        Some(8u8)
    } else if b == 102 {
        Some(12u8)
    } else if b == 110 {
        Some(10u8)
    } else if b == 114 {
        Some(13u8)
    } else if b == 116 {
        Some(9u8)
    } else {
        None
    }
}

/// The body of a double-quoted string from `p`: the bytes it stands for and
/// where it stops. A body byte is anything but `\` and `"`, or an escape.
pub open spec fn sp_dq_body(s: Seq<u8>, p: int) -> (Seq<u8>, int)
    decreases s.len() - p,
{
    if 0 <= p < s.len() && s[p] != 92 && s[p] != 34 {
        let r = sp_dq_body(s, p + 1);
        (seq![s[p]] + r.0, r.1)
    } else if 0 <= p && p + 1 < s.len() && s[p] == 92 && escaped(s[p + 1]) is Some {
        let r = sp_dq_body(s, p + 2);
        (seq![escaped(s[p + 1])->0] + r.0, r.1)
    } else {
        (Seq::empty(), p)
    }
}

pub proof fn lemma_dq_body_end(s: Seq<u8>, p: int)
    requires
        0 <= p <= s.len(),
    ensures
        p <= sp_dq_body(s, p).1 <= s.len(),
    decreases s.len() - p,
{
    if 0 <= p < s.len() && s[p] != 92 && s[p] != 34 {
        lemma_dq_body_end(s, p + 1);
    } else if 0 <= p && p + 1 < s.len() && s[p] == 92 && escaped(s[p + 1]) is Some {
        lemma_dq_body_end(s, p + 2);
    }
}

/// `"` body `"`, whose bytes must be valid UTF-8 for a match.
pub open spec fn sp_dq_string(s: Seq<u8>, i: int) -> SOutcome<Seq<char>> {
    if byte_is(s, i, 34) {
        let (b, p) = sp_dq_body(s, i + 1);
        if byte_is(s, p, 34) {
            match text_of(b) {
                Some(t) => SOutcome::Done(t, p + 1),
                None => SOutcome::NoMatch,
            }
        } else {
            SOutcome::NoMatch
        }
    } else {
        SOutcome::NoMatch
    }
}

/// Reads what [`sp_dq_string`] describes, at `i`.
pub fn dq_string(s: &[u8], i: usize) -> (r: Outcome<String>)
    requires
        i <= s@.len(),
    ensures
        r@ == sp_dq_string(s@, i as int),
        r.within(i as int, s@.len() as int),
{
    let n = s.len();
    if !byte_eq(s, i, 34) {
        return Outcome::NoMatch;
    }
    let mut acc: Vec<u8> = Vec::new();
    let mut p = i + 1;
    proof {
        lemma_dq_body_end(s@, p as int);
    }
    while p < n
        invariant
            n == s@.len(),
            i + 1 <= p <= n,
            sp_dq_body(s@, i + 1) == (acc@ + sp_dq_body(s@, p as int).0, sp_dq_body(
                s@,
                p as int,
            ).1),
        ensures
            i + 1 <= p <= n,
            sp_dq_body(s@, i + 1) == (acc@ + sp_dq_body(s@, p as int).0, sp_dq_body(
                s@,
                p as int,
            ).1),
            sp_dq_body(s@, p as int).0 =~= Seq::<u8>::empty(),
            sp_dq_body(s@, p as int).1 == p,
        decreases n - p,
    {
        let b = s[p];
        if b != 92 && b != 34 {
            let ghost rest = sp_dq_body(s@, p + 1);
            assert(acc@ + (seq![b] + rest.0) =~= acc@.push(b) + rest.0);
            acc.push(b);
            p = p + 1;
        } else if b == 92 && p + 1 < n {
            match escape_of(s[p + 1]) {
                Some(e) => {
                    let ghost rest = sp_dq_body(s@, p + 2);
                    assert(acc@ + (seq![e] + rest.0) =~= acc@.push(e) + rest.0);
                    acc.push(e);
                    p = p + 2;
                },
                None => {
                    break ;
                },
            }
        } else {
            break ;
        }
    }
    assert(sp_dq_body(s@, p as int).0 =~= Seq::<u8>::empty());
    assert(acc@ + Seq::<u8>::empty() =~= acc@);
    if !byte_eq(s, p, 34) {
        return Outcome::NoMatch;
    }
    match bytes_to_text(acc) {
        Some(t) => Outcome::Done(t, p + 1),
        None => Outcome::NoMatch,
    }
}

/// `'` run of non-`'` bytes `'`; bytes that are not valid UTF-8 abort.
pub open spec fn sp_sq_string(s: Seq<u8>, i: int) -> SOutcome<Seq<char>> {
    if byte_is(s, i, 39) {
        let e = span(s, i + 1, ByteClass::NotSingleQuote);
        if byte_is(s, e, 39) {
            match text_of(s.subrange(i + 1, e)) {
                Some(t) => SOutcome::Done(t, e + 1),
                None => SOutcome::Abort,
            }
        } else {
            SOutcome::NoMatch
        }
    } else {
        SOutcome::NoMatch
    }
}

/// Reads what [`sp_sq_string`] describes, at `i`.
pub fn sq_string(s: &[u8], i: usize) -> (r: Outcome<String>)
    requires
        i <= s@.len(),
    ensures
        r@ == sp_sq_string(s@, i as int),
        r.within(i as int, s@.len() as int),
{
    let n = s.len();
    if !byte_eq(s, i, 39) {
        return Outcome::NoMatch;
    }
    let e = scan(s, i + 1, ByteClass::NotSingleQuote);
    if !byte_eq(s, e, 39) {
        return Outcome::NoMatch;
    }
    match bytes_to_text(copy_range(s, i + 1, e)) {
        Some(t) => Outcome::Done(t, e + 1),
        None => Outcome::Abort,
    }
}

/// A single-quoted or else a double-quoted string.
pub open spec fn sp_string_literal(s: Seq<u8>, i: int) -> SOutcome<ValueView> {
    sp_sq_string(s, i).or(sp_dq_string(s, i)).map(|t: Seq<char>| ValueView::StringLiteral(t))
}

/// Reads what [`sp_string_literal`] describes, at `i`.
pub fn string_literal(s: &[u8], i: usize) -> (r: Outcome<Value>)
    requires
        i <= s@.len(),
    ensures
        r@ == sp_string_literal(s@, i as int),
        r.within(i as int, s@.len() as int),
{
    let n = s.len();
    let first = sq_string(s, i);
    let chosen = match first {
        Outcome::NoMatch => dq_string(s, i),
        _ => first,
    };
    match chosen {
        Outcome::Done(t, p) => Outcome::Done(Value::StringLiteral(t), p),
        Outcome::NoMatch => Outcome::NoMatch,
        Outcome::Abort => Outcome::Abort,
    }
}

// ---------------------------------------------------------------- names
/// White space, a letter, then letters, digits and `-`.
pub open spec fn sp_identifier(s: Seq<u8>, i: int) -> SOutcome<Seq<char>> {
    let p = sp_space(s, i);
    if 0 <= p < s.len() && is_alpha(s[p]) {
        let e = span(s, p + 1, ByteClass::IdentTail);
        SOutcome::Done(ascii_chars(s.subrange(p, e)), e)
    } else {
        SOutcome::NoMatch
    }
}

/// Reads what [`sp_identifier`] describes, at `i`.
pub fn identifier(s: &[u8], i: usize) -> (r: Outcome<String>)
    requires
        i <= s@.len(),
    ensures
        r@ == sp_identifier(s@, i as int),
        r.within(i as int, s@.len() as int),
{
    let n = s.len();
    let p = space(s, i);
    if p < s.len() && class_contains(ByteClass::Alpha, s[p]) {
        let e = scan(s, p + 1, ByteClass::IdentTail);
        proof {
            lemma_span(s@, p + 1, ByteClass::IdentTail);
            assert forall|k: int| p <= k < e implies crate::text::in_class(
                ByteClass::IdentTail,
                #[trigger] s@[k],
            ) by {}
            lemma_run_ascii(s@, p as int, e as int, ByteClass::IdentTail);
        }
        Outcome::Done(ascii_text(copy_range(s, p, e)), e)
    } else {
        Outcome::NoMatch
    }
}

/// White space, then a run of the letters `A`-`Y`, `a`-`z` and `-`.
pub open spec fn sp_keyword(s: Seq<u8>, i: int) -> SOutcome<ValueView> {
    let p = sp_space(s, i);
    let e = span(s, p, ByteClass::KeywordLetter);
    if e > p {
        SOutcome::Done(ValueView::Keyword(ascii_chars(s.subrange(p, e))), e)
    } else {
        SOutcome::NoMatch
    }
}

/// Reads what [`sp_keyword`] describes, at `i`.
pub fn keyword(s: &[u8], i: usize) -> (r: Outcome<Value>)
    requires
        i <= s@.len(),
    ensures
        r@ == sp_keyword(s@, i as int),
        r.within(i as int, s@.len() as int),
{
    let n = s.len();
    let p = space(s, i);
    let e = scan(s, p, ByteClass::KeywordLetter);
    if e > p {
        proof {
            lemma_span(s@, p as int, ByteClass::KeywordLetter);
            lemma_run_ascii(s@, p as int, e as int, ByteClass::KeywordLetter);
        }
        Outcome::Done(Value::Keyword(ascii_text(copy_range(s, p, e))), e)
    } else {
        Outcome::NoMatch
    }
}

// ---------------------------------------------------------------- colours
pub open spec fn lower_bytes(b: Seq<u8>) -> Seq<u8> {
    Seq::new(b.len(), |k: int| lower_byte(b[k]))
}

/// The number of hex digits a colour takes at `p`: six when there are six,
/// else three when there are three.
pub open spec fn hex_run(s: Seq<u8>, p: int) -> int {
    let e = span(s, p, ByteClass::Hex);
    if e - p >= 6 {
        6
    } else if e - p >= 3 {
        3
    } else {
        0
    }
}

/// `#` and six (else three) hex digits, lowercased.
pub open spec fn sp_hexcolor(s: Seq<u8>, i: int) -> SOutcome<ValueView> {
    if byte_is(s, i, 35) && hex_run(s, i + 1) > 0 {
        let n = hex_run(s, i + 1);
        SOutcome::Done(
            ValueView::HexColor(
                ascii_chars(seq![35u8] + lower_bytes(s.subrange(i + 1, i + 1 + n))),
            ),
            i + 1 + n,
        )
    } else {
        SOutcome::NoMatch
    }
}

/// Reads what [`sp_hexcolor`] describes, at `i`.
pub fn hexcolor(s: &[u8], i: usize) -> (r: Outcome<Value>)
    requires
        i <= s@.len(),
    ensures
        r@ == sp_hexcolor(s@, i as int),
        r.within(i as int, s@.len() as int),
{
    let n = s.len();
    if !byte_eq(s, i, 35) {
        return Outcome::NoMatch;
    }
    let e = scan(s, i + 1, ByteClass::Hex);
    let n: usize = if e - (i + 1) >= 6 {
        6
    } else if e - (i + 1) >= 3 {
        3
    } else {
        0
    };
    if n == 0 {
        return Outcome::NoMatch;
    }
    proof {
        lemma_span(s@, i + 1, ByteClass::Hex);
    }
    let mut v: Vec<u8> = Vec::new();
    v.push(35);
    let mut k = i + 1;
    while k < i + 1 + n
        invariant
            i + 1 <= k <= i + 1 + n <= e <= s@.len(),
            forall|m: int| i + 1 <= m < e ==> is_hex(#[trigger] s@[m]),
            v@ == seq![35u8] + lower_bytes(s@.subrange(i + 1, k as int)),
            is_ascii_bytes(v@),
        decreases i + 1 + n - k,
    {
        assert(is_hex(s@[k as int]));
        let b = to_lower_byte(s[k]);
        v.push(b);
        k = k + 1;
        assert(v@ =~= seq![35u8] + lower_bytes(s@.subrange(i + 1, k as int)));
    }
    Outcome::Done(Value::HexColor(ascii_text(v)), i + 1 + n)
}

// ---------------------------------------------------------------- URLs
/// A non-empty run of bytes other than `)` and `>`; bytes that are not valid
/// UTF-8 abort.
pub open spec fn sp_url(s: Seq<u8>, i: int) -> SOutcome<ValueView> {
    let e = span(s, i, ByteClass::NotUrlEnd);
    if e > i {
        match text_of(s.subrange(i, e)) {
            Some(t) => SOutcome::Done(ValueView::StringLiteral(t), e),
            None => SOutcome::Abort,
        }
    } else {
        SOutcome::NoMatch
    }
}

/// Reads what [`sp_url`] describes, at `i`.
pub fn url(s: &[u8], i: usize) -> (r: Outcome<Value>)
    requires
        i <= s@.len(),
    ensures
        r@ == sp_url(s@, i as int),
        r.within(i as int, s@.len() as int),
{
    let n = s.len();
    let e = scan(s, i, ByteClass::NotUrlEnd);
    if e > i {
        match bytes_to_text(copy_range(s, i, e)) {
            Some(t) => Outcome::Done(Value::StringLiteral(t), e),
            None => Outcome::Abort,
        }
    } else {
        Outcome::NoMatch
    }
}

// ---------------------------------------------------------------- unicode ranges
pub open spec fn hex_digit_value(b: u8) -> int {
    if is_digit(b) {
        b - 48
    } else if 65 <= b <= 70 {
        b - 55
    } else {
        b - 87
    }
}

/// The number that hex digits denote.
pub open spec fn hex_value(b: Seq<u8>) -> int
    decreases b.len(),
{
    if b.len() == 0 {
        0
    } else {
        hex_value(b.drop_last()) * 16 + hex_digit_value(b.last())
    }
}

fn hex_digit(b: u8) -> (r: i32)
    requires
        is_hex(b),
    ensures
        r == hex_digit_value(b),
        0 <= r < 16,
{
    if 48 <= b && b <= 57 {
        (b - 48) as i32
    } else if 65 <= b && b <= 70 {
        (b - 55) as i32
    } else {
        (b - 87) as i32
    }
}

/// Exactly four hex digits.
pub open spec fn sp_hex4(s: Seq<u8>, i: int) -> SOutcome<i32> {
    if span(s, i, ByteClass::Hex) >= i + 4 {
        SOutcome::Done(hex_value(s.subrange(i, i + 4)) as i32, i + 4)
    } else {
        SOutcome::NoMatch
    }
}

/// Reads what [`sp_hex4`] describes, at `i`.
pub fn hex4(s: &[u8], i: usize) -> (r: Outcome<i32>)
    requires
        i <= s@.len(),
    ensures
        r@ == sp_hex4(s@, i as int),
        r.within(i as int, s@.len() as int),
{
    let n = s.len();
    let e = scan(s, i, ByteClass::Hex);
    if e - i < 4 {
        return Outcome::NoMatch;
    }
    proof {
        lemma_span(s@, i as int, ByteClass::Hex);
        assert(is_hex(s@[i as int]));
        assert(is_hex(s@[i + 1]));
        assert(is_hex(s@[i + 2]));
        assert(is_hex(s@[i + 3]));
    }
    let h0 = hex_digit(s[i]);
    let h1 = hex_digit(s[i + 1]);
    let h2 = hex_digit(s[i + 2]);
    let h3 = hex_digit(s[i + 3]);
    let v = ((h0 * 16 + h1) * 16 + h2) * 16 + h3;
    proof {
        let b = s@.subrange(i as int, i + 4);
        assert(b.drop_last() =~= s@.subrange(i as int, i + 3));
        assert(b.drop_last().drop_last() =~= s@.subrange(i as int, i + 2));
        assert(b.drop_last().drop_last().drop_last() =~= s@.subrange(i as int, i + 1));
        let b1 = s@.subrange(i as int, i + 1);
        let b2 = s@.subrange(i as int, i + 2);
        let b3 = s@.subrange(i as int, i + 3);
        assert(b1.drop_last() =~= Seq::<u8>::empty());
        assert(hex_value(b1.drop_last()) == 0);
        assert(b1.last() == s@[i as int]);
        assert(b2.drop_last() =~= b1);
        assert(b2.last() == s@[i + 1]);
        assert(b3.drop_last() =~= b2);
        assert(b3.last() == s@[i + 2]);
        assert(b.last() == s@[i + 3]);
        assert(hex_value(s@.subrange(i as int, i + 1)) == h0);
        assert(hex_value(s@.subrange(i as int, i + 2)) == h0 * 16 + h1);
        assert(hex_value(s@.subrange(i as int, i + 3)) == (h0 * 16 + h1) * 16 + h2);
    }
    Outcome::Done(v, i + 4)
}

/// White space, `U+` and four hex digits.
pub open spec fn sp_unicode_codepoint(s: Seq<u8>, i: int) -> SOutcome<ValueView> {
    let p = sp_space(s, i);
    if lit_at(s, p, seq![85u8, 43]) {
        sp_hex4(s, p + 2).map(|c: i32| ValueView::UnicodeCodepoint(c))
    } else {
        SOutcome::NoMatch
    }
}

/// Reads what [`sp_unicode_codepoint`] describes, at `i`.
pub fn unicode_codepoint(s: &[u8], i: usize) -> (r: Outcome<Value>)
    requires
        i <= s@.len(),
    ensures
        r@ == sp_unicode_codepoint(s@, i as int),
        r.within(i as int, s@.len() as int),
{
    let n = s.len();
    let p = space(s, i);
    if !match_lit(s, p, &[85u8, 43]) {
        return Outcome::NoMatch;
    }
    match hex4(s, p + 2) {
        Outcome::Done(c, q) => Outcome::Done(Value::UnicodeCodepoint(c), q),
        Outcome::NoMatch => Outcome::NoMatch,
        Outcome::Abort => Outcome::Abort,
    }
}

/// White space, `U+`, four hex digits, `-` and four hex digits.
pub open spec fn sp_unicode_range(s: Seq<u8>, i: int) -> SOutcome<ValueView> {
    let p = sp_space(s, i);
    if lit_at(s, p, seq![85u8, 43]) {
        match sp_hex4(s, p + 2) {
            SOutcome::Done(a, q) => if byte_is(s, q, 45) {
                sp_hex4(s, q + 1).map(|b: i32| ValueView::UnicodeRange(a, b))
            } else {
                SOutcome::NoMatch
            },
            _ => SOutcome::NoMatch,
        }
    } else {
        SOutcome::NoMatch
    }
}

/// Reads what [`sp_unicode_range`] describes, at `i`.
pub fn unicode_range(s: &[u8], i: usize) -> (r: Outcome<Value>)
    requires
        i <= s@.len(),
    ensures
        r@ == sp_unicode_range(s@, i as int),
        r.within(i as int, s@.len() as int),
{
    let n = s.len();
    let p = space(s, i);
    if !match_lit(s, p, &[85u8, 43]) {
        return Outcome::NoMatch;
    }
    match hex4(s, p + 2) {
        Outcome::Done(a, q) => {
            if !byte_eq(s, q, 45) {
                return Outcome::NoMatch;
            }
            match hex4(s, q + 1) {
                Outcome::Done(b, e) => Outcome::Done(Value::UnicodeRange(a, b), e),
                Outcome::NoMatch => Outcome::NoMatch,
                Outcome::Abort => Outcome::Abort,
            }
        },
        _ => Outcome::NoMatch,
    }
}

// ---------------------------------------------------------------- plain numbers
/// The number that decimal digits denote.
pub open spec fn dec_value(b: Seq<u8>) -> int
    decreases b.len(),
{
    if b.len() == 0 {
        0
    } else {
        dec_value(b.drop_last()) * 10 + (b.last() - 48)
    }
}

pub proof fn lemma_dec_value_mono(b: Seq<u8>, k: int)
    requires
        0 <= k <= b.len(),
        forall|m: int| 0 <= m < b.len() ==> is_digit(#[trigger] b[m]),
    ensures
        0 <= dec_value(b.subrange(0, k)) <= dec_value(b),
    decreases b.len(),
{
    if k < b.len() {
        let c = b.drop_last();
        assert forall|m: int| 0 <= m < c.len() implies is_digit(#[trigger] c[m]) by {
            assert(c[m] == b[m]);
        }
        lemma_dec_value_mono(c, k);
        assert(c.subrange(0, k) =~= b.subrange(0, k));
        lemma_dec_value_mono(c, c.len() as int);
        assert(c.subrange(0, c.len() as int) =~= c);
        assert(is_digit(b.last()));
    } else {
        assert(b.subrange(0, k) =~= b);
        if b.len() > 0 {
            let c = b.drop_last();
            assert forall|m: int| 0 <= m < c.len() implies is_digit(#[trigger] c[m]) by {
                assert(c[m] == b[m]);
            }
            lemma_dec_value_mono(c, c.len() as int);
            assert(c.subrange(0, c.len() as int) =~= c);
            assert(is_digit(b.last()));
        }
    }
}

/// A run of digits read as a 32-bit integer: a run whose value does not fit
/// aborts.
pub open spec fn sp_simple_number(s: Seq<u8>, i: int) -> SOutcome<ValueView> {
    let e = span(s, i, ByteClass::Digit);
    if e > i {
        if dec_value(s.subrange(i, e)) > 2147483647 {
            SOutcome::Abort
        } else {
            SOutcome::Done(
                ValueView::Number(
                    canonical(false, digit_values(s.subrange(i, e)), Seq::empty()),
                ),
                e,
            )
        }
    } else {
        SOutcome::NoMatch
    }
}

/// Reads what [`sp_simple_number`] describes, at `i`.
pub fn simple_number(s: &[u8], i: usize) -> (r: Outcome<Value>)
    requires
        i <= s@.len(),
    ensures
        r@ == sp_simple_number(s@, i as int),
        r.within(i as int, s@.len() as int),
{
    let n = s.len();
    let e = scan(s, i, ByteClass::Digit);
    if e == i {
        return Outcome::NoMatch;
    }
    proof {
        lemma_span(s@, i as int, ByteClass::Digit);
    }
    let ghost run = s@.subrange(i as int, e as int);
    assert forall|m: int| 0 <= m < run.len() implies is_digit(#[trigger] run[m]) by {
        assert(run[m] == s@[i + m]);
        assert(crate::text::in_class(ByteClass::Digit, s@[i + m]));
    }
    let mut v: u64 = 0;
    let mut k = i;
    while k < e
        invariant
            i <= k <= e <= s@.len(),
            e == span(s@, i as int, ByteClass::Digit),
            e > i,
            run == s@.subrange(i as int, e as int),
            forall|m: int| 0 <= m < run.len() ==> is_digit(#[trigger] run[m]),
            v == dec_value(s@.subrange(i as int, k as int)),
            v <= 2147483647,
        decreases e - k,
    {
        assert(is_digit(run[k - i]));
        let d = (s[k] - 48) as u64;
        let nv = v * 10 + d;
        k = k + 1;
        assert(s@.subrange(i as int, k as int).drop_last() =~= s@.subrange(i as int, k - 1));
        assert(s@.subrange(i as int, k as int).last() == s@[k - 1]);
        assert(nv == dec_value(s@.subrange(i as int, k as int)));
        if nv > 2147483647 {
            proof {
                assert(run.subrange(0, k - i) =~= s@.subrange(i as int, k as int));
                lemma_dec_value_mono(run, k - i);
                assert(dec_value(run) > 2147483647);
                assert(dec_value(s@.subrange(i as int, e as int)) > 2147483647);
            }
            return Outcome::Abort;
        }
        v = nv;
    }
    let digits = digits_of(s, i, e);
    let zero: Vec<u8> = Vec::new();
    assert(zero@ =~= Seq::<u8>::empty());
    let d = Decimal::new(false, digits.as_slice(), zero.as_slice());
    Outcome::Done(Value::Number(d), e)
}

} // verus!
