//! Colours written in hexadecimal.
use vstd::prelude::*;
use vstd::string::StrSliceExecFns;
use crate::css::model::Color;

verus! {

pub open spec fn is_hex_char(c: char) -> bool {
    ('0' <= c <= '9') || ('a' <= c <= 'f') || ('A' <= c <= 'F')
}

pub open spec fn hex_char_value(c: char) -> int {
    if '0' <= c <= '9' {
        c as int - 48
    } else if 'a' <= c <= 'f' {
        c as int - 87
    } else {
        c as int - 55
    }
}

/// The number that hex digits denote.
pub open spec fn hex_digits_value(t: Seq<char>) -> int
    decreases t.len(),
{
    if t.len() == 0 {
        0
    } else {
        hex_digits_value(t.drop_last()) * 16 + hex_char_value(t.last())
    }
}

pub proof fn lemma_hex_digits_mono(t: Seq<char>, k: int)
    requires
        0 <= k <= t.len(),
        forall|m: int| 0 <= m < t.len() ==> is_hex_char(#[trigger] t[m]),
    ensures
        0 <= hex_digits_value(t.subrange(0, k)) <= hex_digits_value(t),
    decreases t.len(),
{
    if t.len() > 0 {
        let c = t.drop_last();
        assert forall|m: int| 0 <= m < c.len() implies is_hex_char(#[trigger] c[m]) by {
            assert(c[m] == t[m]);
        }
        lemma_hex_digits_mono(c, c.len() as int);
        assert(c.subrange(0, c.len() as int) =~= c);
        assert(is_hex_char(t.last()));
        if k < t.len() {
            lemma_hex_digits_mono(c, k);
            assert(c.subrange(0, k) =~= t.subrange(0, k));
        } else {
            assert(t.subrange(0, k) =~= t);
        }
    } else {
        assert(t.subrange(0, k) =~= t);
    }
}

/// Hex digits after a sign, as an `i32` when they are digits and fit.
pub open spec fn signed_hex_value(neg: bool, digits: Seq<char>) -> Option<int> {
    if digits.len() == 0 || !(forall|k: int| 0 <= k < digits.len() ==> is_hex_char(#[trigger] digits[k])) {
        None
    } else {
        let v = if neg {
            -hex_digits_value(digits)
        } else {
            hex_digits_value(digits)
        };
        if -2147483648 <= v <= 2147483647 {
            Some(v)
        } else {
            None
        }
    }
}

/// `i32::from_str_radix(t, 16)`: an optional sign, then at least one hex
/// digit, with a value in the range of `i32`.
pub open spec fn radix16_i32(t: Seq<char>) -> Option<int> {
    if t.len() > 0 && (t[0] == '+' || t[0] == '-') {
        signed_hex_value(t[0] == '-', t.drop_first())
    } else {
        signed_hex_value(false, t)
    }
}

/// What `Color::from_hex` accepts: a first character of one byte, then
/// what `i32::from_str_radix(_, 16)` accepts.
pub open spec fn hex_color_ok(s: Seq<char>) -> bool {
    s.len() >= 1 && (s[0] as u32) < 128 && radix16_i32(s.drop_first()) is Some
}

/// The colour whose red, green and blue bytes are bits 16-23, 8-15 and
/// 0-7 of the 32-bit two's complement of `n`, fully opaque.
pub open spec fn color_of_number(n: int) -> Color {
    let m = if n < 0 {
        n + 0x1_0000_0000
    } else {
        n
    };
    Color {
        r: ((m / 65536) % 256) as u8,
        g: ((m / 256) % 256) as u8,
        b: (m % 256) as u8,
        a: 255,
    }
}

pub open spec fn hex_color(s: Seq<char>) -> Color {
    color_of_number(radix16_i32(s.drop_first())->0)
}

fn hex_char_val(c: char) -> (r: u64)
    requires
        is_hex_char(c),
    ensures
        r == hex_char_value(c),
        r < 16,
{
    if '0' <= c && c <= '9' {
        (c as u64) - 48
    } else if 'a' <= c && c <= 'f' {
        (c as u64) - 87
    } else {
        (c as u64) - 55
    }
}

fn is_hex_ch(c: char) -> (r: bool)
    ensures
        r == is_hex_char(c),
{
    ('0' <= c && c <= '9') || ('a' <= c && c <= 'f') || ('A' <= c && c <= 'F')
}

/// `i32::from_str_radix` in base 16 on the characters of `s` from `start`.
fn radix16_from(s: &str, start: usize) -> (r: Option<i64>)
    requires
        start <= s@.len(),
    ensures
        r is Some <==> radix16_i32(s@.subrange(start as int, s@.len() as int)) is Some,
        r matches Some(v) ==> radix16_i32(s@.subrange(start as int, s@.len() as int)) == Some(
            v as int,
        ),
{
    let n = s.unicode_len();
    let ghost t = s@.subrange(start as int, s@.len() as int);
    let mut k = start;
    let mut neg = false;
    if k < n {
        let c = s.get_char(k);
        assert(t[0] == c);
        if c == '+' || c == '-' {
            neg = c == '-';
            k = k + 1;
        }
    }
    let ghost digits = s@.subrange(k as int, s@.len() as int);
    assert(t.len() > 0 && (t[0] == '+' || t[0] == '-') ==> digits =~= t.drop_first());
    assert(!(t.len() > 0 && (t[0] == '+' || t[0] == '-')) ==> digits =~= t);
    assert(neg == (t.len() > 0 && t[0] == '-'));
    assert(radix16_i32(t) == signed_hex_value(neg, digits));
    if k == n {
        return None;
    }
    let first = k;
    let mut v: u64 = 0;
    while k < n
        invariant
            n == s@.len(),
            first <= k <= n,
            first < n,
            digits == s@.subrange(first as int, n as int),
            radix16_i32(t) == signed_hex_value(neg, digits),
            t == s@.subrange(start as int, s@.len() as int),
            forall|m: int| first <= m < k ==> is_hex_char(#[trigger] s@[m]),
            v == hex_digits_value(s@.subrange(first as int, k as int)),
            v <= 2147483648,
        decreases n - k,
    {
        let c = s.get_char(k);
        if !is_hex_ch(c) {
            assert(digits[k - first] == c);
            assert(!is_hex_char(digits[k - first]));
            return None;
        }
        let d = hex_char_val(c);
        let nv = v * 16 + d;
        k = k + 1;
        assert(s@.subrange(first as int, k as int).drop_last() =~= s@.subrange(
            first as int,
            k - 1,
        ));
        assert(s@.subrange(first as int, k as int).last() == c);
        if nv > 2147483648 {
            proof {
                if forall|m: int| 0 <= m < digits.len() ==> is_hex_char(#[trigger] digits[m]) {
                    lemma_hex_digits_mono(digits, k - first);
                    assert(digits.subrange(0, k - first) =~= s@.subrange(first as int, k as int));
                }
            }
            return None;
        }
        v = nv;
    }
    assert(digits =~= s@.subrange(first as int, k as int));
    let value: i64 = if neg {
        -(v as i64)
    } else {
        v as i64
    };
    if value < -2147483648 || value > 2147483647 {
        return None;
    }
    Some(value)
}

impl Color {
    /// The colour that the hex number after the first character of `s`
    /// denotes: red, green and blue are its bits 16-23, 8-15 and 0-7, alpha
    /// is 255.
    pub fn from_hex(s: &str) -> (r: Color)
        requires
            hex_color_ok(s@),
        ensures
            r == hex_color(s@),
    {
        let n = radix16_from(s, 1);
        assert(s@.subrange(1, s@.len() as int) =~= s@.drop_first());
        match n {
            Some(v) => {
                let m: u64 = if v < 0 {
                    (v + 0x1_0000_0000) as u64
                } else {
                    v as u64
                };
                Color {
                    r: ((m / 65536) % 256) as u8,
                    g: ((m / 256) % 256) as u8,
                    b: (m % 256) as u8,
                    a: 255,
                }
            },
            None => Color { r: 0, g: 0, b: 0, a: 255 },
        }
    }
}


/// Whether `s` is what [`Color::from_hex`] accepts.
pub fn hex_color_valid(s: &str) -> (r: bool)
    ensures
        r == hex_color_ok(s@),
{
    let n = s.unicode_len();
    if n == 0 {
        return false;
    }
    let c = s.get_char(0);
    if (c as u32) >= 128 {
        return false;
    }
    assert(s@.subrange(1, s@.len() as int) =~= s@.drop_first());
    radix16_from(s, 1).is_some()
}

/// Colours by name, the last one given for a name counting.
#[derive(Debug)]
pub struct NamedColors {
    entries: Vec<(String, Color)>,
}

impl View for NamedColors {
    type V = Map<Seq<char>, Color>;

    closed spec fn view(&self) -> Map<Seq<char>, Color> {
        crate::dom::model::pairs_map(
            Seq::new(self.entries@.len(), |k: int| (self.entries@[k].0@, self.entries@[k].1)),
        )
    }
}

/// A name given a colour that [`Color::from_hex`] does not accept.
#[derive(Debug, PartialEq, Eq)]
pub struct BadColor {
    pub name: String,
}

/// The pairs all carry colours that [`Color::from_hex`] accepts.
pub open spec fn pairs_valid(pairs: Seq<(Seq<char>, Seq<char>)>) -> bool {
    forall|k: int| 0 <= k < pairs.len() ==> hex_color_ok(#[trigger] pairs[k].1)
}

/// The table that the pairs give, each colour read by `hex_color`.
pub open spec fn named_table(pairs: Seq<(Seq<char>, Seq<char>)>) -> Map<Seq<char>, Color> {
    crate::dom::model::pairs_map(Seq::new(pairs.len(), |k: int| (pairs[k].0, hex_color(pairs[k].1))))
}

pub open spec fn string_pair_views(pairs: Seq<(String, String)>) -> Seq<(Seq<char>, Seq<char>)> {
    Seq::new(pairs.len(), |k: int| (pairs[k].0@, pairs[k].1@))
}

impl NamedColors {
    /// A table with no colour.
    pub fn new() -> (r: NamedColors)
        ensures
            r@ == Map::<Seq<char>, Color>::empty(),
    {
        let r = NamedColors { entries: Vec::new() };
        assert(Seq::new(0, |k: int| (r.entries@[k].0@, r.entries@[k].1)) =~= Seq::<(Seq<char>, Color)>::empty());
        r
    }

    /// The table of `(name, hex colour)` pairs; the first pair whose colour
    /// is not accepted is the error.
    pub fn from_pairs(pairs: &Vec<(String, String)>) -> (r: Result<NamedColors, BadColor>)
        ensures
            r is Ok <==> pairs_valid(string_pair_views(pairs@)),
            r matches Ok(t) ==> t@ == named_table(string_pair_views(pairs@)),
            r matches Err(e) ==> exists|k: int| 0 <= k < pairs@.len() && pairs@[k].0@ == e.name@
                && !hex_color_ok(#[trigger] pairs@[k].1@),
    {
        let ghost pv = string_pair_views(pairs@);
        let mut entries: Vec<(String, Color)> = Vec::new();
        let mut k: usize = 0;
        while k < pairs.len()
            invariant
                k <= pairs@.len(),
                pv == string_pair_views(pairs@),
                entries@.len() == k,
                forall|j: int| 0 <= j < k ==> hex_color_ok(#[trigger] pv[j].1),
                forall|j: int| 0 <= j < k ==> #[trigger] entries@[j].0@ == pv[j].0 && entries@[j].1 == hex_color(pv[j].1),
            decreases pairs@.len() - k,
        {
            if !hex_color_valid(pairs[k].1.as_str()) {
                assert(pairs@[k as int].1@ == pv[k as int].1);
                return Err(BadColor { name: pairs[k].0.clone() });
            }
            let c = Color::from_hex(pairs[k].1.as_str());
            entries.push((pairs[k].0.clone(), c));
            k = k + 1;
        }
        let r = NamedColors { entries };
        assert(Seq::new(r.entries@.len(), |j: int| (r.entries@[j].0@, r.entries@[j].1)) =~= Seq::new(
            pv.len(),
            |j: int| (pv[j].0, hex_color(pv[j].1)),
        ));
        Ok(r)
    }

    /// The colour last given for `name`.
    pub fn get(&self, name: &str) -> (r: Option<Color>)
        ensures
            r is Some <==> self@.contains_key(name@),
            r matches Some(c) ==> c == self@[name@],
    {
        let ghost all = Seq::new(self.entries@.len(), |k: int| (self.entries@[k].0@, self.entries@[k].1));
        let key = name.to_owned();
        let mut j = self.entries.len();
        assert(all.subrange(0, j as int) =~= all);
        while j > 0
            invariant
                j <= all.len(),
                all.len() == self.entries@.len(),
                all == Seq::new(self.entries@.len(), |k: int| (self.entries@[k].0@, self.entries@[k].1)),
                key@ == name@,
                crate::dom::model::pairs_map(all).contains_key(name@) == crate::dom::model::pairs_map(
                    all.subrange(0, j as int),
                ).contains_key(name@),
                crate::dom::model::pairs_map(all).contains_key(name@) ==> crate::dom::model::pairs_map(all)[name@]
                    == crate::dom::model::pairs_map(all.subrange(0, j as int))[name@],
            decreases j,
        {
            let ghost pre = all.subrange(0, j as int);
            assert(pre.drop_last() =~= all.subrange(0, j - 1));
            assert(pre.last() == all[j - 1]);
            if self.entries[j - 1].0 == key {
                return Some(self.entries[j - 1].1);
            }
            j = j - 1;
        }
        None
    }
}

/// The named colour for `name`, whatever its case: the table is looked up
/// with the name in lower case.
pub fn find_named_color(name: &str, table: &NamedColors) -> (r: Option<Color>)
    ensures
        r is Some <==> table@.contains_key(crate::text::lower_text(name@)),
        r matches Some(c) ==> c == table@[crate::text::lower_text(name@)],
{
    let low = crate::text::to_lowercase(name);
    table.get(low.as_str())
}

/// What `serde_json` reads from the bytes as a `serde_json::Value`: `None`
/// when they are not one JSON text; `Some(None)` when the value is not an
/// object; else the members of the object, in the order that
/// `serde_json::Map` iterates them, each with its text where the member's
/// value is a string and `None` where it is not. It depends on the bytes
/// alone.
pub uninterp spec fn json_object_members(bytes: Seq<u8>) -> Option<Option<Seq<(Seq<char>, Option<Seq<char>>)>>>;

/// The text of an optional string.
pub open spec fn opt_text(o: Option<String>) -> Option<Seq<char>> {
    match o {
        Some(t) => Some(t@),
        None => None,
    }
}

/// The members as texts.
pub open spec fn member_views(ms: Seq<(String, Option<String>)>) -> Seq<(Seq<char>, Option<Seq<char>>)> {
    Seq::new(ms.len(), |k: int| (ms[k].0@, opt_text(ms[k].1)))
}

/// `serde_json::from_slice` into a `serde_json::Value`, then
/// `Value::as_object`, and for each member its name and `Value::as_str` of
/// its value. The contract names the result; nothing is stated of the JSON
/// grammar.
#[verifier::external_body]
fn json_members(bytes: &[u8]) -> (r: Option<Option<Vec<(String, Option<String>)>>>)
    ensures
        match r {
            None => json_object_members(bytes@) is None,
            Some(None) => json_object_members(bytes@) == Some(None::<Seq<(Seq<char>, Option<Seq<char>>)>>),
            Some(Some(ms)) => json_object_members(bytes@) == Some(Some(member_views(ms@))),
        },
{
    let v: serde_json::Value = serde_json::from_slice(bytes).ok()?;
    Some(v.as_object().map(|obj| obj.iter().map(|(k, m)| (k.clone(), m.as_str().map(String::from))).collect()))
}

/// The members whose values are strings, as `(name, text)` pairs in order.
pub open spec fn string_pairs(ms: Seq<(Seq<char>, Option<Seq<char>>)>) -> Seq<(Seq<char>, Seq<char>)>
    decreases ms.len(),
{
    if ms.len() == 0 {
        Seq::empty()
    } else {
        match ms.last().1 {
            Some(t) => string_pairs(ms.drop_last()).push((ms.last().0, t)),
            None => string_pairs(ms.drop_last()),
        }
    }
}

/// The members whose values are strings, as `(name, text)` pairs in order.
pub fn string_members(ms: &Vec<(String, Option<String>)>) -> (r: Vec<(String, String)>)
    ensures
        string_pair_views(r@) == string_pairs(member_views(ms@)),
{
    let mut r: Vec<(String, String)> = Vec::new();
    let mut k: usize = 0;
    assert(member_views(ms@).subrange(0, 0) =~= Seq::<(Seq<char>, Option<Seq<char>>)>::empty());
    assert(string_pair_views(r@) =~= Seq::<(Seq<char>, Seq<char>)>::empty());
    while k < ms.len()
        invariant
            k <= ms@.len(),
            string_pair_views(r@) == string_pairs(member_views(ms@).subrange(0, k as int)),
        decreases ms@.len() - k,
    {
        let ghost pre = member_views(ms@).subrange(0, k + 1);
        assert(pre.drop_last() =~= member_views(ms@).subrange(0, k as int));
        assert(pre.last() == (ms@[k as int].0@, opt_text(ms@[k as int].1)));
        match &ms[k].1 {
            Some(t) => {
                let ghost before = r@;
                r.push((ms[k].0.clone(), t.clone()));
                assert(string_pair_views(r@) =~= string_pair_views(before).push((ms@[k as int].0@, t@)));
            },
            None => {},
        }
        k = k + 1;
    }
    assert(member_views(ms@).subrange(0, ms@.len() as int) =~= member_views(ms@));
    r
}

/// Why a colour table could not be read.
#[derive(Debug, PartialEq, Eq)]
pub enum ColorTableError {
    /// The bytes are not JSON.
    NotJson,
    /// A name is given a colour that [`Color::from_hex`] does not accept.
    BadColor(BadColor),
}

/// The colour table that a JSON value gives: none for a value that is not an
/// object, else one colour for each member whose value is a string.
pub fn named_colors_from_members(top: Option<Vec<(String, Option<String>)>>) -> (r: Result<NamedColors, BadColor>)
    ensures
        top is None ==> r is Ok && r->Ok_0@ == Map::<Seq<char>, Color>::empty(),
        top matches Some(ms) ==> (r is Ok <==> pairs_valid(string_pairs(member_views(ms@)))),
        top matches Some(ms) ==> r is Ok ==> r->Ok_0@ == named_table(string_pairs(member_views(ms@))),
        top matches Some(ms) ==> r is Err ==> exists|k: int| 0 <= k < string_pairs(member_views(ms@)).len()
            && string_pairs(member_views(ms@))[k].0 == r->Err_0.name@
            && !hex_color_ok(#[trigger] string_pairs(member_views(ms@))[k].1),
{
    match top {
        None => Ok(NamedColors::new()),
        Some(ms) => {
            let pairs = string_members(&ms);
            let r = NamedColors::from_pairs(&pairs);
            proof {
                if r is Err {
                    let e = r->Err_0;
                    let k = choose|k: int| 0 <= k < pairs@.len() && pairs@[k].0@ == e.name@
                        && !hex_color_ok(#[trigger] pairs@[k].1@);
                    let ps = string_pairs(member_views(ms@));
                    assert(string_pair_views(pairs@)[k] == (pairs@[k].0@, pairs@[k].1@));
                    assert(ps[k] == (pairs@[k].0@, pairs@[k].1@));
                    assert(0 <= k < ps.len() && ps[k].0 == e.name@ && !hex_color_ok(ps[k].1));
                }
            }
            r
        },
    }
}

/// The colour table that a JSON text of colour names gives: for an object,
/// each member whose value is a string names the colour that the string
/// writes in hexadecimal.
pub fn named_colors_from_json(bytes: &[u8]) -> (r: Result<NamedColors, ColorTableError>)
    ensures
        match json_object_members(bytes@) {
            None => r matches Err(ColorTableError::NotJson),
            Some(None) => r is Ok && r->Ok_0@ == Map::<Seq<char>, Color>::empty(),
            Some(Some(ms)) => {
                let ps = string_pairs(ms);
                &&& (r is Ok <==> pairs_valid(ps))
                &&& (r matches Ok(t) ==> t@ == named_table(ps))
                &&& (r matches Err(e) ==> e matches ColorTableError::BadColor(b) && exists|k: int|
                    0 <= k < ps.len() && ps[k].0 == b.name@ && !hex_color_ok(#[trigger] ps[k].1))
            },
        },
{
    match json_members(bytes) {
        None => Err(ColorTableError::NotJson),
        Some(top) => match named_colors_from_members(top) {
            Ok(t) => Ok(t),
            Err(e) => Err(ColorTableError::BadColor(e)),
        },
    }
}

} // verus!
