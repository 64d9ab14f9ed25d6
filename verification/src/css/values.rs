//! Values and declarations: function calls, lists of values, and
//! `name: value;`.
use vstd::prelude::*;
use crate::text::{Outcome, SOutcome, byte_is, byte_eq, lit_at, match_lit};
use crate::css::model::{
    Value, ValueView, FunCallValue, Declaration, DeclarationView, value_views, lemma_value_views,
    lemma_value_views_push,
};
use crate::css::lexical::{
    sp_space, space, sp_string_literal, string_literal, sp_hexcolor, hexcolor, sp_length_unit,
    length_unit, sp_keyword, keyword, sp_url, url, sp_identifier, identifier, sp_unicode_range,
    unicode_range, sp_unicode_codepoint, unicode_codepoint, sp_simple_number, simple_number,
};

verus! {

// ---------------------------------------------------------------- lists
/// `xs` in front of the values of a list outcome.
pub open spec fn prefixed<V>(xs: Seq<V>, o: SOutcome<Seq<V>>) -> SOutcome<Seq<V>> {
    match o {
        SOutcome::Done(vs, p) => SOutcome::Done(xs + vs, p),
        SOutcome::NoMatch => SOutcome::NoMatch,
        SOutcome::Abort => SOutcome::Abort,
    }
}

pub proof fn lemma_prefixed_push<V>(xs: Seq<V>, v: V, o: SOutcome<Seq<V>>)
    ensures
        prefixed(xs, prefixed(seq![v], o)) == prefixed(xs.push(v), o),
{
    match o {
        SOutcome::Done(vs, p) => {
            assert(xs + (seq![v] + vs) =~= xs.push(v) + vs);
        },
        _ => {},
    }
}

/// The rest of a separated list from `p`: while a separator and then an item
/// follow, they are read; a separator without an item after it is left
/// unread.
pub open spec fn sp_list_tail<V>(
    item: spec_fn(int) -> SOutcome<V>,
    sep: spec_fn(int) -> Option<int>,
    len: int,
    p: int,
) -> SOutcome<Seq<V>>
    decreases len - p,
{
    match sep(p) {
        None => SOutcome::Done(Seq::empty(), p),
        Some(b) => match item(b) {
            SOutcome::Done(v, q) => if p < q <= len {
                prefixed(seq![v], sp_list_tail(item, sep, len, q))
            } else {
                SOutcome::Abort
            },
            SOutcome::NoMatch => SOutcome::Done(Seq::empty(), p),
            SOutcome::Abort => SOutcome::Abort,
        },
    }
}

/// A separated list, possibly empty: an item, then what [`sp_list_tail`]
/// reads after it; nothing where no item comes first.
pub open spec fn sp_list<V>(
    item: spec_fn(int) -> SOutcome<V>,
    sep: spec_fn(int) -> Option<int>,
    len: int,
    i: int,
) -> SOutcome<Seq<V>> {
    match item(i) {
        SOutcome::Done(v, p) => if i <= p <= len {
            prefixed(seq![v], sp_list_tail(item, sep, len, p))
        } else {
            SOutcome::Abort
        },
        SOutcome::NoMatch => SOutcome::Done(Seq::empty(), i),
        SOutcome::Abort => SOutcome::Abort,
    }
}

/// A list of values read against the spec of a list of value views.
pub open spec fn values_agree(r: Outcome<Vec<Value>>, o: SOutcome<Seq<ValueView>>) -> bool {
    match r {
        Outcome::Done(v, p) => o == SOutcome::Done(value_views(v@), p as int),
        Outcome::NoMatch => o is NoMatch,
        Outcome::Abort => o is Abort,
    }
}

fn no_match<T>(o: &Outcome<T>) -> (r: bool)
    ensures
        r == (o is NoMatch),
{
    match o {
        Outcome::NoMatch => true,
        _ => false,
    }
}

// ---------------------------------------------------------------- function calls
/// A function argument: a string, a colour, a length or a keyword.
pub open spec fn sp_funarg(s: Seq<u8>, i: int) -> SOutcome<ValueView> {
    sp_string_literal(s, i).or(sp_hexcolor(s, i)).or(sp_length_unit(s, i)).or(sp_keyword(s, i))
}

/// Reads what [`sp_funarg`] describes, at `i`.
pub fn funarg(s: &[u8], i: usize) -> (r: Outcome<Value>)
    requires
        i <= s@.len(),
    ensures
        r@ == sp_funarg(s@, i as int),
        r.within(i as int, s@.len() as int),
{
    let r = string_literal(s, i);
    if !no_match(&r) {
        return r;
    }
    let r = hexcolor(s, i);
    if !no_match(&r) {
        return r;
    }
    let r = length_unit(s, i);
    if !no_match(&r) {
        return r;
    }
    keyword(s, i)
}

/// The argument separator: white space, `,`, white space.
pub open spec fn funarg_sep(s: Seq<u8>, p: int) -> Option<int> {
    let a = sp_space(s, p);
    if byte_is(s, a, 44) {
        Some(sp_space(s, a + 1))
    } else {
        None
    }
}

pub open spec fn sp_funargs(s: Seq<u8>, i: int) -> SOutcome<Seq<ValueView>> {
    sp_list(|j: int| sp_funarg(s, j), |p: int| funarg_sep(s, p), s.len() as int, i)
}

pub open spec fn sp_funargs_tail(s: Seq<u8>, p: int) -> SOutcome<Seq<ValueView>> {
    sp_list_tail(|j: int| sp_funarg(s, j), |q: int| funarg_sep(s, q), s.len() as int, p)
}

fn funargs(s: &[u8], i: usize) -> (r: Outcome<Vec<Value>>)
    requires
        i <= s@.len(),
    ensures
        values_agree(r, sp_funargs(s@, i as int)),
        r.within(i as int, s@.len() as int),
{
    let n = s.len();
    let mut acc: Vec<Value> = Vec::new();
    let mut p: usize;
    match funarg(s, i) {
        Outcome::Done(v, q) => {
            assert(sp_funargs(s@, i as int) == prefixed(seq![v@], sp_funargs_tail(s@, q as int)));
            acc.push(v);
            p = q;
        },
        Outcome::NoMatch => {
            assert(value_views(acc@) =~= Seq::<ValueView>::empty());
            return Outcome::Done(acc, i);
        },
        Outcome::Abort => {
            return Outcome::Abort;
        },
    }
    proof {
        lemma_value_views(acc@);
        assert(value_views(acc@) =~= seq![acc@[0]@]);
    }
    loop
        invariant
            n == s@.len(),
            i <= p <= n,
            sp_funargs(s@, i as int) == prefixed(value_views(acc@), sp_funargs_tail(s@, p as int)),
        decreases n - p,
    {
        let a = space(s, p);
        if !byte_eq(s, a, 44) {
            assert(funarg_sep(s@, p as int) is None);
            assert(sp_funargs_tail(s@, p as int) == SOutcome::<Seq<ValueView>>::Done(Seq::empty(), p as int));
            assert(value_views(acc@) + Seq::<ValueView>::empty() =~= value_views(acc@));
            return Outcome::Done(acc, p);
        }
        let b = space(s, a + 1);
        assert(funarg_sep(s@, p as int) == Some(b as int));
        match funarg(s, b) {
            Outcome::Done(v, q) => {
                assert(sp_funargs_tail(s@, p as int) == prefixed(seq![v@], sp_funargs_tail(s@, q as int)));
                proof {
                    lemma_prefixed_push(value_views(acc@), v@, sp_funargs_tail(s@, q as int));
                    lemma_value_views_push(acc@, v);
                }
                acc.push(v);
                p = q;
            },
            Outcome::NoMatch => {
                assert(sp_funargs_tail(s@, p as int) == SOutcome::<Seq<ValueView>>::Done(Seq::empty(), p as int));
                assert(value_views(acc@) + Seq::<ValueView>::empty() =~= value_views(acc@));
                return Outcome::Done(acc, p);
            },
            Outcome::Abort => {
                assert(sp_funargs_tail(s@, p as int) is Abort);
                return Outcome::Abort;
            },
        }
    }
}

/// White space, a name, white space, `(`, white space, the arguments,
/// white space, `)`.
pub open spec fn sp_normal_funcall(s: Seq<u8>, i: int) -> SOutcome<ValueView> {
    let p0 = sp_space(s, i);
    match sp_identifier(s, p0) {
        SOutcome::Done(name, p1) => {
            let p2 = sp_space(s, p1);
            if byte_is(s, p2, 40) {
                let p3 = sp_space(s, p2 + 1);
                match sp_funargs(s, p3) {
                    SOutcome::Done(args, p4) => {
                        let p5 = sp_space(s, p4);
                        if byte_is(s, p5, 41) {
                            SOutcome::Done(ValueView::FunCall(name, args), p5 + 1)
                        } else {
                            SOutcome::NoMatch
                        }
                    },
                    SOutcome::NoMatch => SOutcome::NoMatch,
                    SOutcome::Abort => SOutcome::Abort,
                }
            } else {
                SOutcome::NoMatch
            }
        },
        SOutcome::NoMatch => SOutcome::NoMatch,
        SOutcome::Abort => SOutcome::Abort,
    }
}

/// Reads what [`sp_normal_funcall`] describes, at `i`.
pub fn normal_funcall(s: &[u8], i: usize) -> (r: Outcome<Value>)
    requires
        i <= s@.len(),
    ensures
        r@ == sp_normal_funcall(s@, i as int),
        r.within(i as int, s@.len() as int),
{
    let n = s.len();
    let p0 = space(s, i);
    match identifier(s, p0) {
        Outcome::Done(name, p1) => {
            let p2 = space(s, p1);
            if !byte_eq(s, p2, 40) {
                return Outcome::NoMatch;
            }
            let p3 = space(s, p2 + 1);
            match funargs(s, p3) {
                Outcome::Done(args, p4) => {
                    let p5 = space(s, p4);
                    if byte_eq(s, p5, 41) {
                        Outcome::Done(Value::FunCall(FunCallValue { name, arguments: args }), p5 + 1)
                    } else {
                        Outcome::NoMatch
                    }
                },
                Outcome::NoMatch => Outcome::NoMatch,
                Outcome::Abort => Outcome::Abort,
            }
        },
        Outcome::NoMatch => Outcome::NoMatch,
        Outcome::Abort => Outcome::Abort,
    }
}

/// The argument of `url(..)` and `format(..)`: a string, else a bare URL.
pub open spec fn sp_url_arg(s: Seq<u8>, i: int) -> SOutcome<ValueView> {
    sp_string_literal(s, i).or(sp_url(s, i))
}

fn url_arg(s: &[u8], i: usize) -> (r: Outcome<Value>)
    requires
        i <= s@.len(),
    ensures
        r@ == sp_url_arg(s@, i as int),
        r.within(i as int, s@.len() as int),
{
    let r = string_literal(s, i);
    if !no_match(&r) {
        return r;
    }
    url(s, i)
}

pub open spec fn url_chars() -> Seq<char> {
    seq!['u', 'r', 'l']
}

pub open spec fn format_chars() -> Seq<char> {
    seq!['f', 'o', 'r', 'm', 'a', 't']
}

/// `format(` argument `)`.
pub open spec fn sp_format_follower(s: Seq<u8>, i: int) -> SOutcome<ValueView> {
    if lit_at(s, i, seq![102u8, 111, 114, 109, 97, 116]) && byte_is(s, i + 6, 40) {
        match sp_url_arg(s, i + 7) {
            SOutcome::Done(a, q) => if byte_is(s, q, 41) {
                SOutcome::Done(ValueView::FunCall(format_chars(), seq![a]), q + 1)
            } else {
                SOutcome::NoMatch
            },
            SOutcome::NoMatch => SOutcome::NoMatch,
            SOutcome::Abort => SOutcome::Abort,
        }
    } else {
        SOutcome::NoMatch
    }
}

fn name_url() -> (r: String)
    ensures
        r@ == url_chars(),
{
    let v: Vec<u8> = vec![117u8, 114, 108];
    proof {
        assert(crate::text::is_ascii_bytes(v@));
        assert(crate::text::ascii_chars(v@) =~= url_chars());
    }
    crate::text::ascii_text(v)
}

fn name_format() -> (r: String)
    ensures
        r@ == format_chars(),
{
    let v: Vec<u8> = vec![102u8, 111, 114, 109, 97, 116];
    proof {
        assert(crate::text::is_ascii_bytes(v@));
        assert(crate::text::ascii_chars(v@) =~= format_chars());
    }
    crate::text::ascii_text(v)
}

fn format_follower(s: &[u8], i: usize) -> (r: Outcome<Value>)
    requires
        i <= s@.len(),
    ensures
        r@ == sp_format_follower(s@, i as int),
        r.within(i as int, s@.len() as int),
{
    let n = s.len();
    if !(match_lit(s, i, &[102u8, 111, 114, 109, 97, 116]) && byte_eq(s, i + 6, 40)) {
        return Outcome::NoMatch;
    }
    match url_arg(s, i + 7) {
        Outcome::Done(a, q) => if byte_eq(s, q, 41) {
            let mut args: Vec<Value> = Vec::new();
            args.push(a);
            proof {
                lemma_value_views(args@);
                assert(value_views(args@) =~= seq![args@[0]@]);
            }
            Outcome::Done(Value::FunCall(FunCallValue { name: name_format(), arguments: args }), q + 1)
        } else {
            Outcome::NoMatch
        },
        Outcome::NoMatch => Outcome::NoMatch,
        Outcome::Abort => Outcome::Abort,
    }
}

/// White space, `url`, white space, `(`, the argument, `)`, white space, and
/// an optional `format(..)`, which is read and dropped.
pub open spec fn sp_url_funcall(s: Seq<u8>, i: int) -> SOutcome<ValueView> {
    let p0 = sp_space(s, i);
    if lit_at(s, p0, seq![117u8, 114, 108]) {
        let p2 = sp_space(s, p0 + 3);
        if byte_is(s, p2, 40) {
            match sp_url_arg(s, p2 + 1) {
                SOutcome::Done(a, p3) => if byte_is(s, p3, 41) {
                    let p4 = sp_space(s, p3 + 1);
                    let call = ValueView::FunCall(url_chars(), seq![a]);
                    match sp_format_follower(s, p4) {
                        SOutcome::Done(_, p5) => SOutcome::Done(call, p5),
                        SOutcome::NoMatch => SOutcome::Done(call, p4),
                        SOutcome::Abort => SOutcome::Abort,
                    }
                } else {
                    SOutcome::NoMatch
                },
                SOutcome::NoMatch => SOutcome::NoMatch,
                SOutcome::Abort => SOutcome::Abort,
            }
        } else {
            SOutcome::NoMatch
        }
    } else {
        SOutcome::NoMatch
    }
}

/// Reads what [`sp_url_funcall`] describes, at `i`.
pub fn url_funcall(s: &[u8], i: usize) -> (r: Outcome<Value>)
    requires
        i <= s@.len(),
    ensures
        r@ == sp_url_funcall(s@, i as int),
        r.within(i as int, s@.len() as int),
{
    let n = s.len();
    let p0 = space(s, i);
    if !match_lit(s, p0, &[117u8, 114, 108]) {
        return Outcome::NoMatch;
    }
    let p2 = space(s, p0 + 3);
    if !byte_eq(s, p2, 40) {
        return Outcome::NoMatch;
    }
    match url_arg(s, p2 + 1) {
        Outcome::Done(a, p3) => {
            if !byte_eq(s, p3, 41) {
                return Outcome::NoMatch;
            }
            let p4 = space(s, p3 + 1);
            let end = match format_follower(s, p4) {
                Outcome::Done(_, p5) => p5,
                Outcome::NoMatch => p4,
                Outcome::Abort => {
                    return Outcome::Abort;
                },
            };
            let mut args: Vec<Value> = Vec::new();
            args.push(a);
            proof {
                lemma_value_views(args@);
                assert(value_views(args@) =~= seq![args@[0]@]);
            }
            Outcome::Done(Value::FunCall(FunCallValue { name: name_url(), arguments: args }), end)
        },
        Outcome::NoMatch => Outcome::NoMatch,
        Outcome::Abort => Outcome::Abort,
    }
}

/// `url(..)`, else a named function call.
pub open spec fn sp_funcall(s: Seq<u8>, i: int) -> SOutcome<ValueView> {
    sp_url_funcall(s, i).or(sp_normal_funcall(s, i))
}

/// Reads what [`sp_funcall`] describes, at `i`.
pub fn funcall(s: &[u8], i: usize) -> (r: Outcome<Value>)
    requires
        i <= s@.len(),
    ensures
        r@ == sp_funcall(s@, i as int),
        r.within(i as int, s@.len() as int),
{
    let r = url_funcall(s, i);
    if !no_match(&r) {
        return r;
    }
    normal_funcall(s, i)
}

// ---------------------------------------------------------------- single values
/// One value: a unicode range, a code point, a function call, a colour, a
/// length, a keyword, a string or a plain number, tried in that order.
pub open spec fn sp_one_value(s: Seq<u8>, i: int) -> SOutcome<ValueView> {
    sp_unicode_range(s, i).or(sp_unicode_codepoint(s, i)).or(sp_funcall(s, i)).or(
        sp_hexcolor(s, i),
    ).or(sp_length_unit(s, i)).or(sp_keyword(s, i)).or(sp_string_literal(s, i)).or(
        sp_simple_number(s, i),
    )
}

/// Reads what [`sp_one_value`] describes, at `i`.
pub fn one_value(s: &[u8], i: usize) -> (r: Outcome<Value>)
    requires
        i <= s@.len(),
    ensures
        r@ == sp_one_value(s@, i as int),
        r.within(i as int, s@.len() as int),
{
    let r = unicode_range(s, i);
    if !no_match(&r) {
        return r;
    }
    let r = unicode_codepoint(s, i);
    if !no_match(&r) {
        return r;
    }
    let r = funcall(s, i);
    if !no_match(&r) {
        return r;
    }
    let r = hexcolor(s, i);
    if !no_match(&r) {
        return r;
    }
    let r = length_unit(s, i);
    if !no_match(&r) {
        return r;
    }
    let r = keyword(s, i);
    if !no_match(&r) {
        return r;
    }
    let r = string_literal(s, i);
    if !no_match(&r) {
        return r;
    }
    simple_number(s, i)
}

// ---------------------------------------------------------------- comma lists
pub open spec fn comma_sep(s: Seq<u8>, p: int) -> Option<int> {
    if byte_is(s, p, 44) {
        Some(p + 1)
    } else {
        None
    }
}

/// Values separated by `,` (no white space around the comma itself).
pub open spec fn sp_comma_values(s: Seq<u8>, i: int) -> SOutcome<Seq<ValueView>> {
    sp_list(|j: int| sp_one_value(s, j), |p: int| comma_sep(s, p), s.len() as int, i)
}

pub open spec fn sp_comma_values_tail(s: Seq<u8>, p: int) -> SOutcome<Seq<ValueView>> {
    sp_list_tail(|j: int| sp_one_value(s, j), |q: int| comma_sep(s, q), s.len() as int, p)
}

fn comma_values(s: &[u8], i: usize) -> (r: Outcome<Vec<Value>>)
    requires
        i <= s@.len(),
    ensures
        values_agree(r, sp_comma_values(s@, i as int)),
        r.within(i as int, s@.len() as int),
{
    let n = s.len();
    let mut acc: Vec<Value> = Vec::new();
    let mut p: usize;
    match one_value(s, i) {
        Outcome::Done(v, q) => {
            assert(sp_comma_values(s@, i as int) == prefixed(
                seq![v@],
                sp_comma_values_tail(s@, q as int),
            ));
            acc.push(v);
            p = q;
        },
        Outcome::NoMatch => {
            assert(value_views(acc@) =~= Seq::<ValueView>::empty());
            return Outcome::Done(acc, i);
        },
        Outcome::Abort => {
            return Outcome::Abort;
        },
    }
    proof {
        lemma_value_views(acc@);
        assert(value_views(acc@) =~= seq![acc@[0]@]);
    }
    loop
        invariant
            n == s@.len(),
            i <= p <= n,
            sp_comma_values(s@, i as int) == prefixed(
                value_views(acc@),
                sp_comma_values_tail(s@, p as int),
            ),
        decreases n - p,
    {
        if !byte_eq(s, p, 44) {
            assert(sp_comma_values_tail(s@, p as int) == SOutcome::<Seq<ValueView>>::Done(
                Seq::empty(),
                p as int,
            ));
            assert(value_views(acc@) + Seq::<ValueView>::empty() =~= value_views(acc@));
            return Outcome::Done(acc, p);
        }
        match one_value(s, p + 1) {
            Outcome::Done(v, q) => {
                assert(sp_comma_values_tail(s@, p as int) == prefixed(
                    seq![v@],
                    sp_comma_values_tail(s@, q as int),
                ));
                proof {
                    lemma_prefixed_push(
                        value_views(acc@),
                        v@,
                        sp_comma_values_tail(s@, q as int),
                    );
                    lemma_value_views_push(acc@, v);
                }
                acc.push(v);
                p = q;
            },
            Outcome::NoMatch => {
                assert(sp_comma_values_tail(s@, p as int) == SOutcome::<Seq<ValueView>>::Done(
                    Seq::empty(),
                    p as int,
                ));
                assert(value_views(acc@) + Seq::<ValueView>::empty() =~= value_views(acc@));
                return Outcome::Done(acc, p);
            },
            Outcome::Abort => {
                assert(sp_comma_values_tail(s@, p as int) is Abort);
                return Outcome::Abort;
            },
        }
    }
}

/// A comma list of values: a single value stands alone, any other number of
/// values (none included) makes an array. It always matches.
pub open spec fn sp_list_array_value(s: Seq<u8>, i: int) -> SOutcome<ValueView> {
    match sp_comma_values(s, i) {
        SOutcome::Done(vs, p) => SOutcome::Done(
            if vs.len() == 1 {
                vs[0]
            } else {
                ValueView::ArrayValue(vs)
            },
            p,
        ),
        SOutcome::NoMatch => SOutcome::NoMatch,
        SOutcome::Abort => SOutcome::Abort,
    }
}

/// Reads what [`sp_list_array_value`] describes, at `i`.
pub fn list_array_value(s: &[u8], i: usize) -> (r: Outcome<Value>)
    requires
        i <= s@.len(),
    ensures
        r@ == sp_list_array_value(s@, i as int),
        r.within(i as int, s@.len() as int),
{
    match comma_values(s, i) {
        Outcome::Done(mut vs, p) => {
            proof {
                lemma_value_views(vs@);
            }
            if vs.len() == 1 {
                let v = vs.pop().unwrap();
                Outcome::Done(v, p)
            } else {
                Outcome::Done(Value::ArrayValue(vs), p)
            }
        },
        Outcome::NoMatch => Outcome::NoMatch,
        Outcome::Abort => Outcome::Abort,
    }
}

// ---------------------------------------------------------------- space-separated arrays
/// `m` more values, each after white space.
pub open spec fn sp_spaced_rest(s: Seq<u8>, p: int, m: nat) -> SOutcome<Seq<ValueView>>
    decreases m,
{
    if m == 0 {
        SOutcome::Done(Seq::empty(), p)
    } else {
        match sp_one_value(s, sp_space(s, p)) {
            SOutcome::Done(v, q) => prefixed(seq![v], sp_spaced_rest(s, q, (m - 1) as nat)),
            SOutcome::NoMatch => SOutcome::NoMatch,
            SOutcome::Abort => SOutcome::Abort,
        }
    }
}

/// Exactly `m + 1` values separated by white space, as an array.
pub open spec fn sp_array_value(s: Seq<u8>, i: int, m: nat) -> SOutcome<ValueView> {
    match sp_one_value(s, i) {
        SOutcome::Done(v, p) => prefixed(seq![v], sp_spaced_rest(s, p, m)).map(
            |vs: Seq<ValueView>| ValueView::ArrayValue(vs),
        ),
        SOutcome::NoMatch => SOutcome::NoMatch,
        SOutcome::Abort => SOutcome::Abort,
    }
}

/// Reads what [`sp_array_value`] describes at `i`: `m + 1` values separated by spaces.
pub fn array_value(s: &[u8], i: usize, m: usize) -> (r: Outcome<Value>)
    requires
        i <= s@.len(),
    ensures
        r@ == sp_array_value(s@, i as int, m as nat),
        r.within(i as int, s@.len() as int),
{
    let n = s.len();
    let mut acc: Vec<Value> = Vec::new();
    let mut p: usize;
    match one_value(s, i) {
        Outcome::Done(v, q) => {
            acc.push(v);
            p = q;
        },
        Outcome::NoMatch => {
            return Outcome::NoMatch;
        },
        Outcome::Abort => {
            return Outcome::Abort;
        },
    }
    proof {
        lemma_value_views(acc@);
        assert(value_views(acc@) =~= seq![acc@[0]@]);
    }
    let mut k: usize = 0;
    while k < m
        invariant
            n == s@.len(),
            i <= p <= n,
            k <= m,
            sp_array_value(s@, i as int, m as nat) == prefixed(
                value_views(acc@),
                sp_spaced_rest(s@, p as int, (m - k) as nat),
            ).map(|vs: Seq<ValueView>| ValueView::ArrayValue(vs)),
        decreases m - k,
    {
        let a = space(s, p);
        match one_value(s, a) {
            Outcome::Done(v, q) => {
                proof {
                    lemma_prefixed_push(
                        value_views(acc@),
                        v@,
                        sp_spaced_rest(s@, q as int, (m - k - 1) as nat),
                    );
                    lemma_value_views_push(acc@, v);
                }
                acc.push(v);
                p = q;
                k = k + 1;
            },
            Outcome::NoMatch => {
                return Outcome::NoMatch;
            },
            Outcome::Abort => {
                return Outcome::Abort;
            },
        }
    }
    assert(value_views(acc@) + Seq::<ValueView>::empty() =~= value_views(acc@));
    Outcome::Done(Value::ArrayValue(acc), p)
}

/// A declaration's value: four, three or two space-separated values, else a
/// comma list (which always matches).
pub open spec fn sp_value(s: Seq<u8>, i: int) -> SOutcome<ValueView> {
    sp_array_value(s, i, 3).or(sp_array_value(s, i, 2)).or(sp_array_value(s, i, 1)).or(
        sp_list_array_value(s, i),
    ).or(sp_one_value(s, i))
}

/// Reads what [`sp_value`] describes, at `i`.
pub fn value(s: &[u8], i: usize) -> (r: Outcome<Value>)
    requires
        i <= s@.len(),
    ensures
        r@ == sp_value(s@, i as int),
        r.within(i as int, s@.len() as int),
{
    let r = array_value(s, i, 3);
    if !no_match(&r) {
        return r;
    }
    let r = array_value(s, i, 2);
    if !no_match(&r) {
        return r;
    }
    let r = array_value(s, i, 1);
    if !no_match(&r) {
        return r;
    }
    let r = list_array_value(s, i);
    if !no_match(&r) {
        return r;
    }
    one_value(s, i)
}

// ---------------------------------------------------------------- declarations
/// White space, a name, `:` between white space, a value, `;` between
/// white space.
pub open spec fn sp_declaration(s: Seq<u8>, i: int) -> SOutcome<DeclarationView> {
    let p0 = sp_space(s, i);
    match sp_identifier(s, p0) {
        SOutcome::Done(name, p1) => {
            let p2 = sp_space(s, p1);
            if byte_is(s, p2, 58) {
                match sp_value(s, sp_space(s, p2 + 1)) {
                    SOutcome::Done(v, p4) => {
                        let p5 = sp_space(s, p4);
                        if byte_is(s, p5, 59) {
                            SOutcome::Done(DeclarationView { name, value: v }, sp_space(s, p5 + 1))
                        } else {
                            SOutcome::NoMatch
                        }
                    },
                    SOutcome::NoMatch => SOutcome::NoMatch,
                    SOutcome::Abort => SOutcome::Abort,
                }
            } else {
                SOutcome::NoMatch
            }
        },
        SOutcome::NoMatch => SOutcome::NoMatch,
        SOutcome::Abort => SOutcome::Abort,
    }
}

/// Reads what [`sp_declaration`] describes, at `i`.
pub fn declaration(s: &[u8], i: usize) -> (r: Outcome<Declaration>)
    requires
        i <= s@.len(),
    ensures
        r@ == sp_declaration(s@, i as int),
        r.within(i as int, s@.len() as int),
{
    let n = s.len();
    let p0 = space(s, i);
    match identifier(s, p0) {
        Outcome::Done(name, p1) => {
            let p2 = space(s, p1);
            if !byte_eq(s, p2, 58) {
                return Outcome::NoMatch;
            }
            let p3 = space(s, p2 + 1);
            match value(s, p3) {
                Outcome::Done(v, p4) => {
                    let p5 = space(s, p4);
                    if byte_eq(s, p5, 59) {
                        let p6 = space(s, p5 + 1);
                        Outcome::Done(Declaration { name, value: v }, p6)
                    } else {
                        Outcome::NoMatch
                    }
                },
                Outcome::NoMatch => Outcome::NoMatch,
                Outcome::Abort => Outcome::Abort,
            }
        },
        Outcome::NoMatch => Outcome::NoMatch,
        Outcome::Abort => Outcome::Abort,
    }
}

} // verus!
