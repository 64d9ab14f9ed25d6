//! Selectors, rules, comments, at-rules and whole style sheets.
use vstd::prelude::*;
use vstd::string::StringSliceAdditionalSpecFns;
use crate::text::{
    Outcome, SOutcome, ByteClass, span, lemma_span, scan, byte_is, byte_eq, lit_at, match_lit,
    copy_range, text_of, bytes_to_text, ascii_chars, ascii_text, lemma_run_ascii,
};
use crate::css::model::{
    Value, ValueView, FunCallValue, Selector, SelectorView, SimpleSelector, AncestorSelector,
    Declaration, DeclarationView, Rule, RuleView, AtRule, RuleType, RuleTypeView, Stylesheet,
    selector_views, declaration_views, rule_type_views, lemma_rule_type_views_push,
    lemma_rule_type_views, opt_value_view, value_views, lemma_value_views,
};
use crate::css::lexical::{sp_space, space, sp_identifier, identifier, sp_keyword, keyword,
    sp_string_literal, string_literal, sp_url, url};
use crate::css::values::{
    prefixed, lemma_prefixed_push, sp_list, sp_list_tail, sp_declaration, declaration,
    url_chars,
};

verus! {

// ---------------------------------------------------------------- selectors
pub open spec fn tag_selector(name: Seq<char>) -> SelectorView {
    SelectorView::Simple(Some(name), None, Seq::empty())
}

/// A run of letters and digits, as a tag selector.
pub open spec fn sp_alphanum_selector(s: Seq<u8>, i: int) -> SOutcome<SelectorView> {
    let e = span(s, i, ByteClass::AlphaNum);
    if e > i {
        SOutcome::Done(tag_selector(ascii_chars(s.subrange(i, e))), e)
    } else {
        SOutcome::NoMatch
    }
}

fn alnum_run_text(s: &[u8], i: usize, e: usize) -> (r: String)
    requires
        i <= e <= s@.len(),
        e == span(s@, i as int, ByteClass::AlphaNum),
    ensures
        r@ == ascii_chars(s@.subrange(i as int, e as int)),
{
    proof {
        lemma_span(s@, i as int, ByteClass::AlphaNum);
        lemma_run_ascii(s@, i as int, e as int, ByteClass::AlphaNum);
    }
    ascii_text(copy_range(s, i, e))
}

fn alphanum_selector(s: &[u8], i: usize) -> (r: Outcome<Selector>)
    requires
        i <= s@.len(),
    ensures
        r@ == sp_alphanum_selector(s@, i as int),
        r.within(i as int, s@.len() as int),
{
    let e = scan(s, i, ByteClass::AlphaNum);
    if e > i {
        let t = alnum_run_text(s, i, e);
        let sel = Selector::Simple(SimpleSelector { tag_name: Some(t), id: None, class: Vec::new() });
        assert(sel@ == tag_selector(ascii_chars(s@.subrange(i as int, e as int)))) by {
            assert(crate::css::model::string_views(Seq::<String>::empty()) =~= Seq::<Seq<char>>::empty());
        }
        Outcome::Done(sel, e)
    } else {
        Outcome::NoMatch
    }
}

/// `*`, as the tag selector `*`.
pub open spec fn sp_star_selector(s: Seq<u8>, i: int) -> SOutcome<SelectorView> {
    if byte_is(s, i, 42) {
        SOutcome::Done(tag_selector(seq!['*']), i + 1)
    } else {
        SOutcome::NoMatch
    }
}

fn star_selector(s: &[u8], i: usize) -> (r: Outcome<Selector>)
    requires
        i <= s@.len(),
    ensures
        r@ == sp_star_selector(s@, i as int),
        r.within(i as int, s@.len() as int),
{
    let n = s.len();
    if byte_eq(s, i, 42) {
        let v: Vec<u8> = vec![42u8];
        proof {
            assert(crate::text::is_ascii_bytes(v@));
            assert(ascii_chars(v@) =~= seq!['*']);
        }
        let t = ascii_text(v);
        let sel = Selector::Simple(SimpleSelector { tag_name: Some(t), id: None, class: Vec::new() });
        assert(sel@ == tag_selector(seq!['*'])) by {
            assert(crate::css::model::string_views(Seq::<String>::empty()) =~= Seq::<Seq<char>>::empty());
        }
        Outcome::Done(sel, i + 1)
    } else {
        Outcome::NoMatch
    }
}

/// `.` and a run of letters and digits, as a class selector.
pub open spec fn sp_class_selector(s: Seq<u8>, i: int) -> SOutcome<SelectorView> {
    let e = span(s, i + 1, ByteClass::AlphaNum);
    if byte_is(s, i, 46) && e > i + 1 {
        SOutcome::Done(
            SelectorView::Simple(None, None, seq![ascii_chars(s.subrange(i + 1, e))]),
            e,
        )
    } else {
        SOutcome::NoMatch
    }
}

fn class_selector(s: &[u8], i: usize) -> (r: Outcome<Selector>)
    requires
        i <= s@.len(),
    ensures
        r@ == sp_class_selector(s@, i as int),
        r.within(i as int, s@.len() as int),
{
    let n = s.len();
    if !byte_eq(s, i, 46) {
        return Outcome::NoMatch;
    }
    let e = scan(s, i + 1, ByteClass::AlphaNum);
    if e > i + 1 {
        let t = alnum_run_text(s, i + 1, e);
        let mut class: Vec<String> = Vec::new();
        class.push(t);
        let sel = Selector::Simple(SimpleSelector { tag_name: None, id: None, class });
        assert(sel@ == SelectorView::Simple(
            None,
            None,
            seq![ascii_chars(s@.subrange(i + 1, e as int))],
        )) by {
            assert(crate::css::model::string_views(class@) =~= seq![
                ascii_chars(s@.subrange(i + 1, e as int)),
            ]);
        }
        Outcome::Done(sel, e)
    } else {
        Outcome::NoMatch
    }
}

/// Two tag selectors separated by white space: a descendant selector.
pub open spec fn sp_ancestor_selector(s: Seq<u8>, i: int) -> SOutcome<SelectorView> {
    match sp_alphanum_selector(s, i) {
        SOutcome::Done(a, p) => {
            let e = sp_space(s, p);
            if e > p {
                match sp_alphanum_selector(s, e) {
                    SOutcome::Done(b, q) => SOutcome::Done(
                        SelectorView::Ancestor(Box::new(a), Box::new(b)),
                        q,
                    ),
                    _ => SOutcome::NoMatch,
                }
            } else {
                SOutcome::NoMatch
            }
        },
        _ => SOutcome::NoMatch,
    }
}

fn ancestor_selector(s: &[u8], i: usize) -> (r: Outcome<Selector>)
    requires
        i <= s@.len(),
    ensures
        r@ == sp_ancestor_selector(s@, i as int),
        r.within(i as int, s@.len() as int),
{
    match alphanum_selector(s, i) {
        Outcome::Done(a, p) => {
            let e = space(s, p);
            if e > p {
                match alphanum_selector(s, e) {
                    Outcome::Done(b, q) => Outcome::Done(
                        Selector::Ancestor(AncestorSelector { ancestor: Box::new(a), child: Box::new(b) }),
                        q,
                    ),
                    _ => Outcome::NoMatch,
                }
            } else {
                Outcome::NoMatch
            }
        },
        _ => Outcome::NoMatch,
    }
}

/// White space, then a descendant, class, `*` or tag selector, then white
/// space.
pub open spec fn sp_selector(s: Seq<u8>, i: int) -> SOutcome<SelectorView> {
    let p = sp_space(s, i);
    match sp_ancestor_selector(s, p).or(sp_class_selector(s, p)).or(sp_star_selector(s, p)).or(
        sp_alphanum_selector(s, p),
    ) {
        SOutcome::Done(sel, q) => SOutcome::Done(sel, sp_space(s, q)),
        SOutcome::NoMatch => SOutcome::NoMatch,
        SOutcome::Abort => SOutcome::Abort,
    }
}

fn no_match<T>(o: &Outcome<T>) -> (r: bool)
    ensures
        r == (o is NoMatch),
{
    match o {
        Outcome::NoMatch => true,
        _ => false,
    }
}

/// Reads what [`sp_selector`] describes, at `i`.
pub fn selector(s: &[u8], i: usize) -> (r: Outcome<Selector>)
    requires
        i <= s@.len(),
    ensures
        r@ == sp_selector(s@, i as int),
        r.within(i as int, s@.len() as int),
{
    let p = space(s, i);
    let mut r = ancestor_selector(s, p);
    if no_match(&r) {
        r = class_selector(s, p);
    }
    if no_match(&r) {
        r = star_selector(s, p);
    }
    if no_match(&r) {
        r = alphanum_selector(s, p);
    }
    match r {
        Outcome::Done(sel, q) => {
            let e = space(s, q);
            Outcome::Done(sel, e)
        },
        Outcome::NoMatch => Outcome::NoMatch,
        Outcome::Abort => Outcome::Abort,
    }
}

#[verifier::opaque]
pub open spec fn sp_selectors(s: Seq<u8>, i: int) -> SOutcome<Seq<SelectorView>> {
    sp_list(
        |j: int| sp_selector(s, j),
        |p: int| crate::css::values::comma_sep(s, p),
        s.len() as int,
        i,
    )
}

pub open spec fn sp_selectors_tail(s: Seq<u8>, p: int) -> SOutcome<Seq<SelectorView>> {
    sp_list_tail(
        |j: int| sp_selector(s, j),
        |q: int| crate::css::values::comma_sep(s, q),
        s.len() as int,
        p,
    )
}

/// Selectors read against the spec of a list of selector views.
pub open spec fn selectors_agree(r: Outcome<Vec<Selector>>, o: SOutcome<Seq<SelectorView>>) -> bool {
    match r {
        Outcome::Done(v, p) => o == SOutcome::Done(selector_views(v@), p as int),
        Outcome::NoMatch => o is NoMatch,
        Outcome::Abort => o is Abort,
    }
}

/// Selectors separated by `,`.
pub fn selectors(s: &[u8], i: usize) -> (r: Outcome<Vec<Selector>>)
    requires
        i <= s@.len(),
    ensures
        selectors_agree(r, sp_selectors(s@, i as int)),
        r.within(i as int, s@.len() as int),
{
    reveal(sp_selectors);
    let n = s.len();
    let mut acc: Vec<Selector> = Vec::new();
    let mut p: usize;
    match selector(s, i) {
        Outcome::Done(v, q) => {
            assert(sp_selectors(s@, i as int) == prefixed(seq![v@], sp_selectors_tail(s@, q as int)));
            acc.push(v);
            p = q;
        },
        Outcome::NoMatch => {
            assert(selector_views(acc@) =~= Seq::<SelectorView>::empty());
            return Outcome::Done(acc, i);
        },
        Outcome::Abort => {
            return Outcome::Abort;
        },
    }
    assert(selector_views(acc@) =~= seq![acc@[0]@]);
    loop
        invariant
            n == s@.len(),
            i <= p <= n,
            sp_selectors(s@, i as int) == prefixed(selector_views(acc@), sp_selectors_tail(s@, p as int)),
        decreases n - p,
    {
        reveal(sp_selectors);
        if !byte_eq(s, p, 44) {
            assert(sp_selectors_tail(s@, p as int) == SOutcome::<Seq<SelectorView>>::Done(
                Seq::empty(),
                p as int,
            ));
            assert(selector_views(acc@) + Seq::<SelectorView>::empty() =~= selector_views(acc@));
            return Outcome::Done(acc, p);
        }
        match selector(s, p + 1) {
            Outcome::Done(v, q) => {
                assert(sp_selectors_tail(s@, p as int) == prefixed(seq![v@], sp_selectors_tail(s@, q as int)));
                proof {
                    lemma_prefixed_push(selector_views(acc@), v@, sp_selectors_tail(s@, q as int));
                }
                let ghost old_acc = acc@;
                acc.push(v);
                assert(selector_views(acc@) =~= selector_views(old_acc).push(v@));
                p = q;
            },
            Outcome::NoMatch => {
                assert(sp_selectors_tail(s@, p as int) == SOutcome::<Seq<SelectorView>>::Done(
                    Seq::empty(),
                    p as int,
                ));
                assert(selector_views(acc@) + Seq::<SelectorView>::empty() =~= selector_views(acc@));
                return Outcome::Done(acc, p);
            },
            Outcome::Abort => {
                assert(sp_selectors_tail(s@, p as int) is Abort);
                return Outcome::Abort;
            },
        }
    }
}

// ---------------------------------------------------------------- comments
/// The first position from `k` at which `*/` starts, or the end of input.
pub open spec fn comment_end(s: Seq<u8>, k: int) -> int
    decreases s.len() - k,
{
    if k < 0 || k >= s.len() || lit_at(s, k, seq![42u8, 47]) {
        k
    } else {
        comment_end(s, k + 1)
    }
}

pub proof fn lemma_comment_end(s: Seq<u8>, k: int)
    requires
        0 <= k <= s.len(),
    ensures
        k <= comment_end(s, k) <= s.len(),
    decreases s.len() - k,
{
    if !(k >= s.len() || lit_at(s, k, seq![42u8, 47])) {
        lemma_comment_end(s, k + 1);
    }
}

/// White space, `/*`, everything up to the first `*/`, and `*/`; a body
/// that is not valid UTF-8 aborts.
pub open spec fn sp_comment(s: Seq<u8>, i: int) -> SOutcome<RuleTypeView> {
    let p = sp_space(s, i);
    if lit_at(s, p, seq![47u8, 42]) {
        let e = comment_end(s, p + 2);
        if lit_at(s, e, seq![42u8, 47]) {
            match text_of(s.subrange(p + 2, e)) {
                Some(t) => SOutcome::Done(RuleTypeView::Comment(t), e + 2),
                None => SOutcome::Abort,
            }
        } else {
            SOutcome::NoMatch
        }
    } else {
        SOutcome::NoMatch
    }
}

/// Reads what [`sp_comment`] describes, at `i`.
pub fn comment(s: &[u8], i: usize) -> (r: Outcome<RuleType>)
    requires
        i <= s@.len(),
    ensures
        r@ == sp_comment(s@, i as int),
        r.within(i as int, s@.len() as int),
{
    let n = s.len();
    let p = space(s, i);
    if !match_lit(s, p, &[47u8, 42]) {
        return Outcome::NoMatch;
    }
    let mut e = p + 2;
    proof {
        lemma_comment_end(s@, e as int);
    }
    while e < n && !match_lit(s, e, &[42u8, 47])
        invariant
            n == s@.len(),
            p + 2 <= e <= n,
            comment_end(s@, e as int) == comment_end(s@, p + 2),
        decreases n - e,
    {
        e = e + 1;
    }
    if !match_lit(s, e, &[42u8, 47]) {
        return Outcome::NoMatch;
    }
    match bytes_to_text(copy_range(s, p + 2, e)) {
        Some(t) => Outcome::Done(RuleType::Comment(t), e + 2),
        None => Outcome::Abort,
    }
}

// ---------------------------------------------------------------- rules
/// White space, the byte `c`, white space.
pub open spec fn ws_sym(s: Seq<u8>, i: int, c: u8) -> Option<int> {
    let p = sp_space(s, i);
    if byte_is(s, p, c) {
        Some(sp_space(s, p + 1))
    } else {
        None
    }
}

fn exec_ws_sym(s: &[u8], i: usize, c: u8) -> (r: Option<usize>)
    requires
        i <= s@.len(),
    ensures
        r is None <==> ws_sym(s@, i as int, c) is None,
        r matches Some(p) ==> ws_sym(s@, i as int, c) == Some(p as int),
        r matches Some(p) ==> i < p <= s@.len(),
{
    let n = s.len();
    let p = space(s, i);
    if byte_eq(s, p, c) {
        Some(space(s, p + 1))
    } else {
        None
    }
}

/// An optional comment: where it stops, or `start` when there is none;
/// `None` when it aborts.
pub open spec fn opt_comment_end(s: Seq<u8>, start: int) -> Option<int> {
    match sp_comment(s, start) {
        SOutcome::Done(_, q) => Some(q),
        SOutcome::NoMatch => Some(start),
        SOutcome::Abort => None,
    }
}

fn exec_opt_comment_end(s: &[u8], start: usize) -> (r: Option<usize>)
    requires
        start <= s@.len(),
    ensures
        r is None <==> opt_comment_end(s@, start as int) is None,
        r matches Some(p) ==> opt_comment_end(s@, start as int) == Some(p as int),
        r matches Some(p) ==> start <= p <= s@.len(),
{
    match comment(s, start) {
        Outcome::Done(_, q) => Some(q),
        Outcome::NoMatch => Some(start),
        Outcome::Abort => None,
    }
}

/// Declarations, one after another, as long as one follows.
#[verifier::opaque]
pub open spec fn sp_declarations(s: Seq<u8>, p: int) -> SOutcome<Seq<DeclarationView>>
    decreases s.len() - p,
{
    match sp_declaration(s, p) {
        SOutcome::Done(d, q) => if p < q <= s.len() {
            prefixed(seq![d], sp_declarations(s, q))
        } else {
            SOutcome::Abort
        },
        SOutcome::NoMatch => SOutcome::Done(Seq::empty(), p),
        SOutcome::Abort => SOutcome::Abort,
    }
}

fn declarations(s: &[u8], i: usize) -> (r: Outcome<Vec<Declaration>>)
    requires
        i <= s@.len(),
    ensures
        match r {
            Outcome::Done(v, p) => sp_declarations(s@, i as int) == SOutcome::Done(
                declaration_views(v@),
                p as int,
            ),
            Outcome::NoMatch => false,
            Outcome::Abort => sp_declarations(s@, i as int) is Abort,
        },
        r.within(i as int, s@.len() as int),
{
    reveal_with_fuel(sp_declarations, 2);
    let n = s.len();
    let mut acc: Vec<Declaration> = Vec::new();
    let mut p = i;
    assert(declaration_views(acc@) =~= Seq::<DeclarationView>::empty());
    assert(prefixed(Seq::<DeclarationView>::empty(), sp_declarations(s@, i as int)) == sp_declarations(s@, i as int)) by {
        match sp_declarations(s@, i as int) {
            SOutcome::Done(vs, q) => {
                assert(Seq::<DeclarationView>::empty() + vs =~= vs);
            },
            _ => {},
        }
    }
    loop
        invariant
            n == s@.len(),
            i <= p <= n,
            sp_declarations(s@, i as int) == prefixed(declaration_views(acc@), sp_declarations(s@, p as int)),
        decreases n - p,
    {
        reveal_with_fuel(sp_declarations, 2);
        match declaration(s, p) {
            Outcome::Done(d, q) => {
                if q <= p {
                    assert(sp_declarations(s@, p as int) is Abort);
                    return Outcome::Abort;
                }
                proof {
                    lemma_prefixed_push(declaration_views(acc@), d@, sp_declarations(s@, q as int));
                }
                let ghost old_acc = acc@;
                acc.push(d);
                assert(declaration_views(acc@) =~= declaration_views(old_acc).push(d@));
                p = q;
            },
            Outcome::NoMatch => {
                assert(declaration_views(acc@) + Seq::<DeclarationView>::empty() =~= declaration_views(acc@));
                return Outcome::Done(acc, p);
            },
            Outcome::Abort => {
                return Outcome::Abort;
            },
        }
    }
}

/// Selectors, `{`, an optional comment, declarations, an optional comment,
/// `}` (the braces with white space around them).
pub open spec fn sp_rule(s: Seq<u8>, i: int) -> SOutcome<RuleTypeView> {
    match sp_selectors(s, i) {
        SOutcome::Done(sels, p1) => match ws_sym(s, p1, 123) {
            Some(p2) => match opt_comment_end(s, p2) {
                Some(p3) => match sp_declarations(s, p3) {
                    SOutcome::Done(decls, p4) => match opt_comment_end(s, p4) {
                        Some(p5) => match ws_sym(s, p5, 125) {
                            Some(p6) => SOutcome::Done(
                                RuleTypeView::Rule(RuleView { selectors: sels, declarations: decls }),
                                p6,
                            ),
                            None => SOutcome::NoMatch,
                        },
                        None => SOutcome::Abort,
                    },
                    SOutcome::NoMatch => SOutcome::NoMatch,
                    SOutcome::Abort => SOutcome::Abort,
                },
                None => SOutcome::Abort,
            },
            None => SOutcome::NoMatch,
        },
        SOutcome::NoMatch => SOutcome::NoMatch,
        SOutcome::Abort => SOutcome::Abort,
    }
}

#[verifier::rlimit(40)]
pub fn rule(s: &[u8], i: usize) -> (r: Outcome<RuleType>)
    requires
        i <= s@.len(),
    ensures
        r@ == sp_rule(s@, i as int),
        r.within(i as int, s@.len() as int),
{
    match selectors(s, i) {
        Outcome::Done(sels, p1) => match exec_ws_sym(s, p1, 123) {
            Some(p2) => match exec_opt_comment_end(s, p2) {
                Some(p3) => match declarations(s, p3) {
                    Outcome::Done(decls, p4) => match exec_opt_comment_end(s, p4) {
                        Some(p5) => match exec_ws_sym(s, p5, 125) {
                            Some(p6) => Outcome::Done(
                                RuleType::Rule(Rule { selectors: sels, declarations: decls }),
                                p6,
                            ),
                            None => Outcome::NoMatch,
                        },
                        None => Outcome::Abort,
                    },
                    Outcome::NoMatch => Outcome::NoMatch,
                    Outcome::Abort => Outcome::Abort,
                },
                None => Outcome::Abort,
            },
            None => Outcome::NoMatch,
        },
        Outcome::NoMatch => Outcome::NoMatch,
        Outcome::Abort => Outcome::Abort,
    }
}

// ---------------------------------------------------------------- at-rules
/// `@`, a name, `url(`, a bare URL, `)` and `;`.
pub open spec fn sp_import_rule(s: Seq<u8>, i: int) -> SOutcome<RuleTypeView> {
    if byte_is(s, i, 64) {
        match sp_identifier(s, i + 1) {
            SOutcome::Done(name, p1) => {
                let p2 = sp_space(s, p1);
                if lit_at(s, p2, seq![117u8, 114, 108]) && byte_is(s, p2 + 3, 40) {
                    match sp_url(s, p2 + 4) {
                        SOutcome::Done(u, p3) => if byte_is(s, p3, 41) && byte_is(s, p3 + 1, 59) {
                            SOutcome::Done(
                                RuleTypeView::AtRule(
                                    name,
                                    Some(ValueView::FunCall(url_chars(), seq![u])),
                                    Seq::empty(),
                                ),
                                p3 + 2,
                            )
                        } else {
                            SOutcome::NoMatch
                        },
                        SOutcome::NoMatch => SOutcome::NoMatch,
                        SOutcome::Abort => SOutcome::Abort,
                    }
                } else {
                    SOutcome::NoMatch
                }
            },
            SOutcome::NoMatch => SOutcome::NoMatch,
            SOutcome::Abort => SOutcome::Abort,
        }
    } else {
        SOutcome::NoMatch
    }
}

fn url_name() -> (r: String)
    ensures
        r@ == url_chars(),
{
    let v: Vec<u8> = vec![117u8, 114, 108];
    proof {
        assert(crate::text::is_ascii_bytes(v@));
        assert(ascii_chars(v@) =~= url_chars());
    }
    ascii_text(v)
}

/// Reads what [`sp_import_rule`] describes, at `i`.
pub fn import_rule(s: &[u8], i: usize) -> (r: Outcome<RuleType>)
    requires
        i <= s@.len(),
    ensures
        r@ == sp_import_rule(s@, i as int),
        r.within(i as int, s@.len() as int),
{
    let n = s.len();
    if !byte_eq(s, i, 64) {
        return Outcome::NoMatch;
    }
    match identifier(s, i + 1) {
        Outcome::Done(name, p1) => {
            let p2 = space(s, p1);
            if !(match_lit(s, p2, &[117u8, 114, 108]) && byte_eq(s, p2 + 3, 40)) {
                return Outcome::NoMatch;
            }
            match url(s, p2 + 4) {
                Outcome::Done(u, p3) => if byte_eq(s, p3, 41) && byte_eq(s, p3 + 1, 59) {
                    let mut args: Vec<Value> = Vec::new();
                    args.push(u);
                    proof {
                        lemma_value_views(args@);
                        assert(value_views(args@) =~= seq![args@[0]@]);
                    }
                    let rules: Vec<RuleType> = Vec::new();
                    assert(rule_type_views(rules@) =~= Seq::<RuleTypeView>::empty());
                    let call = Value::FunCall(FunCallValue { name: url_name(), arguments: args });
                    Outcome::Done(RuleType::AtRule(AtRule { name, value: Some(call), rules }), p3 + 2)
                } else {
                    Outcome::NoMatch
                },
                Outcome::NoMatch => Outcome::NoMatch,
                Outcome::Abort => Outcome::Abort,
            }
        },
        Outcome::NoMatch => Outcome::NoMatch,
        Outcome::Abort => Outcome::Abort,
    }
}

/// White space, `@`, a name, an optional keyword (read and dropped), an
/// optional string (the value), an optional rule (the body) and an optional
/// `;`, with white space between them.
pub open spec fn sp_at_rule(s: Seq<u8>, i: int) -> SOutcome<RuleTypeView> {
    let p0 = sp_space(s, i);
    if byte_is(s, p0, 64) {
        match sp_identifier(s, p0 + 1) {
            SOutcome::Done(name, p1) => {
                let p2 = sp_space(s, p1);
                let k = sp_keyword(s, p2);
                if k is Abort {
                    SOutcome::Abort
                } else {
                    let p3 = match k {
                        SOutcome::Done(_, q) => q,
                        _ => p2,
                    };
                    let p4 = sp_space(s, p3);
                    let v = sp_string_literal(s, p4);
                    if v is Abort {
                        SOutcome::Abort
                    } else {
                        let (value, p5) = match v {
                            SOutcome::Done(x, q) => (Some(x), q),
                            _ => (None, p4),
                        };
                        let p6 = sp_space(s, p5);
                        let b = sp_rule(s, p6);
                        if b is Abort {
                            SOutcome::Abort
                        } else {
                            let (rules, p7) = match b {
                                SOutcome::Done(x, q) => (seq![x], q),
                                _ => (Seq::empty(), p6),
                            };
                            let p8 = sp_space(s, p7);
                            let p9 = if byte_is(s, p8, 59) {
                                p8 + 1
                            } else {
                                p8
                            };
                            SOutcome::Done(RuleTypeView::AtRule(name, value, rules), p9)
                        }
                    }
                }
            },
            SOutcome::NoMatch => SOutcome::NoMatch,
            SOutcome::Abort => SOutcome::Abort,
        }
    } else {
        SOutcome::NoMatch
    }
}

#[verifier::rlimit(40)]
pub fn at_rule(s: &[u8], i: usize) -> (r: Outcome<RuleType>)
    requires
        i <= s@.len(),
    ensures
        r@ == sp_at_rule(s@, i as int),
        r.within(i as int, s@.len() as int),
{
    let n = s.len();
    let p0 = space(s, i);
    if !byte_eq(s, p0, 64) {
        return Outcome::NoMatch;
    }
    match identifier(s, p0 + 1) {
        Outcome::Done(name, p1) => {
            let p2 = space(s, p1);
            let p3 = match keyword(s, p2) {
                Outcome::Done(_, q) => q,
                Outcome::NoMatch => p2,
                Outcome::Abort => {
                    return Outcome::Abort;
                },
            };
            let p4 = space(s, p3);
            let (value, p5) = match string_literal(s, p4) {
                Outcome::Done(x, q) => (Some(x), q),
                Outcome::NoMatch => (None, p4),
                Outcome::Abort => {
                    return Outcome::Abort;
                },
            };
            assert(opt_value_view(value) == match sp_string_literal(s@, p4 as int) {
                SOutcome::Done(x, q) => Some(x),
                _ => None,
            });
            let p6 = space(s, p5);
            let mut rules: Vec<RuleType> = Vec::new();
            let p7 = match rule(s, p6) {
                Outcome::Done(x, q) => {
                    rules.push(x);
                    q
                },
                Outcome::NoMatch => p6,
                Outcome::Abort => {
                    return Outcome::Abort;
                },
            };
            proof {
                lemma_rule_type_views(rules@);
                if rules@.len() == 1 {
                    assert(rule_type_views(rules@) =~= seq![rules@[0]@]);
                } else {
                    assert(rule_type_views(rules@) =~= Seq::<RuleTypeView>::empty());
                }
            }
            let p8 = space(s, p7);
            let p9 = if byte_eq(s, p8, 59) {
                p8 + 1
            } else {
                p8
            };
            Outcome::Done(RuleType::AtRule(AtRule { name, value, rules }), p9)
        },
        Outcome::NoMatch => Outcome::NoMatch,
        Outcome::Abort => Outcome::Abort,
    }
}

// ---------------------------------------------------------------- style sheets
/// One item of a style sheet: a comment, a rule, an `@import` or another
/// at-rule, tried in that order.
pub open spec fn sp_sheet_item(s: Seq<u8>, i: int) -> SOutcome<RuleTypeView> {
    sp_comment(s, i).or(sp_rule(s, i)).or(sp_import_rule(s, i)).or(sp_at_rule(s, i))
}

/// Reads what [`sp_sheet_item`] describes, at `i`.
pub fn sheet_item(s: &[u8], i: usize) -> (r: Outcome<RuleType>)
    requires
        i <= s@.len(),
    ensures
        r@ == sp_sheet_item(s@, i as int),
        r.within(i as int, s@.len() as int),
{
    let r = comment(s, i);
    if !no_match(&r) {
        return r;
    }
    let r = rule(s, i);
    if !no_match(&r) {
        return r;
    }
    let r = import_rule(s, i);
    if !no_match(&r) {
        return r;
    }
    at_rule(s, i)
}

/// Items, one after another, as long as one follows.
#[verifier::opaque]
pub open spec fn sp_sheet_items(s: Seq<u8>, p: int) -> SOutcome<Seq<RuleTypeView>>
    decreases s.len() - p,
{
    match sp_sheet_item(s, p) {
        SOutcome::Done(d, q) => if p < q <= s.len() {
            prefixed(seq![d], sp_sheet_items(s, q))
        } else {
            SOutcome::Abort
        },
        SOutcome::NoMatch => SOutcome::Done(Seq::empty(), p),
        SOutcome::Abort => SOutcome::Abort,
    }
}

/// The rules of the style sheet written in `s`; `None` where reading aborts.
pub open spec fn stylesheet_rules(s: Seq<u8>) -> Option<Seq<RuleTypeView>> {
    match sp_sheet_items(s, 0) {
        SOutcome::Done(rs, _) => Some(rs),
        _ => None,
    }
}

fn sheet_items(s: &[u8]) -> (r: Option<Vec<RuleType>>)
    ensures
        match r {
            Some(v) => stylesheet_rules(s@) == Some(rule_type_views(v@)),
            None => stylesheet_rules(s@) is None,
        },
{
    reveal_with_fuel(sp_sheet_items, 2);
    let n = s.len();
    let mut acc: Vec<RuleType> = Vec::new();
    let mut p: usize = 0;
    assert(rule_type_views(acc@) =~= Seq::<RuleTypeView>::empty());
    assert(prefixed(Seq::<RuleTypeView>::empty(), sp_sheet_items(s@, 0)) == sp_sheet_items(s@, 0)) by {
        match sp_sheet_items(s@, 0) {
            SOutcome::Done(vs, q) => {
                assert(Seq::<RuleTypeView>::empty() + vs =~= vs);
            },
            _ => {},
        }
    }
    loop
        invariant
            n == s@.len(),
            p <= n,
            sp_sheet_items(s@, 0) == prefixed(rule_type_views(acc@), sp_sheet_items(s@, p as int)),
        decreases n - p,
    {
        reveal_with_fuel(sp_sheet_items, 2);
        match sheet_item(s, p) {
            Outcome::Done(d, q) => {
                if q <= p {
                    assert(sp_sheet_items(s@, p as int) is Abort);
                    return None;
                }
                proof {
                    lemma_prefixed_push(rule_type_views(acc@), d@, sp_sheet_items(s@, q as int));
                    lemma_rule_type_views_push(acc@, d);
                }
                acc.push(d);
                p = q;
            },
            Outcome::NoMatch => {
                assert(rule_type_views(acc@) + Seq::<RuleTypeView>::empty() =~= rule_type_views(acc@));
                return Some(acc);
            },
            Outcome::Abort => {
                return None;
            },
        }
    }
}

/// The URL that a style sheet read from text is given.
pub open spec fn default_sheet_url() -> Seq<char> {
    "https://www.mozilla.com/"@
}

/// Reading a style sheet cannot go on: a string, URL or comment that is
/// not valid UTF-8, or a plain number beyond `i32`.
#[derive(Debug, PartialEq, Eq)]
pub enum ReadError {
    Unreadable,
}

/// Reads a style sheet: its items, as many as follow one another from the
/// start (anything after the last is ignored). The error comes exactly on
/// the inputs where reading aborts.
pub fn read_stylesheet(content: &[u8]) -> (r: Result<Stylesheet, ReadError>)
    ensures
        r is Err <==> stylesheet_rules(content@) is None,
        r matches Ok(ss) ==> {
            &&& stylesheet_rules(content@) == Some(rule_type_views(ss.rules@))
            &&& ss.parent is None
            &&& ss.base_url@ == default_sheet_url()
        },
{
    match sheet_items(content) {
        Some(rules) => Ok(
            Stylesheet {
                rules,
                parent: None,
                base_url: "https://www.mozilla.com/".to_owned(),
            },
        ),
        None => Err(ReadError::Unreadable),
    }
}

/// The style sheet written in `content`, for content on which reading does
/// not abort.
pub fn parse_stylesheet_from_bytestring(content: &[u8]) -> (r: Stylesheet)
    requires
        stylesheet_rules(content@) is Some,
    ensures
        stylesheet_rules(content@) == Some(rule_type_views(r.rules@)),
        r.parent is None,
        r.base_url@ == default_sheet_url(),
{
    match read_stylesheet(content) {
        Ok(ss) => ss,
        Err(_) => {
            assert(false);
            Stylesheet { rules: Vec::new(), parent: None, base_url: String::new() }
        },
    }
}

/// [`parse_stylesheet_from_bytestring`] on an owned buffer.
pub fn parse_stylesheet_from_buffer(content: Vec<u8>) -> (r: Stylesheet)
    requires
        stylesheet_rules(content@) is Some,
    ensures
        stylesheet_rules(content@) == Some(rule_type_views(r.rules@)),
        r.parent is None,
        r.base_url@ == default_sheet_url(),
{
    parse_stylesheet_from_bytestring(content.as_slice())
}

/// [`parse_stylesheet_from_bytestring`] on the UTF-8 bytes of a text.
pub fn parse_stylesheet(text: &str) -> (r: Stylesheet)
    requires
        stylesheet_rules(text.spec_bytes()) is Some,
    ensures
        stylesheet_rules(text.spec_bytes()) == Some(rule_type_views(r.rules@)),
        r.parent is None,
        r.base_url@ == default_sheet_url(),
{
    parse_stylesheet_from_bytestring(text.as_bytes())
}

} // verus!
