//! Which rules apply to an element, in which order, and the values they give
//! it.
use vstd::prelude::*;
use crate::css::model::{
    Selector, SimpleSelector, SelectorView, Rule, RuleView, RuleType, RuleTypeView, Specificity,
    Declaration, DeclarationView, Value, ValueView, string_views, lemma_rule_type_views,
};
use crate::dom::model::{
    Node, NodeType, NodeView, NodeTypeView, ElementData, AttrPairs, pairs_map, id_chars,
    class_chars, split_spaces, lemma_pairs_map_keys,
};
use crate::style::props::{PropertyMap, PropPairs, clone_value};
use crate::net::sheets::StylesheetSet;

verus! {

// ---------------------------------------------------------------- selectors
/// An ancestor as matching sees it: its node and the values it was given.
pub type AncestorView = (NodeView, PropPairs);

pub open spec fn ancestor_views(a: Seq<(&Node, &PropertyMap)>) -> Seq<AncestorView> {
    Seq::new(a.len(), |k: int| (a[k].0@, a[k].1@))
}

/// The classes of an element: the pieces of its `class` attribute between
/// spaces, none without one.
pub open spec fn element_classes(atts: AttrPairs) -> Set<Seq<char>> {
    if pairs_map(atts).contains_key(class_chars()) {
        split_spaces(pairs_map(atts)[class_chars()]).to_set()
    } else {
        Set::empty()
    }
}

/// A simple selector matches an element when its tag name, if any, is `*`
/// or the element's; its id, if any, is the element's; and each of its
/// classes is one of the element's.
pub open spec fn simple_matches(
    tag: Seq<char>,
    atts: AttrPairs,
    name: Option<Seq<char>>,
    id: Option<Seq<char>>,
    class: Seq<Seq<char>>,
) -> bool {
    &&& (name matches Some(n) ==> n == seq!['*'] || n == tag)
    &&& (id matches Some(i) ==> pairs_map(atts).contains_key(id_chars()) && pairs_map(atts)[id_chars()] == i)
    &&& forall|k: int| 0 <= k < class.len() ==> element_classes(atts).contains(#[trigger] class[k])
}

/// Whether a selector matches an element. A descendant selector matches when
/// its child part matches the element and its ancestor part matches the
/// first ancestor, which must be an element.
pub open spec fn selector_matches(
    tag: Seq<char>,
    atts: AttrPairs,
    sel: SelectorView,
    anc: Seq<AncestorView>,
) -> bool
    decreases sel,
{
    match sel {
        SelectorView::Simple(name, id, class) => simple_matches(tag, atts, name, id, class),
        SelectorView::Ancestor(a, c) => {
            &&& selector_matches(tag, atts, *c, anc)
            &&& anc.len() > 0
            &&& match anc[0].0.node_type {
                NodeTypeView::Element(ptag, patts) => selector_matches(ptag, patts, *a, anc),
                _ => false,
            }
        },
    }
}

fn is_star_name(s: &String) -> (r: bool)
    ensures
        r == (s@ == seq!['*']),
{
    let cs = crate::text::chars_of(s.as_str());
    if cs.len() == 1 && cs[0] == '*' {
        assert(s@ =~= seq!['*']);
        true
    } else {
        false
    }
}

fn contains_string(v: &Vec<String>, s: &String) -> (r: bool)
    ensures
        r == string_views(v@).contains(s@),
{
    let mut k: usize = 0;
    while k < v.len()
        invariant
            k <= v@.len(),
            forall|j: int| 0 <= j < k ==> v@[j]@ != s@,
        decreases v@.len() - k,
    {
        if v[k] == *s {
            assert(string_views(v@)[k as int] == s@);
            return true;
        }
        k = k + 1;
    }
    assert(!string_views(v@).contains(s@)) by {
        if string_views(v@).contains(s@) {
            let j = choose|j: int| 0 <= j < string_views(v@).len() && string_views(v@)[j] == s@;
            assert(v@[j]@ == s@);
        }
    }
    false
}

fn matches_simple_selector(elem: &ElementData, selector: &SimpleSelector) -> (r: bool)
    ensures
        r == simple_matches(
            elem.tag_name@,
            elem.attributes@,
            crate::css::model::opt_string_view(selector.tag_name),
            crate::css::model::opt_string_view(selector.id),
            string_views(selector.class@),
        ),
{
    if let Some(name) = &selector.tag_name {
        if !is_star_name(name) && elem.tag_name != *name {
            return false;
        }
    }
    if let Some(id) = &selector.id {
        match elem.id() {
            Some(v) => {
                if *v != *id {
                    return false;
                }
            },
            None => {
                return false;
            },
        }
    }
    let elem_classes = elem.classes();
    let ghost classes = element_classes(elem.attributes@);
    assert(string_views(elem_classes@).to_set() == classes);
    let mut k: usize = 0;
    while k < selector.class.len()
        invariant
            k <= selector.class@.len(),
            string_views(elem_classes@).to_set() == classes,
            classes == element_classes(elem.attributes@),
            forall|j: int| 0 <= j < k ==> classes.contains(#[trigger] string_views(selector.class@)[j]),
        decreases selector.class@.len() - k,
    {
        if !contains_string(&elem_classes, &selector.class[k]) {
            assert(!classes.contains(string_views(selector.class@)[k as int]));
            return false;
        }
        k = k + 1;
    }
    true
}

fn matches(elem: &ElementData, selector: &Selector, ancestors: &[(&Node, &PropertyMap)]) -> (r: bool)
    ensures
        r == selector_matches(elem.tag_name@, elem.attributes@, selector@, ancestor_views(ancestors@)),
    decreases selector,
{
    match selector {
        Selector::Simple(simple) => matches_simple_selector(elem, simple),
        Selector::Ancestor(sel) => {
            let child_match = matches(elem, &sel.child, ancestors);
            let mut parent_match = false;
            if ancestors.len() > 0 {
                let (parent_node, _) = ancestors[0];
                if let NodeType::Element(ed) = &parent_node.node_type {
                    parent_match = matches(ed, &sel.ancestor, ancestors);
                }
            }
            child_match && parent_match
        },
    }
}


// ---------------------------------------------------------------- matching rules
/// The first selector of a list that matches the element.
pub open spec fn first_match(
    tag: Seq<char>,
    atts: AttrPairs,
    sels: Seq<SelectorView>,
    anc: Seq<AncestorView>,
) -> Option<SelectorView>
    decreases sels.len(),
{
    if sels.len() == 0 {
        None
    } else if selector_matches(tag, atts, sels[0], anc) {
        Some(sels[0])
    } else {
        first_match(tag, atts, sels.drop_first(), anc)
    }
}

/// A matched rule as the cascade sees it: the specificity of the selector
/// that matched, and the rule.
pub type MatchedView = ((nat, nat, nat), RuleView);

pub open spec fn matched_view(m: (Specificity, &Rule)) -> MatchedView {
    ((m.0.0 as nat, m.0.1 as nat, m.0.2 as nat), m.1@)
}

pub open spec fn matched_views(v: Seq<(Specificity, &Rule)>) -> Seq<MatchedView> {
    Seq::new(v.len(), |k: int| matched_view(v[k]))
}

/// The rule with the specificity of its first matching selector, when one
/// matches.
pub open spec fn rule_match(
    tag: Seq<char>,
    atts: AttrPairs,
    r: RuleView,
    anc: Seq<AncestorView>,
) -> Option<MatchedView> {
    match first_match(tag, atts, r.selectors, anc) {
        Some(sel) => Some((sel.specificity(), r)),
        None => None,
    }
}

fn match_rule<'a>(
    elem: &ElementData,
    rule: &'a Rule,
    ancestors: &[(&Node, &PropertyMap)],
) -> (r: Option<(Specificity, &'a Rule)>)
    ensures
        match r {
            Some(m) => rule_match(elem.tag_name@, elem.attributes@, rule@, ancestor_views(ancestors@))
                == Some(matched_view(m)) && m.1 == rule,
            None => rule_match(elem.tag_name@, elem.attributes@, rule@, ancestor_views(ancestors@)) is None,
        },
{
    let ghost sels = rule@.selectors;
    let ghost anc = ancestor_views(ancestors@);
    assert(sels.skip(0) =~= sels);
    let mut k: usize = 0;
    while k < rule.selectors.len()
        invariant
            k <= rule.selectors@.len(),
            sels == rule@.selectors,
            sels.len() == rule.selectors@.len(),
            anc == ancestor_views(ancestors@),
            first_match(elem.tag_name@, elem.attributes@, sels, anc) == first_match(
                elem.tag_name@,
                elem.attributes@,
                sels.skip(k as int),
                anc,
            ),
        decreases rule.selectors@.len() - k,
    {
        assert(sels.skip(k as int)[0] == sels[k as int]);
        assert(sels[k as int] == rule.selectors@[k as int]@);
        assert(sels.skip(k as int).drop_first() =~= sels.skip(k + 1));
        if matches(elem, &rule.selectors[k], ancestors) {
            let sp = rule.selectors[k].specificity();
            return Some((sp, rule));
        }
        k = k + 1;
    }
    assert(sels.skip(k as int) =~= Seq::<SelectorView>::empty());
    None
}

/// The rules of a list of rule items that match, in order.
pub open spec fn matched_in(
    tag: Seq<char>,
    atts: AttrPairs,
    rts: Seq<RuleTypeView>,
    anc: Seq<AncestorView>,
) -> Seq<MatchedView>
    decreases rts.len(),
{
    if rts.len() == 0 {
        Seq::empty()
    } else {
        let prev = matched_in(tag, atts, rts.drop_last(), anc);
        match rts.last() {
            RuleTypeView::Rule(r) => match rule_match(tag, atts, r, anc) {
                Some(m) => prev.push(m),
                None => prev,
            },
            _ => prev,
        }
    }
}

/// The rules of the sheets that match, sheet after sheet, each in order.
pub open spec fn matched_all(
    tag: Seq<char>,
    atts: AttrPairs,
    sheets: Seq<Seq<RuleTypeView>>,
    anc: Seq<AncestorView>,
) -> Seq<MatchedView>
    decreases sheets.len(),
{
    if sheets.len() == 0 {
        Seq::empty()
    } else {
        matched_all(tag, atts, sheets.drop_last(), anc) + matched_in(tag, atts, sheets.last(), anc)
    }
}

fn matching_rules<'a>(
    elem: &ElementData,
    styles: &'a StylesheetSet,
    ancestors: &[(&Node, &PropertyMap)],
) -> (r: Vec<(Specificity, &'a Rule)>)
    ensures
        matched_views(r@) == matched_all(elem.tag_name@, elem.attributes@, styles@, ancestor_views(ancestors@)),
{
    let ghost tag = elem.tag_name@;
    let ghost atts = elem.attributes@;
    let ghost anc = ancestor_views(ancestors@);
    let mut out: Vec<(Specificity, &'a Rule)> = Vec::new();
    let mut k: usize = 0;
    assert(matched_views(out@) =~= Seq::<MatchedView>::empty());
    assert(styles@.subrange(0, 0) =~= Seq::<Seq<RuleTypeView>>::empty());
    while k < styles.stylesheets.len()
        invariant
            k <= styles.stylesheets@.len(),
            styles@.len() == styles.stylesheets@.len(),
            tag == elem.tag_name@,
            atts == elem.attributes@,
            anc == ancestor_views(ancestors@),
            matched_views(out@) == matched_all(tag, atts, styles@.subrange(0, k as int), anc),
        decreases styles.stylesheets@.len() - k,
    {
        let sheet = &styles.stylesheets[k];
        let ghost rts = styles@[k as int];
        assert(rts == crate::css::model::rule_type_views(sheet.rules@));
        proof {
            lemma_rule_type_views(sheet.rules@);
        }
        let ghost base = matched_views(out@);
        let mut j: usize = 0;
        assert(rts.subrange(0, 0) =~= Seq::<RuleTypeView>::empty());
        assert(base + Seq::<MatchedView>::empty() =~= base);
        while j < sheet.rules.len()
            invariant
                j <= sheet.rules@.len(),
                rts.len() == sheet.rules@.len(),
                forall|i: int| 0 <= i < rts.len() ==> #[trigger] rts[i] == sheet.rules@[i]@,
                tag == elem.tag_name@,
                atts == elem.attributes@,
                anc == ancestor_views(ancestors@),
                matched_views(out@) == base + matched_in(tag, atts, rts.subrange(0, j as int), anc),
            decreases sheet.rules@.len() - j,
        {
            let ghost pre = rts.subrange(0, j + 1);
            assert(pre.drop_last() =~= rts.subrange(0, j as int));
            assert(pre.last() == sheet.rules@[j as int]@);
            if let RuleType::Rule(rule) = &sheet.rules[j] {
                match match_rule(elem, rule, ancestors) {
                    Some(m) => {
                        let ghost before = matched_views(out@);
                        out.push(m);
                        assert(matched_views(out@) =~= before.push(matched_view(m)));
                        assert(base + matched_in(tag, atts, pre, anc) =~= (base + matched_in(tag, atts, rts.subrange(0, j as int), anc)).push(matched_view(m)));
                    },
                    None => {},
                }
            }
            j = j + 1;
        }
        assert(rts.subrange(0, j as int) =~= rts);
        let ghost pre = styles@.subrange(0, k + 1);
        assert(pre.drop_last() =~= styles@.subrange(0, k as int));
        assert(pre.last() == rts);
        k = k + 1;
    }
    assert(styles@.subrange(0, k as int) =~= styles@);
    out
}




// ---------------------------------------------------------------- ordering
/// `a` is more specific than `b`: compared by ids, then classes, then tag
/// names.
pub open spec fn more_specific(a: (nat, nat, nat), b: (nat, nat, nat)) -> bool {
    ||| a.0 > b.0
    ||| a.0 == b.0 && a.1 > b.1
    ||| a.0 == b.0 && a.1 == b.1 && a.2 > b.2
}

fn exec_more_specific(a: Specificity, b: Specificity) -> (r: bool)
    ensures
        r == more_specific((a.0 as nat, a.1 as nat, a.2 as nat), (b.0 as nat, b.1 as nat, b.2 as nat)),
{
    a.0 > b.0 || (a.0 == b.0 && a.1 > b.1) || (a.0 == b.0 && a.1 == b.1 && a.2 > b.2)
}

/// Where `x` goes among the first `k` items of `s`: after the last one that
/// is not more specific than it.
pub open spec fn insert_pos(s: Seq<MatchedView>, k: int, x: MatchedView) -> int
    decreases k,
{
    if k <= 0 {
        0
    } else if more_specific(s[k - 1].0, x.0) {
        insert_pos(s, k - 1, x)
    } else {
        k
    }
}

/// The matched rules ordered by specificity, those of equal specificity in
/// the order they came (a stable sort, by insertion).
pub open spec fn sort_stable(s: Seq<MatchedView>) -> Seq<MatchedView>
    decreases s.len(),
{
    if s.len() == 0 {
        Seq::empty()
    } else {
        let t = sort_stable(s.drop_last());
        t.insert(insert_pos(t, t.len() as int, s.last()), s.last())
    }
}

proof fn lemma_insert_pos_range(s: Seq<MatchedView>, k: int, x: MatchedView)
    requires
        0 <= k <= s.len(),
    ensures
        0 <= insert_pos(s, k, x) <= k,
    decreases k,
{
    if k > 0 && more_specific(s[k - 1].0, x.0) {
        lemma_insert_pos_range(s, k - 1, x);
    }
}

fn sort_rules<'a>(v: Vec<(Specificity, &'a Rule)>) -> (r: Vec<(Specificity, &'a Rule)>)
    ensures
        matched_views(r@) == sort_stable(matched_views(v@)),
{
    let mut out: Vec<(Specificity, &'a Rule)> = Vec::new();
    let mut k: usize = 0;
    assert(matched_views(v@).subrange(0, 0) =~= Seq::<MatchedView>::empty());
    assert(matched_views(out@) =~= Seq::<MatchedView>::empty());
    while k < v.len()
        invariant
            k <= v@.len(),
            out@.len() == k,
            matched_views(out@) == sort_stable(matched_views(v@).subrange(0, k as int)),
        decreases v@.len() - k,
    {
        let x = v[k];
        let ghost mv = matched_views(v@);
        let ghost pre = mv.subrange(0, k + 1);
        assert(pre.drop_last() =~= mv.subrange(0, k as int));
        assert(pre.last() == matched_view(x));
        let ghost t = matched_views(out@);
        let mut p = out.len();
        while p > 0 && exec_more_specific(out[p - 1].0, x.0)
            invariant
                p <= out@.len(),
                t == matched_views(out@),
                insert_pos(t, t.len() as int, matched_view(x)) == insert_pos(t, p as int, matched_view(x)),
            decreases p,
        {
            assert(t[p - 1] == matched_view(out@[p - 1]));
            p = p - 1;
        }
        proof {
            if p > 0 {
                assert(t[p - 1] == matched_view(out@[p - 1]));
            }
            lemma_insert_pos_range(t, p as int, matched_view(x));
        }
        assert(insert_pos(t, p as int, matched_view(x)) == p);
        out.insert(p, x);
        assert(matched_views(out@) =~= t.insert(p as int, matched_view(x)));
        k = k + 1;
    }
    assert(matched_views(v@).subrange(0, k as int) =~= matched_views(v@));
    out
}

// ---------------------------------------------------------------- values
pub open spec fn inherit_value() -> ValueView {
    ValueView::Keyword("inherit"@)
}

fn is_inherit(v: &Value) -> (r: bool)
    ensures
        r == (v@ == inherit_value()),
{
    match v {
        Value::Keyword(s) => {
            let w = "inherit".to_owned();
            *s == w
        },
        _ => false,
    }
}

/// The value that the nearest ancestor which sets `name` to something other
/// than `inherit` gives it, if any.
pub open spec fn inherited_from(anc: Seq<AncestorView>, name: Seq<char>) -> Option<ValueView>
    decreases anc.len(),
{
    if anc.len() == 0 {
        None
    } else if pairs_map(anc[0].1).contains_key(name) && pairs_map(anc[0].1)[name] != inherit_value() {
        Some(pairs_map(anc[0].1)[name])
    } else {
        inherited_from(anc.drop_first(), name)
    }
}

/// The value a declaration gives: its own, unless it is `inherit` and an
/// ancestor gives the property a value.
pub open spec fn declared_value(d: DeclarationView, anc: Seq<AncestorView>) -> ValueView {
    if d.value == inherit_value() {
        match inherited_from(anc, d.name) {
            Some(v) => v,
            None => d.value,
        }
    } else {
        d.value
    }
}

fn calculate_inherited_property_value(
    dec: &Declaration,
    ancestors: &[(&Node, &PropertyMap)],
) -> (r: Value)
    ensures
        r@ == declared_value(dec@, ancestor_views(ancestors@)),
{
    if is_inherit(&dec.value) {
        let ghost anc = ancestor_views(ancestors@);
        assert(anc.skip(0) =~= anc);
        let mut k: usize = 0;
        while k < ancestors.len()
            invariant
                k <= ancestors@.len(),
                anc == ancestor_views(ancestors@),
                dec@.value == inherit_value(),
                inherited_from(anc, dec.name@) == inherited_from(anc.skip(k as int), dec.name@),
            decreases ancestors@.len() - k,
        {
            let (_node, props) = ancestors[k];
            assert(anc[k as int].1 == props@);
            assert(anc.skip(k as int)[0] == anc[k as int]);
            assert(anc.skip(k as int).drop_first() =~= anc.skip(k + 1));
            match props.get(dec.name.as_str()) {
                Some(v) => {
                    if !is_inherit(v) {
                        return clone_value(v);
                    }
                },
                None => {},
            }
            k = k + 1;
        }
        assert(anc.skip(k as int) =~= Seq::<AncestorView>::empty());
    }
    clone_value(&dec.value)
}

/// The settings that a rule's declarations make, in order.
pub open spec fn rule_settings(ds: Seq<DeclarationView>, anc: Seq<AncestorView>) -> PropPairs {
    Seq::new(ds.len(), |k: int| (ds[k].name, declared_value(ds[k], anc)))
}

/// The settings that the rules make, rule after rule.
pub open spec fn settings(ms: Seq<MatchedView>, anc: Seq<AncestorView>) -> PropPairs
    decreases ms.len(),
{
    if ms.len() == 0 {
        Seq::empty()
    } else {
        settings(ms.drop_last(), anc) + rule_settings(ms.last().1.declarations, anc)
    }
}

/// The settings that the style sheets make on an element: those of the rules
/// that match it, ordered by specificity.
pub open spec fn cascade(
    tag: Seq<char>,
    atts: AttrPairs,
    sheets: Seq<Seq<RuleTypeView>>,
    anc: Seq<AncestorView>,
) -> PropPairs {
    settings(sort_stable(matched_all(tag, atts, sheets, anc)), anc)
}

/// The values that the style sheets give an element.
pub fn specified_values(
    elem: &ElementData,
    styles: &StylesheetSet,
    ancestors: &[(&Node, &PropertyMap)],
) -> (r: PropertyMap)
    ensures
        r@ == cascade(elem.tag_name@, elem.attributes@, styles@, ancestor_views(ancestors@)),
{
    let ghost anc = ancestor_views(ancestors@);
    let mut values = PropertyMap::new();
    let rules = matching_rules(elem, styles, ancestors);
    let rules = sort_rules(rules);
    let ghost ms = matched_views(rules@);
    let mut i: usize = 0;
    assert(ms.subrange(0, 0) =~= Seq::<MatchedView>::empty());
    while i < rules.len()
        invariant
            i <= rules@.len(),
            ms == matched_views(rules@),
            anc == ancestor_views(ancestors@),
            values@ == settings(ms.subrange(0, i as int), anc),
        decreases rules@.len() - i,
    {
        let rule = rules[i].1;
        let ghost ds = rule@.declarations;
        let ghost base = values@;
        let mut j: usize = 0;
        assert(base + rule_settings(ds, anc).subrange(0, 0) =~= base);
        while j < rule.declarations.len()
            invariant
                j <= rule.declarations@.len(),
                ds == rule@.declarations,
                anc == ancestor_views(ancestors@),
                values@ == base + rule_settings(ds, anc).subrange(0, j as int),
            decreases rule.declarations@.len() - j,
        {
            let dec = &rule.declarations[j];
            let vv = calculate_inherited_property_value(dec, ancestors);
            let ghost before = values@;
            values.insert(dec.name.clone(), vv);
            assert(ds[j as int] == dec@);
            assert(values@ =~= base + rule_settings(ds, anc).subrange(0, j + 1));
            j = j + 1;
        }
        assert(rule_settings(ds, anc).subrange(0, j as int) =~= rule_settings(ds, anc));
        let ghost pre = ms.subrange(0, i + 1);
        assert(pre.drop_last() =~= ms.subrange(0, i as int));
        assert(pre.last().1 == rule@);
        i = i + 1;
    }
    assert(ms.subrange(0, i as int) =~= ms);
    values
}


// ---------------------------------------------------------------- laws
/// Matched rules in order of specificity: none is more specific than one
/// after it.
pub open spec fn sorted_by_specificity(s: Seq<MatchedView>) -> bool {
    forall|i: int, j: int| 0 <= i < j < s.len() ==> !more_specific(#[trigger] s[i].0, #[trigger] s[j].0)
}

proof fn lemma_insert_pos_facts(t: Seq<MatchedView>, k: int, x: MatchedView)
    requires
        0 <= k <= t.len(),
    ensures
        0 <= insert_pos(t, k, x) <= k,
        forall|j: int| insert_pos(t, k, x) <= j < k ==> more_specific(#[trigger] t[j].0, x.0),
        insert_pos(t, k, x) > 0 ==> !more_specific(t[insert_pos(t, k, x) - 1].0, x.0),
    decreases k,
{
    if k > 0 && more_specific(t[k - 1].0, x.0) {
        lemma_insert_pos_facts(t, k - 1, x);
    }
}

/// Sorting orders the rules by specificity and keeps each of them.
pub proof fn lemma_sort_stable(s: Seq<MatchedView>)
    ensures
        sorted_by_specificity(sort_stable(s)),
        sort_stable(s).len() == s.len(),
        forall|m: MatchedView| #[trigger] sort_stable(s).contains(m) <==> s.contains(m),
    decreases s.len(),
{
    if s.len() > 0 {
        let t = sort_stable(s.drop_last());
        let x = s.last();
        lemma_sort_stable(s.drop_last());
        let p = insert_pos(t, t.len() as int, x);
        lemma_insert_pos_facts(t, t.len() as int, x);
        let r = t.insert(p, x);
        assert(r == sort_stable(s));
        assert(r.len() == t.len() + 1);
        assert forall|i: int| 0 <= i < r.len() implies #[trigger] r[i] == (if i < p {
            t[i]
        } else if i == p {
            x
        } else {
            t[i - 1]
        }) by {}
        assert forall|i: int, j: int| 0 <= i < j < r.len() implies !more_specific(#[trigger] r[i].0, #[trigger] r[j].0) by {
            if j < p {
                assert(r[i] == t[i] && r[j] == t[j]);
            } else if j == p {
                assert(r[j] == x && r[i] == t[i]);
                assert(!more_specific(t[p - 1].0, x.0));
                if i < p - 1 {
                    assert(!more_specific(t[i].0, t[p - 1].0));
                }
            } else if i < p {
                assert(r[i] == t[i] && r[j] == t[j - 1]);
            } else if i == p {
                assert(r[i] == x && r[j] == t[j - 1]);
                assert(more_specific(t[j - 1].0, x.0));
            } else {
                assert(r[i] == t[i - 1] && r[j] == t[j - 1]);
            }
        }
        assert forall|m: MatchedView| #[trigger] r.contains(m) <==> s.contains(m) by {
            if r.contains(m) {
                let i = choose|i: int| 0 <= i < r.len() && r[i] == m;
                if i < p {
                    assert(t[i] == m);
                    assert(t.contains(m));
                    let j = choose|j: int| 0 <= j < s.drop_last().len() && s.drop_last()[j] == m;
                    assert(s[j] == m);
                } else if i == p {
                    assert(s[s.len() - 1] == m);
                } else {
                    assert(t[i - 1] == m);
                    assert(t.contains(m));
                    let j = choose|j: int| 0 <= j < s.drop_last().len() && s.drop_last()[j] == m;
                    assert(s[j] == m);
                }
            }
            if s.contains(m) {
                let j = choose|j: int| 0 <= j < s.len() && s[j] == m;
                if j == s.len() - 1 {
                    assert(r[p] == m);
                } else {
                    assert(s.drop_last()[j] == m);
                    assert(t.contains(m));
                    let i = choose|i: int| 0 <= i < t.len() && t[i] == m;
                    if i < p {
                        assert(r[i] == m);
                    } else {
                        assert(r[i + 1] == m);
                    }
                }
            }
        }
    }
}

/// The rule declares `name`.
pub open spec fn declares(r: RuleView, name: Seq<char>) -> bool {
    exists|k: int| 0 <= k < r.declarations.len() && (#[trigger] r.declarations[k]).name == name
}

/// Settings made after others override them: the map of `a + b` is that of
/// `a` updated by that of `b`.
pub proof fn lemma_pairs_map_concat<V>(a: Seq<(Seq<char>, V)>, b: Seq<(Seq<char>, V)>)
    ensures
        pairs_map(a + b) == pairs_map(a).union_prefer_right(pairs_map(b)),
    decreases b.len(),
{
    if b.len() == 0 {
        assert(a + b =~= a);
        assert(pairs_map(a).union_prefer_right(pairs_map(b)) =~= pairs_map(a));
    } else {
        lemma_pairs_map_concat(a, b.drop_last());
        assert((a + b).drop_last() =~= a + b.drop_last());
        assert((a + b).last() == b.last());
        assert(pairs_map(a + b) =~= pairs_map(a).union_prefer_right(pairs_map(b)));
    }
}

proof fn lemma_rule_settings_keys(ds: Seq<DeclarationView>, anc: Seq<AncestorView>, name: Seq<char>)
    ensures
        pairs_map(rule_settings(ds, anc)).contains_key(name) <==> declares(RuleView { selectors: Seq::empty(), declarations: ds }, name),
{
    let ps = rule_settings(ds, anc);
    lemma_pairs_map_keys(ps, name);
    if pairs_map(ps).contains_key(name) {
        let i = choose|i: int| 0 <= i < ps.len() && (#[trigger] ps[i]).0 == name;
        assert(ds[i].name == name);
    }
    if declares(RuleView { selectors: Seq::empty(), declarations: ds }, name) {
        let k = choose|k: int| 0 <= k < ds.len() && (#[trigger] ds[k]).name == name;
        assert(ps[k].0 == name);
    }
}

/// The value the settings of the rules give `name` is that of the last rule
/// that declares it.
proof fn lemma_settings_last(ms: Seq<MatchedView>, anc: Seq<AncestorView>, name: Seq<char>)
    requires
        pairs_map(settings(ms, anc)).contains_key(name),
    ensures
        exists|i: int| 0 <= i < ms.len() && #[trigger] declares(ms[i].1, name)
            && (forall|j: int| i < j < ms.len() ==> !#[trigger] declares(ms[j].1, name))
            && pairs_map(settings(ms, anc))[name] == pairs_map(rule_settings(ms[i].1.declarations, anc))[name],
    decreases ms.len(),
{
    if ms.len() > 0 {
        let last = ms.last();
        let rs = rule_settings(last.1.declarations, anc);
        lemma_pairs_map_concat(settings(ms.drop_last(), anc), rs);
        lemma_rule_settings_keys(last.1.declarations, anc, name);
        let lr = RuleView { selectors: Seq::empty(), declarations: last.1.declarations };
        assert(declares(lr, name) == declares(last.1, name));
        if declares(last.1, name) {
            assert(declares(ms[ms.len() - 1].1, name));
        } else {
            lemma_settings_last(ms.drop_last(), anc, name);
            let i = choose|i: int| 0 <= i < ms.drop_last().len() && #[trigger] declares(ms.drop_last()[i].1, name)
                && (forall|j: int| i < j < ms.drop_last().len() ==> !#[trigger] declares(ms.drop_last()[j].1, name))
                && pairs_map(settings(ms.drop_last(), anc))[name] == pairs_map(rule_settings(ms.drop_last()[i].1.declarations, anc))[name];
            assert(ms[i] == ms.drop_last()[i]);
            assert forall|j: int| i < j < ms.len() implies !#[trigger] declares(ms[j].1, name) by {
                if j < ms.len() - 1 {
                    assert(ms[j] == ms.drop_last()[j]);
                }
            }
            assert(declares(ms[i].1, name));
        }
    }
}

/// The cascade gives an element a value for a property exactly when a rule
/// that matches it declares the property; the value comes from one of those
/// rules, and none of the others is more specific than that one.
pub proof fn lemma_cascade_precedence(
    tag: Seq<char>,
    atts: AttrPairs,
    sheets: Seq<Seq<RuleTypeView>>,
    anc: Seq<AncestorView>,
    name: Seq<char>,
)
    ensures
        pairs_map(cascade(tag, atts, sheets, anc)).contains_key(name) <==> exists|m: MatchedView|
            #[trigger] matched_all(tag, atts, sheets, anc).contains(m) && declares(m.1, name),
        pairs_map(cascade(tag, atts, sheets, anc)).contains_key(name) ==> exists|w: MatchedView|
            #[trigger] matched_all(tag, atts, sheets, anc).contains(w) && declares(w.1, name)
                && pairs_map(cascade(tag, atts, sheets, anc))[name] == pairs_map(rule_settings(w.1.declarations, anc))[name]
                && forall|m: MatchedView| #[trigger] matched_all(tag, atts, sheets, anc).contains(m) && declares(m.1, name)
                    ==> !more_specific(m.0, w.0),
{
    let all = matched_all(tag, atts, sheets, anc);
    let ms = sort_stable(all);
    lemma_sort_stable(all);
    if pairs_map(settings(ms, anc)).contains_key(name) {
        lemma_settings_last(ms, anc, name);
        let i = choose|i: int| 0 <= i < ms.len() && #[trigger] declares(ms[i].1, name)
            && (forall|j: int| i < j < ms.len() ==> !#[trigger] declares(ms[j].1, name))
            && pairs_map(settings(ms, anc))[name] == pairs_map(rule_settings(ms[i].1.declarations, anc))[name];
        let w = ms[i];
        assert(ms.contains(w));
        assert(all.contains(w));
        assert forall|m: MatchedView| #[trigger] all.contains(m) && declares(m.1, name) implies !more_specific(m.0, w.0) by {
            assert(ms.contains(m));
            let j = choose|j: int| 0 <= j < ms.len() && ms[j] == m;
            if j > i {
                assert(declares(ms[j].1, name));
            } else if j < i {
                assert(!more_specific(ms[j].0, ms[i].0));
            }
        }
    }
    if exists|m: MatchedView| #[trigger] all.contains(m) && declares(m.1, name) {
        let m = choose|m: MatchedView| #[trigger] all.contains(m) && declares(m.1, name);
        assert(ms.contains(m));
        let j = choose|j: int| 0 <= j < ms.len() && ms[j] == m;
        lemma_settings_has(ms, anc, name, j);
    }
}

/// Specificity `a` is at most `b` in the order that CSS ranks selectors by:
/// the number of ids first, then the number of classes, then the number of
/// tag names.
pub open spec fn ranks_at_most(a: (nat, nat, nat), b: (nat, nat, nat)) -> bool {
    ||| a.0 < b.0
    ||| a.0 == b.0 && a.1 < b.1
    ||| a.0 == b.0 && a.1 == b.1 && a.2 <= b.2
}

/// The value that the cascade keeps for a property comes from a matching
/// rule that declares it and whose specificity, counted as (ids, classes,
/// tag names), ranks highest among those rules: ids are compared first, then
/// classes, then tag names. So, with equal id counts, a matching rule with
/// more classes overrides one with fewer, whatever their tag names.
pub proof fn lemma_cascade_ranks_by_specificity(
    tag: Seq<char>,
    atts: AttrPairs,
    sheets: Seq<Seq<RuleTypeView>>,
    anc: Seq<AncestorView>,
    name: Seq<char>,
)
    ensures
        pairs_map(cascade(tag, atts, sheets, anc)).contains_key(name) ==> exists|w: MatchedView|
            #[trigger] matched_all(tag, atts, sheets, anc).contains(w) && declares(w.1, name)
                && pairs_map(cascade(tag, atts, sheets, anc))[name] == pairs_map(rule_settings(w.1.declarations, anc))[name]
                && forall|m: MatchedView| #[trigger] matched_all(tag, atts, sheets, anc).contains(m) && declares(m.1, name)
                    ==> ranks_at_most(m.0, w.0),
{
    lemma_cascade_precedence(tag, atts, sheets, anc, name);
}

/// A property that one of the rules declares is set by their settings.
proof fn lemma_settings_has(ms: Seq<MatchedView>, anc: Seq<AncestorView>, name: Seq<char>, j: int)
    requires
        0 <= j < ms.len(),
        declares(ms[j].1, name),
    ensures
        pairs_map(settings(ms, anc)).contains_key(name),
    decreases ms.len(),
{
    let last = ms.last();
    lemma_pairs_map_concat(settings(ms.drop_last(), anc), rule_settings(last.1.declarations, anc));
    lemma_rule_settings_keys(last.1.declarations, anc, name);
    let lr = RuleView { selectors: Seq::empty(), declarations: last.1.declarations };
    assert(declares(lr, name) == declares(last.1, name));
    if j < ms.len() - 1 {
        assert(ms.drop_last()[j] == ms[j]);
        lemma_settings_has(ms.drop_last(), anc, name, j);
    }
}


/// The matched rules of specificity `k`, in order.
pub open spec fn of_specificity(s: Seq<MatchedView>, k: (nat, nat, nat)) -> Seq<MatchedView>
    decreases s.len(),
{
    if s.len() == 0 {
        Seq::empty()
    } else {
        of_specificity(s.drop_last(), k) + if s.last().0 == k {
            seq![s.last()]
        } else {
            Seq::empty()
        }
    }
}

proof fn lemma_of_specificity_concat(a: Seq<MatchedView>, b: Seq<MatchedView>, k: (nat, nat, nat))
    ensures
        of_specificity(a + b, k) == of_specificity(a, k) + of_specificity(b, k),
    decreases b.len(),
{
    if b.len() == 0 {
        assert(a + b =~= a);
        assert(of_specificity(a, k) + of_specificity(b, k) =~= of_specificity(a, k));
    } else {
        lemma_of_specificity_concat(a, b.drop_last(), k);
        assert((a + b).drop_last() =~= a + b.drop_last());
        assert((a + b).last() == b.last());
        assert(of_specificity(a + b, k) =~= of_specificity(a, k) + of_specificity(b, k));
    }
}

proof fn lemma_of_specificity_none(s: Seq<MatchedView>, k: (nat, nat, nat))
    requires
        forall|j: int| 0 <= j < s.len() ==> (#[trigger] s[j]).0 != k,
    ensures
        of_specificity(s, k) == Seq::<MatchedView>::empty(),
    decreases s.len(),
{
    if s.len() > 0 {
        assert forall|j: int| 0 <= j < s.drop_last().len() implies (#[trigger] s.drop_last()[j]).0 != k by {
            assert(s.drop_last()[j] == s[j]);
        }
        lemma_of_specificity_none(s.drop_last(), k);
        assert(s[s.len() - 1].0 != k);
        assert(of_specificity(s, k) =~= Seq::<MatchedView>::empty());
    }
}

/// Sorting keeps the rules of each specificity in the order they came.
pub proof fn lemma_sort_keeps_order(s: Seq<MatchedView>, k: (nat, nat, nat))
    ensures
        of_specificity(sort_stable(s), k) == of_specificity(s, k),
    decreases s.len(),
{
    if s.len() > 0 {
        let t = sort_stable(s.drop_last());
        let x = s.last();
        lemma_sort_keeps_order(s.drop_last(), k);
        lemma_sort_stable(s.drop_last());
        let p = insert_pos(t, t.len() as int, x);
        lemma_insert_pos_facts(t, t.len() as int, x);
        let a = t.subrange(0, p);
        let b = t.subrange(p, t.len() as int);
        assert(t =~= a + b);
        assert(sort_stable(s) == a.push(x) + b);
        lemma_of_specificity_concat(a.push(x), b, k);
        lemma_of_specificity_concat(a, b, k);
        assert(a.push(x).drop_last() =~= a);
        if x.0 == k {
            assert forall|j: int| 0 <= j < b.len() implies (#[trigger] b[j]).0 != k by {
                assert(b[j] == t[p + j]);
                assert(more_specific(t[p + j].0, x.0));
            }
            lemma_of_specificity_none(b, k);
            assert(of_specificity(a.push(x) + b, k) =~= of_specificity(t, k).push(x));
        } else {
            assert(of_specificity(a.push(x) + b, k) =~= of_specificity(t, k));
        }
        assert(of_specificity(s, k) =~= of_specificity(s.drop_last(), k) + if x.0 == k {
            seq![x]
        } else {
            Seq::empty()
        });
    }
}

proof fn lemma_last_declaring(s: Seq<MatchedView>, i: int, name: Seq<char>)
    requires
        0 <= i < s.len(),
        declares(s[i].1, name),
        forall|j: int| i < j < s.len() ==> !#[trigger] declares(s[j].1, name),
    ensures
        exists|q: int| 0 <= q < of_specificity(s, s[i].0).len() && #[trigger] of_specificity(s, s[i].0)[q] == s[i]
            && forall|j: int| q < j < of_specificity(s, s[i].0).len() ==> !#[trigger] declares(of_specificity(s, s[i].0)[j].1, name),
    decreases s.len(),
{
    let k = s[i].0;
    let prev = of_specificity(s.drop_last(), k);
    if i == s.len() - 1 {
        assert(of_specificity(s, k) =~= prev.push(s[i]));
        assert(of_specificity(s, k)[prev.len() as int] == s[i]);
    } else {
        assert(s.drop_last()[i] == s[i]);
        assert forall|j: int| i < j < s.drop_last().len() implies !#[trigger] declares(s.drop_last()[j].1, name) by {
            assert(s.drop_last()[j] == s[j]);
        }
        lemma_last_declaring(s.drop_last(), i, name);
        let q = choose|q: int| 0 <= q < prev.len() && #[trigger] prev[q] == s[i]
            && forall|j: int| q < j < prev.len() ==> !#[trigger] declares(prev[j].1, name);
        assert(!declares(s[s.len() - 1].1, name));
        let f = of_specificity(s, k);
        assert(f[q] == prev[q]);
        assert forall|j: int| q < j < f.len() implies !#[trigger] declares(f[j].1, name) by {
            if j < prev.len() {
                assert(f[j] == prev[j]);
            } else {
                assert(f[j] == s[s.len() - 1]);
            }
        }
    }
}

/// Among the rules that match with the specificity of the rule that gives a
/// property its value, none that comes after it in the sheets declares the
/// property: of equally specific rules, the last one wins.
pub proof fn lemma_cascade_later_wins(
    tag: Seq<char>,
    atts: AttrPairs,
    sheets: Seq<Seq<RuleTypeView>>,
    anc: Seq<AncestorView>,
    name: Seq<char>,
)
    requires
        pairs_map(cascade(tag, atts, sheets, anc)).contains_key(name),
    ensures
        exists|w: MatchedView, q: int|
            0 <= q < of_specificity(matched_all(tag, atts, sheets, anc), w.0).len()
                && #[trigger] of_specificity(matched_all(tag, atts, sheets, anc), w.0)[q] == w
                && declares(w.1, name)
                && pairs_map(cascade(tag, atts, sheets, anc))[name] == pairs_map(rule_settings(w.1.declarations, anc))[name]
                && forall|j: int| q < j < of_specificity(matched_all(tag, atts, sheets, anc), w.0).len()
                    ==> !#[trigger] declares(of_specificity(matched_all(tag, atts, sheets, anc), w.0)[j].1, name),
{
    let all = matched_all(tag, atts, sheets, anc);
    let ms = sort_stable(all);
    lemma_settings_last(ms, anc, name);
    let i = choose|i: int| 0 <= i < ms.len() && #[trigger] declares(ms[i].1, name)
        && (forall|j: int| i < j < ms.len() ==> !#[trigger] declares(ms[j].1, name))
        && pairs_map(settings(ms, anc))[name] == pairs_map(rule_settings(ms[i].1.declarations, anc))[name];
    let w = ms[i];
    lemma_last_declaring(ms, i, name);
    lemma_sort_keeps_order(all, w.0);
    let q = choose|q: int| 0 <= q < of_specificity(ms, w.0).len() && #[trigger] of_specificity(ms, w.0)[q] == w
        && forall|j: int| q < j < of_specificity(ms, w.0).len() ==> !#[trigger] declares(of_specificity(ms, w.0)[j].1, name);
    assert(of_specificity(all, w.0)[q] == w);
}


/// A rule matches an element exactly when one of its selectors does, and
/// then with the specificity of the first that does.
pub proof fn lemma_rule_match_any(tag: Seq<char>, atts: AttrPairs, r: RuleView, anc: Seq<AncestorView>)
    ensures
        rule_match(tag, atts, r, anc) is Some <==> exists|k: int|
            0 <= k < r.selectors.len() && selector_matches(tag, atts, #[trigger] r.selectors[k], anc),
        rule_match(tag, atts, r, anc) matches Some(m) ==> exists|k: int|
            0 <= k < r.selectors.len() && selector_matches(tag, atts, #[trigger] r.selectors[k], anc)
                && m.0 == r.selectors[k].specificity()
                && forall|j: int| 0 <= j < k ==> !selector_matches(tag, atts, #[trigger] r.selectors[j], anc),
{
    lemma_first_match(tag, atts, r.selectors, anc);
}

proof fn lemma_first_match(tag: Seq<char>, atts: AttrPairs, sels: Seq<SelectorView>, anc: Seq<AncestorView>)
    ensures
        first_match(tag, atts, sels, anc) is Some <==> exists|k: int|
            0 <= k < sels.len() && selector_matches(tag, atts, #[trigger] sels[k], anc),
        first_match(tag, atts, sels, anc) matches Some(sel) ==> exists|k: int|
            0 <= k < sels.len() && selector_matches(tag, atts, #[trigger] sels[k], anc) && sel == sels[k]
                && forall|j: int| 0 <= j < k ==> !selector_matches(tag, atts, #[trigger] sels[j], anc),
    decreases sels.len(),
{
    if sels.len() > 0 {
        let rest = sels.drop_first();
        lemma_first_match(tag, atts, rest, anc);
        if selector_matches(tag, atts, sels[0], anc) {
            assert(selector_matches(tag, atts, sels[0], anc));
        } else {
            if exists|k: int| 0 <= k < sels.len() && selector_matches(tag, atts, #[trigger] sels[k], anc) {
                let k = choose|k: int| 0 <= k < sels.len() && selector_matches(tag, atts, #[trigger] sels[k], anc);
                assert(rest[k - 1] == sels[k]);
            }
            if exists|k: int| 0 <= k < rest.len() && selector_matches(tag, atts, #[trigger] rest[k], anc) {
                let k = choose|k: int| 0 <= k < rest.len() && selector_matches(tag, atts, #[trigger] rest[k], anc);
                assert(sels[k + 1] == rest[k]);
            }
            if first_match(tag, atts, sels, anc) is Some {
                let sel = first_match(tag, atts, sels, anc)->0;
                let k = choose|k: int| 0 <= k < rest.len() && selector_matches(tag, atts, #[trigger] rest[k], anc)
                    && sel == rest[k] && forall|j: int| 0 <= j < k ==> !selector_matches(tag, atts, #[trigger] rest[j], anc);
                assert(sels[k + 1] == rest[k]);
                assert forall|j: int| 0 <= j < k + 1 implies !selector_matches(tag, atts, #[trigger] sels[j], anc) by {
                    if j > 0 {
                        assert(sels[j] == rest[j - 1]);
                    }
                }
            }
        }
    }
}

} // verus!
