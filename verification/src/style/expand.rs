//! Shorthand properties spelled out: `margin`, `padding` and `border-width`
//! into their four sides, `border` into widths, style and colour.
use vstd::prelude::*;
use vstd::string::StringExecFns;
use crate::css::model::{
    Declaration, DeclarationView, Rule, RuleView, RuleType, RuleTypeView, Stylesheet, Value,
    ValueView, declaration_views, rule_type_views, lemma_rule_type_views, lemma_value_views,
};
use crate::style::props::clone_value;

verus! {

pub open spec fn decl(name: Seq<char>, value: ValueView) -> DeclarationView {
    DeclarationView { name, value }
}

/// The four sides of `name`, in the order top, right, bottom, left.
pub open spec fn sides(
    name: Seq<char>,
    top: ValueView,
    right: ValueView,
    bottom: ValueView,
    left: ValueView,
) -> Seq<DeclarationView> {
    seq![
        decl(name + "-top"@, top),
        decl(name + "-right"@, right),
        decl(name + "-bottom"@, bottom),
        decl(name + "-left"@, left),
    ]
}

/// A box property spelled out: two values are top-and-bottom and
/// left-and-right, four are the sides from the top clockwise, a length is
/// every side; an array of another size gives nothing, and any other value
/// is kept as it is.
pub open spec fn expand_array(d: DeclarationView) -> Seq<DeclarationView> {
    match d.value {
        ValueView::ArrayValue(a) => if a.len() == 2 {
            sides(d.name, a[0], a[1], a[0], a[1])
        } else if a.len() == 4 {
            sides(d.name, a[0], a[1], a[2], a[3])
        } else {
            Seq::empty()
        },
        ValueView::Length(_, _) => sides(d.name, d.value, d.value, d.value, d.value),
        _ => seq![d],
    }
}

/// The `border` shorthand can be spelled out: it is three values or a number.
pub open spec fn border_ok(d: DeclarationView) -> bool {
    match d.value {
        ValueView::ArrayValue(a) => a.len() == 3,
        ValueView::Number(_) => true,
        _ => false,
    }
}

pub open spec fn border_widths(v: ValueView) -> Seq<DeclarationView> {
    seq![
        decl("border-width-top"@, v),
        decl("border-width-left"@, v),
        decl("border-width-right"@, v),
        decl("border-width-bottom"@, v),
    ]
}

/// `border: width style colour` spelled out; a number is the width of each
/// side.
pub open spec fn expand_border(d: DeclarationView) -> Seq<DeclarationView> {
    match d.value {
        ValueView::ArrayValue(a) => border_widths(a[0]) + seq![
            decl("border-style"@, a[1]),
            decl("border-color"@, a[2]),
        ],
        _ => border_widths(d.value),
    }
}

pub open spec fn is_box_property(name: Seq<char>) -> bool {
    name == "margin"@ || name == "padding"@ || name == "border-width"@
}

/// What a declaration becomes.
pub open spec fn expand_decl(d: DeclarationView) -> Seq<DeclarationView> {
    if is_box_property(d.name) {
        expand_array(d)
    } else if d.name == "border"@ {
        expand_border(d)
    } else {
        seq![d]
    }
}

/// What a list of declarations becomes, declaration after declaration.
pub open spec fn expand_decls(ds: Seq<DeclarationView>) -> Seq<DeclarationView>
    decreases ds.len(),
{
    if ds.len() == 0 {
        Seq::empty()
    } else {
        expand_decls(ds.drop_last()) + expand_decl(ds.last())
    }
}

/// A rule with its declarations spelled out; other items as they are.
pub open spec fn expand_rule_type(rt: RuleTypeView) -> RuleTypeView {
    match rt {
        RuleTypeView::Rule(r) => RuleTypeView::Rule(
            RuleView { selectors: r.selectors, declarations: expand_decls(r.declarations) },
        ),
        _ => rt,
    }
}

/// The value that a list of declarations gives a property: the value of
/// each declaration of that name in it.
pub open spec fn sets_to(ds: Seq<DeclarationView>, name: Seq<char>, v: ValueView) -> bool {
    &&& exists|j: int| 0 <= j < ds.len() && (#[trigger] ds[j]).name == name
    &&& forall|j: int| 0 <= j < ds.len() && (#[trigger] ds[j]).name == name ==> ds[j].value == v
}

/// `border: width style colour` spells out to the width on each of the four
/// sides, the style as `border-style` and the colour as `border-color`: each
/// longhand takes the value at its own position in the shorthand.
pub proof fn lemma_border_longhands(w: ValueView, st: ValueView, c: ValueView)
    ensures
        ({
            let r = expand_decl(decl("border"@, ValueView::ArrayValue(seq![w, st, c])));
            &&& r.len() == 6
            &&& sets_to(r, "border-width-top"@, w)
            &&& sets_to(r, "border-width-right"@, w)
            &&& sets_to(r, "border-width-bottom"@, w)
            &&& sets_to(r, "border-width-left"@, w)
            &&& sets_to(r, "border-style"@, st)
            &&& sets_to(r, "border-color"@, c)
        }),
{
    reveal_strlit("border");
    reveal_strlit("margin");
    reveal_strlit("padding");
    reveal_strlit("border-width");
    reveal_strlit("border-width-top");
    reveal_strlit("border-width-right");
    reveal_strlit("border-width-bottom");
    reveal_strlit("border-width-left");
    reveal_strlit("border-style");
    reveal_strlit("border-color");
    let d = decl("border"@, ValueView::ArrayValue(seq![w, st, c]));
    assert("border"@[0] != "margin"@[0]);
    assert("border"@[0] != "padding"@[0]);
    assert("border"@ != "margin"@);
    assert("border"@ != "padding"@);
    assert("border"@.len() != "border-width"@.len());
    assert(!is_box_property(d.name));
    assert("border-style"@[7] != "border-color"@[7]);
    assert("border-style"@ != "border-color"@);
    let r = expand_decl(d);
    assert(r =~= seq![
        decl("border-width-top"@, w),
        decl("border-width-left"@, w),
        decl("border-width-right"@, w),
        decl("border-width-bottom"@, w),
        decl("border-style"@, st),
        decl("border-color"@, c),
    ]);
    assert(r[0].name == "border-width-top"@);
    assert(r[1].name == "border-width-left"@);
    assert(r[2].name == "border-width-right"@);
    assert(r[3].name == "border-width-bottom"@);
    assert(r[4].name == "border-style"@);
    assert(r[5].name == "border-color"@);
}

/// Every `border` declaration of the rules can be spelled out.
pub open spec fn borders_ok(rts: Seq<RuleTypeView>) -> bool {
    forall|k: int, j: int|
        0 <= k < rts.len() && #[trigger] rts[k] is Rule && 0 <= j < rts[k]->Rule_0.declarations.len()
            && (#[trigger] rts[k]->Rule_0.declarations[j]).name == "border"@ ==> border_ok(
            rts[k]->Rule_0.declarations[j],
        )
}

fn name_is(s: &String, lit: &str) -> (r: bool)
    ensures
        r == (s@ == lit@),
{
    *s == lit.to_owned()
}

fn named(name: &String, suffix: &str, value: &Value) -> (r: Declaration)
    ensures
        r@ == decl(name@ + suffix@, value@),
{
    Declaration { name: name.clone().concat(suffix), value: clone_value(value) }
}

fn push_sides(
    out: &mut Vec<Declaration>,
    name: &String,
    top: &Value,
    right: &Value,
    bottom: &Value,
    left: &Value,
)
    ensures
        declaration_views(final(out)@) == declaration_views(old(out)@) + sides(
            name@,
            top@,
            right@,
            bottom@,
            left@,
        ),
{
    let ghost before = declaration_views(out@);
    out.push(named(name, "-top", top));
    out.push(named(name, "-right", right));
    out.push(named(name, "-bottom", bottom));
    out.push(named(name, "-left", left));
    assert(declaration_views(out@) =~= before + sides(name@, top@, right@, bottom@, left@));
}

fn copy_decl(d: &Declaration) -> (r: Declaration)
    ensures
        r@ == d@,
{
    Declaration { name: d.name.clone(), value: clone_value(&d.value) }
}

fn expand_array_decl(new_decs: &mut Vec<Declaration>, dec: &Declaration)
    ensures
        declaration_views(final(new_decs)@) == declaration_views(old(new_decs)@) + expand_array(dec@),
{
    let ghost before = declaration_views(new_decs@);
    match &dec.value {
        Value::ArrayValue(arr) => {
            proof {
                lemma_value_views(arr@);
            }
            if arr.len() == 2 {
                push_sides(new_decs, &dec.name, &arr[0], &arr[1], &arr[0], &arr[1]);
            } else if arr.len() == 4 {
                push_sides(new_decs, &dec.name, &arr[0], &arr[1], &arr[2], &arr[3]);
            } else {
                assert(before + Seq::<DeclarationView>::empty() =~= before);
            }
        },
        Value::Length(_, _) => {
            push_sides(new_decs, &dec.name, &dec.value, &dec.value, &dec.value, &dec.value);
        },
        _ => {
            new_decs.push(copy_decl(dec));
            assert(declaration_views(new_decs@) =~= before + seq![dec@]);
        },
    }
}

fn named_lit(name: &str, value: &Value) -> (r: Declaration)
    ensures
        r@ == decl(name@, value@),
{
    Declaration { name: name.to_owned(), value: clone_value(value) }
}

fn expand_border_shorthand(new_decs: &mut Vec<Declaration>, dec: &Declaration)
    requires
        border_ok(dec@),
    ensures
        declaration_views(final(new_decs)@) == declaration_views(old(new_decs)@) + expand_border(dec@),
{
    let ghost before = declaration_views(new_decs@);
    let width = match &dec.value {
        Value::ArrayValue(v) => {
            proof {
                lemma_value_views(v@);
            }
            &v[0]
        },
        _ => &dec.value,
    };
    new_decs.push(named_lit("border-width-top", width));
    new_decs.push(named_lit("border-width-left", width));
    new_decs.push(named_lit("border-width-right", width));
    new_decs.push(named_lit("border-width-bottom", width));
    if let Value::ArrayValue(v) = &dec.value {
        new_decs.push(named_lit("border-style", &v[1]));
        new_decs.push(named_lit("border-color", &v[2]));
    }
    assert(declaration_views(new_decs@) =~= before + expand_border(dec@));
}

fn expand_declarations(ds: &Vec<Declaration>) -> (r: Vec<Declaration>)
    requires
        forall|j: int| 0 <= j < ds@.len() && (#[trigger] ds@[j]).name@ == "border"@ ==> border_ok(ds@[j]@),
    ensures
        declaration_views(r@) == expand_decls(declaration_views(ds@)),
{
    let ghost dv = declaration_views(ds@);
    let mut new_decs: Vec<Declaration> = Vec::new();
    let mut k: usize = 0;
    assert(declaration_views(new_decs@) =~= expand_decls(dv.subrange(0, 0)));
    while k < ds.len()
        invariant
            k <= ds@.len(),
            dv == declaration_views(ds@),
            forall|j: int| 0 <= j < ds@.len() && (#[trigger] ds@[j]).name@ == "border"@ ==> border_ok(ds@[j]@),
            declaration_views(new_decs@) == expand_decls(dv.subrange(0, k as int)),
        decreases ds@.len() - k,
    {
        let dec = &ds[k];
        let ghost pre = dv.subrange(0, k + 1);
        assert(pre.drop_last() =~= dv.subrange(0, k as int));
        assert(pre.last() == dec@);
        if name_is(&dec.name, "margin") || name_is(&dec.name, "padding") || name_is(&dec.name, "border-width") {
            expand_array_decl(&mut new_decs, dec);
        } else if name_is(&dec.name, "border") {
            expand_border_shorthand(&mut new_decs, dec);
        } else {
            let ghost before = declaration_views(new_decs@);
            new_decs.push(copy_decl(dec));
            assert(declaration_views(new_decs@) =~= before + seq![dec@]);
        }
        k = k + 1;
    }
    assert(dv.subrange(0, k as int) =~= dv);
    new_decs
}

/// Spells out the shorthand properties of every rule of a sheet (the rules
/// inside at-rules are left as they are).
pub fn expand_styles(ss: &mut Stylesheet)
    requires
        borders_ok(rule_type_views(old(ss).rules@)),
    ensures
        rule_type_views(final(ss).rules@) == Seq::new(
            old(ss).rules@.len(),
            |k: int| expand_rule_type(rule_type_views(old(ss).rules@)[k]),
        ),
        final(ss).parent == old(ss).parent,
        final(ss).base_url == old(ss).base_url,
{
    let ghost orig = rule_type_views(ss.rules@);
    let ghost want = Seq::new(orig.len(), |k: int| expand_rule_type(orig[k]));
    proof {
        lemma_rule_type_views(ss.rules@);
    }
    let total = ss.rules.len();
    let mut rest: Vec<RuleType> = Vec::new();
    std::mem::swap(&mut rest, &mut ss.rules);
    let ghost all = rest@;
    let mut acc: Vec<RuleType> = Vec::new();
    let mut k: usize = 0;
    assert(rule_type_views(acc@) =~= want.subrange(0, 0));
    while rest.len() > 0
        invariant
            k + rest@.len() == total,
            total == all.len(),
            orig.len() == all.len(),
            rest@ == all.skip(k as int),
            forall|j: int| 0 <= j < all.len() ==> #[trigger] orig[j] == all[j]@,
            want == Seq::new(orig.len(), |k: int| expand_rule_type(orig[k])),
            borders_ok(orig),
            rule_type_views(acc@) == want.subrange(0, k as int),
        decreases rest@.len(),
    {
        let rt = rest.remove(0);
        assert(rt == all[k as int]);
        assert(rest@ =~= all.skip(k + 1));
        let out = match rt {
            RuleType::Rule(rule) => {
                let ghost rv = rule@;
                assert(orig[k as int] == RuleTypeView::Rule(rv));
                assert forall|j: int| 0 <= j < rule.declarations@.len() && (#[trigger] rule.declarations@[j]).name@ == "border"@
                    implies border_ok(rule.declarations@[j]@) by {
                    assert(orig[k as int]->Rule_0.declarations[j] == rule.declarations@[j]@);
                }
                let decs = expand_declarations(&rule.declarations);
                RuleType::Rule(Rule { selectors: rule.selectors, declarations: decs })
            },
            other => other,
        };
        assert(out@ == want[k as int]);
        let ghost before = rule_type_views(acc@);
        proof {
            crate::css::model::lemma_rule_type_views_push(acc@, out);
        }
        acc.push(out);
        k = k + 1;
        assert(rule_type_views(acc@) =~= want.subrange(0, k as int));
    }
    assert(want.subrange(0, k as int) =~= want);
    ss.rules = acc;
}

/// Whether every `border` declaration of the sheet's rules can be spelled
/// out: what [`expand_styles`] needs.
pub fn border_shorthands_ok(ss: &Stylesheet) -> (r: bool)
    ensures
        r == borders_ok(rule_type_views(ss.rules@)),
{
    let ghost rts = rule_type_views(ss.rules@);
    proof {
        lemma_rule_type_views(ss.rules@);
    }
    let mut k: usize = 0;
    while k < ss.rules.len()
        invariant
            k <= ss.rules@.len(),
            rts == rule_type_views(ss.rules@),
            rts.len() == ss.rules@.len(),
            forall|i: int| 0 <= i < rts.len() ==> #[trigger] rts[i] == ss.rules@[i]@,
            forall|i: int, j: int|
                0 <= i < k && #[trigger] rts[i] is Rule && 0 <= j < rts[i]->Rule_0.declarations.len()
                    && (#[trigger] rts[i]->Rule_0.declarations[j]).name == "border"@ ==> border_ok(
                    rts[i]->Rule_0.declarations[j],
                ),
        decreases ss.rules@.len() - k,
    {
        if let RuleType::Rule(rule) = &ss.rules[k] {
            let mut j: usize = 0;
            while j < rule.declarations.len()
                invariant
                    j <= rule.declarations@.len(),
                    k < rts.len(),
                    rts == rule_type_views(ss.rules@),
                    rts[k as int] == RuleTypeView::Rule(rule@),
                    forall|m: int| 0 <= m < j && (#[trigger] rule.declarations@[m]).name@ == "border"@
                        ==> border_ok(rule.declarations@[m]@),
                decreases rule.declarations@.len() - j,
            {
                let d = &rule.declarations[j];
                if name_is(&d.name, "border") && !border_value_ok(d) {
                    assert(rts[k as int] is Rule);
                    assert(rts[k as int]->Rule_0.declarations[j as int] == d@);
                    assert(rts[k as int]->Rule_0.declarations[j as int].name == "border"@);
                    assert(!border_ok(rts[k as int]->Rule_0.declarations[j as int]));
                    assert(!borders_ok(rts));
                    return false;
                }
                j = j + 1;
            }
            assert forall|m: int| 0 <= m < rts[k as int]->Rule_0.declarations.len()
                && (#[trigger] rts[k as int]->Rule_0.declarations[m]).name == "border"@ implies border_ok(
                rts[k as int]->Rule_0.declarations[m],
            ) by {
                assert(rts[k as int]->Rule_0.declarations[m] == rule.declarations@[m]@);
            }
        }
        k = k + 1;
    }
    true
}

fn border_value_ok(d: &Declaration) -> (r: bool)
    ensures
        r == border_ok(d@),
{
    match &d.value {
        Value::ArrayValue(a) => {
            proof {
                lemma_value_views(a@);
            }
            a.len() == 3
        },
        Value::Number(_) => true,
        _ => false,
    }
}

} // verus!
