//! The data model of a style sheet, with the mathematical view of each type.
use vstd::prelude::*;

verus! {

/// A length unit.
#[derive(Clone, Copy, Debug, PartialEq, Eq, Structural)]
pub enum Unit {
    Px,
    Em,
    Per,
    Rem,
}

/// An RGBA colour.
#[derive(Clone, Copy, Debug, PartialEq, Eq, Structural)]
pub struct Color {
    pub r: u8,
    pub g: u8,
    pub b: u8,
    pub a: u8,
}

impl View for Unit {
    type V = Unit;

    open spec fn view(&self) -> Unit {
        *self
    }
}

impl View for Color {
    type V = Color;

    open spec fn view(&self) -> Color {
        *self
    }
}

/// A decimal number exactly as written: its sign, the digits before the
/// point and the digits after it (each digit a value `0..=9`).
///
/// A well-formed `Decimal` is canonical: no leading zero before the point, no
/// trailing zero after it, and no sign on zero.
#[derive(Debug, PartialEq)]
pub struct Decimal {
    pub negative: bool,
    pub int_digits: Vec<u8>,
    pub frac_digits: Vec<u8>,
}

pub struct DecimalView {
    pub negative: bool,
    pub int_digits: Seq<u8>,
    pub frac_digits: Seq<u8>,
}

impl View for Decimal {
    type V = DecimalView;

    open spec fn view(&self) -> DecimalView {
        DecimalView {
            negative: self.negative,
            int_digits: self.int_digits@,
            frac_digits: self.frac_digits@,
        }
    }
}

/// The number that decimal digits (values 0 to 9) denote.
pub open spec fn digits_value(ds: Seq<u8>) -> int
    decreases ds.len(),
{
    if ds.len() == 0 {
        0
    } else {
        digits_value(ds.drop_last()) * 10 + ds.last()
    }
}

pub open spec fn all_digits(ds: Seq<u8>) -> bool {
    forall|k: int| 0 <= k < ds.len() ==> #[trigger] ds[k] <= 9
}

impl DecimalView {
    pub open spec fn is_zero(self) -> bool {
        self.int_digits.len() == 0 && self.frac_digits.len() == 0
    }

    /// The canonical form described on [`Decimal`].
    pub open spec fn well_formed(self) -> bool {
        &&& all_digits(self.int_digits)
        &&& all_digits(self.frac_digits)
        &&& (self.int_digits.len() > 0 ==> self.int_digits[0] != 0)
        &&& (self.frac_digits.len() > 0 ==> self.frac_digits.last() != 0)
        &&& (self.is_zero() ==> !self.negative)
    }
}

/// `10` to the power `k`.
pub open spec fn pow10(k: nat) -> int
    decreases k,
{
    if k == 0 {
        1
    } else {
        10 * pow10((k - 1) as nat)
    }
}

impl DecimalView {
    /// The number the decimal denotes, multiplied by `10^k`: an integer as
    /// soon as `k` is at least the number of digits after the point.
    pub open spec fn scaled(self, k: nat) -> int {
        let m = digits_value(self.int_digits + self.frac_digits) * pow10(
            (k - self.frac_digits.len()) as nat,
        );
        if self.negative {
            -m
        } else {
            m
        }
    }
}

proof fn lemma_pow10_pos(k: nat)
    ensures
        pow10(k) >= 1,
    decreases k,
{
    if k > 0 {
        lemma_pow10_pos((k - 1) as nat);
    }
}

proof fn lemma_pow10_add(a: nat, b: nat)
    ensures
        pow10(a + b) == pow10(a) * pow10(b),
    decreases a,
{
    if a > 0 {
        lemma_pow10_add((a - 1) as nat, b);
        assert(((a + b) - 1) as nat == ((a - 1) as nat + b) as nat);
        let x = pow10((a - 1) as nat);
        let y = pow10(b);
        assert(10 * (x * y) == (10 * x) * y) by (nonlinear_arith);
    }
}

proof fn lemma_all_digits_drop_last(ds: Seq<u8>)
    requires
        all_digits(ds),
        ds.len() > 0,
    ensures
        all_digits(ds.drop_last()),
{
    assert forall|k: int| 0 <= k < ds.drop_last().len() implies #[trigger] ds.drop_last()[k] <= 9 by {
        assert(ds.drop_last()[k] == ds[k]);
    }
}

proof fn lemma_digits_concat(x: Seq<u8>, y: Seq<u8>)
    ensures
        digits_value(x + y) == digits_value(x) * pow10(y.len()) + digits_value(y),
    decreases y.len(),
{
    if y.len() == 0 {
        assert(x + y =~= x);
    } else {
        assert((x + y).drop_last() =~= x + y.drop_last());
        lemma_digits_concat(x, y.drop_last());
        let vx = digits_value(x);
        let p = pow10(y.drop_last().len());
        let vy = digits_value(y.drop_last());
        assert((vx * p + vy) * 10 == vx * (10 * p) + vy * 10) by (nonlinear_arith);
    }
}

proof fn lemma_digits_bound(y: Seq<u8>)
    requires
        all_digits(y),
    ensures
        0 <= digits_value(y) < pow10(y.len()),
    decreases y.len(),
{
    if y.len() > 0 {
        lemma_all_digits_drop_last(y);
        lemma_digits_bound(y.drop_last());
        let v = digits_value(y.drop_last());
        let p = pow10(y.drop_last().len());
        let l = y.last() as int;
        assert(0 <= v * 10 + l < 10 * p) by (nonlinear_arith)
            requires
                0 <= v < p,
                0 <= l <= 9,
        ;
    }
}

proof fn lemma_digits_lead(x: Seq<u8>)
    requires
        all_digits(x),
        x.len() > 0,
        x[0] != 0,
    ensures
        pow10((x.len() - 1) as nat) <= digits_value(x),
    decreases x.len(),
{
    lemma_all_digits_drop_last(x);
    if x.len() > 1 {
        assert(x.drop_last()[0] == x[0]);
        lemma_digits_lead(x.drop_last());
        let p = pow10((x.len() - 2) as nat);
        let v = digits_value(x.drop_last());
        assert(pow10((x.len() - 1) as nat) == 10 * p);
        assert(10 * p <= v * 10 + x.last()) by (nonlinear_arith)
            requires
                p <= v,
                x.last() >= 0,
        ;
    } else {
        assert(x.drop_last() =~= Seq::<u8>::empty());
        assert(x.last() == x[0]);
    }
}

proof fn lemma_digits_last(x: Seq<u8>)
    requires
        all_digits(x),
        x.len() > 0,
    ensures
        digits_value(x) % 10 == x.last(),
        digits_value(x) / 10 == digits_value(x.drop_last()),
{
    lemma_all_digits_drop_last(x);
    lemma_digits_bound(x.drop_last());
    vstd::arithmetic::div_mod::lemma_fundamental_div_mod_converse(
        digits_value(x),
        10,
        digits_value(x.drop_last()),
        x.last() as int,
    );
}

proof fn lemma_digits_injective(x: Seq<u8>, y: Seq<u8>)
    requires
        all_digits(x),
        all_digits(y),
        x.len() == y.len(),
        digits_value(x) == digits_value(y),
    ensures
        x == y,
    decreases x.len(),
{
    if x.len() > 0 {
        lemma_digits_last(x);
        lemma_digits_last(y);
        lemma_all_digits_drop_last(x);
        lemma_all_digits_drop_last(y);
        lemma_digits_injective(x.drop_last(), y.drop_last());
        assert forall|k: int| 0 <= k < x.len() implies x[k] == y[k] by {
            if k < x.len() - 1 {
                assert(x.drop_last()[k] == x[k]);
                assert(y.drop_last()[k] == y[k]);
            }
        }
    }
    assert(x =~= y);
}

/// The digits of a well-formed decimal denote zero exactly when it has none.
proof fn lemma_value_zero(d: DecimalView)
    requires
        d.well_formed(),
    ensures
        digits_value(d.int_digits + d.frac_digits) >= 0,
        digits_value(d.int_digits + d.frac_digits) == 0 <==> d.is_zero(),
{
    let p = d.frac_digits.len();
    lemma_digits_concat(d.int_digits, d.frac_digits);
    lemma_digits_bound(d.int_digits);
    lemma_digits_bound(d.frac_digits);
    lemma_pow10_pos(p);
    let i = digits_value(d.int_digits);
    let f = digits_value(d.frac_digits);
    let pp = pow10(p);
    assert(i * pp >= 0) by (nonlinear_arith)
        requires
            i >= 0,
            pp >= 1,
    ;
    if d.int_digits.len() > 0 {
        lemma_digits_lead(d.int_digits);
        lemma_pow10_pos((d.int_digits.len() - 1) as nat);
        assert(i * pp >= 1) by (nonlinear_arith)
            requires
                i >= 1,
                pp >= 1,
        ;
    } else if d.frac_digits.len() > 0 {
        lemma_digits_last(d.frac_digits);
        assert(f != 0);
    }
}

proof fn lemma_canonical_ordered(a: DecimalView, b: DecimalView, k: nat)
    requires
        a.well_formed(),
        b.well_formed(),
        a.frac_digits.len() <= b.frac_digits.len() <= k,
        a.scaled(k) == b.scaled(k),
    ensures
        a == b,
{
    let p = a.frac_digits.len();
    let q = b.frac_digits.len();
    let ia = digits_value(a.int_digits);
    let fa = digits_value(a.frac_digits);
    let ib = digits_value(b.int_digits);
    let fb = digits_value(b.frac_digits);
    let va = digits_value(a.int_digits + a.frac_digits);
    let vb = digits_value(b.int_digits + b.frac_digits);
    lemma_digits_concat(a.int_digits, a.frac_digits);
    lemma_digits_concat(b.int_digits, b.frac_digits);
    lemma_digits_bound(a.int_digits);
    lemma_digits_bound(a.frac_digits);
    lemma_digits_bound(b.int_digits);
    lemma_digits_bound(b.frac_digits);
    lemma_value_zero(a);
    lemma_value_zero(b);
    let x = pow10((k - p) as nat);
    let y = pow10((k - q) as nat);
    let dq = pow10((q - p) as nat);
    lemma_pow10_pos((k - p) as nat);
    lemma_pow10_pos((k - q) as nat);
    lemma_pow10_pos((q - p) as nat);
    lemma_pow10_add((q - p) as nat, (k - q) as nat);
    assert(((q - p) as nat + (k - q) as nat) as nat == (k - p) as nat);
    assert(x == dq * y);
    // the signs agree: a sign on one side only would need both to be zero
    assert(va * x >= 0 && vb * y >= 0) by (nonlinear_arith)
        requires
            va >= 0,
            vb >= 0,
            x >= 1,
            y >= 1,
    ;
    if a.negative != b.negative {
        assert(va * x == 0 && vb * y == 0);
        assert(va == 0) by (nonlinear_arith)
            requires
                va * x == 0,
                x >= 1,
        ;
        assert(vb == 0) by (nonlinear_arith)
            requires
                vb * y == 0,
                y >= 1,
        ;
    }
    assert(a.negative == b.negative);
    assert(va * x == vb * y);
    assert(vb == va * dq) by (nonlinear_arith)
        requires
            va * x == vb * y,
            x == dq * y,
            y >= 1,
    ;
    if q > p {
        // `vb` would be a multiple of ten, yet it ends in a nonzero digit
        let dq1 = pow10((q - p - 1) as nat);
        assert(dq == 10 * dq1);
        assert(vb == (va * dq1) * 10 + 0) by (nonlinear_arith)
            requires
                vb == va * dq,
                dq == 10 * dq1,
        ;
        vstd::arithmetic::div_mod::lemma_fundamental_div_mod_converse(vb, 10, va * dq1, 0);
        let pq1 = pow10((q - 1) as nat);
        assert(pow10(q) == 10 * pq1);
        lemma_digits_last(b.frac_digits);
        let fb1 = digits_value(b.frac_digits.drop_last());
        assert(fb == fb1 * 10 + b.frac_digits.last());
        assert(vb == (ib * pq1 + fb1) * 10 + b.frac_digits.last()) by (nonlinear_arith)
            requires
                vb == ib * pow10(q) + fb,
                pow10(q) == 10 * pq1,
                fb == fb1 * 10 + b.frac_digits.last(),
        ;
        vstd::arithmetic::div_mod::lemma_fundamental_div_mod_converse(
            vb,
            10,
            ib * pq1 + fb1,
            b.frac_digits.last() as int,
        );
        assert(false);
    }
    assert(p == q);
    assert(va == vb);
    lemma_pow10_pos(p);
    vstd::arithmetic::div_mod::lemma_fundamental_div_mod_converse(va, pow10(p), ia, fa);
    vstd::arithmetic::div_mod::lemma_fundamental_div_mod_converse(vb, pow10(p), ib, fb);
    assert(ia == ib && fa == fb);
    lemma_digits_injective(a.frac_digits, b.frac_digits);
    let la = a.int_digits.len();
    let lb = b.int_digits.len();
    if la > 0 && lb > 0 {
        lemma_digits_lead(a.int_digits);
        lemma_digits_lead(b.int_digits);
        if la < lb {
            lemma_pow10_add(la, (lb - 1 - la) as nat);
            lemma_pow10_pos((lb - 1 - la) as nat);
            assert(pow10(la) <= pow10((lb - 1) as nat)) by (nonlinear_arith)
                requires
                    pow10((lb - 1) as nat) == pow10(la) * pow10((lb - 1 - la) as nat),
                    pow10((lb - 1 - la) as nat) >= 1,
                    pow10(la) >= 1,
            ;
            assert(false);
        }
        if lb < la {
            lemma_pow10_add(lb, (la - 1 - lb) as nat);
            lemma_pow10_pos((la - 1 - lb) as nat);
            assert(pow10(lb) <= pow10((la - 1) as nat)) by (nonlinear_arith)
                requires
                    pow10((la - 1) as nat) == pow10(lb) * pow10((la - 1 - lb) as nat),
                    pow10((la - 1 - lb) as nat) >= 1,
                    pow10(lb) >= 1,
            ;
            assert(false);
        }
    } else if la > 0 {
        lemma_digits_lead(a.int_digits);
        lemma_pow10_pos((la - 1) as nat);
        assert(lb == 0 && ib == 0);
        assert(false);
    } else if lb > 0 {
        lemma_digits_lead(b.int_digits);
        lemma_pow10_pos((lb - 1) as nat);
        assert(false);
    }
    lemma_digits_injective(a.int_digits, b.int_digits);
}

/// Canonical decimals are unique: two well-formed decimals that denote the
/// same number (scaled by any power of ten that covers both fractions) are
/// the same decimal, so `==` on decimals is equality of numbers.
pub proof fn lemma_decimal_canonical(a: DecimalView, b: DecimalView, k: nat)
    requires
        a.well_formed(),
        b.well_formed(),
        a.frac_digits.len() <= k,
        b.frac_digits.len() <= k,
        a.scaled(k) == b.scaled(k),
    ensures
        a == b,
{
    if a.frac_digits.len() <= b.frac_digits.len() {
        lemma_canonical_ordered(a, b, k);
    } else {
        lemma_canonical_ordered(b, a, k);
    }
}

/// A CSS value.
#[derive(Debug, PartialEq)]
pub enum Value {
    Keyword(String),
    Length(Decimal, Unit),
    ColorValue(Color),
    HexColor(String),
    ArrayValue(Vec<Value>),
    FunCall(FunCallValue),
    StringLiteral(String),
    UnicodeCodepoint(i32),
    UnicodeRange(i32, i32),
    Number(Decimal),
}

/// A function call value such as `url(..)` or `linear-gradient(..)`.
#[derive(Debug, PartialEq)]
pub struct FunCallValue {
    pub name: String,
    pub arguments: Vec<Value>,
}

pub enum ValueView {
    Keyword(Seq<char>),
    Length(DecimalView, Unit),
    ColorValue(Color),
    HexColor(Seq<char>),
    ArrayValue(Seq<ValueView>),
    FunCall(Seq<char>, Seq<ValueView>),
    StringLiteral(Seq<char>),
    UnicodeCodepoint(i32),
    UnicodeRange(i32, i32),
    Number(DecimalView),
}

pub open spec fn value_views(vs: Seq<Value>) -> Seq<ValueView>
    decreases vs,
{
    if vs.len() == 0 {
        Seq::empty()
    } else {
        seq![vs[0].view()] + value_views(vs.drop_first())
    }
}

impl View for Value {
    type V = ValueView;

    open spec fn view(&self) -> ValueView
        decreases self,
    {
        match self {
            Value::Keyword(s) => ValueView::Keyword(s@),
            Value::Length(d, u) => ValueView::Length(d@, *u),
            Value::ColorValue(c) => ValueView::ColorValue(*c),
            Value::HexColor(s) => ValueView::HexColor(s@),
            Value::ArrayValue(v) => ValueView::ArrayValue(value_views(v@)),
            Value::FunCall(f) => ValueView::FunCall(f.name@, value_views(f.arguments@)),
            Value::StringLiteral(s) => ValueView::StringLiteral(s@),
            Value::UnicodeCodepoint(c) => ValueView::UnicodeCodepoint(*c),
            Value::UnicodeRange(a, b) => ValueView::UnicodeRange(*a, *b),
            Value::Number(d) => ValueView::Number(d@),
        }
    }
}

pub proof fn lemma_value_views(vs: Seq<Value>)
    ensures
        value_views(vs).len() == vs.len(),
        forall|k: int| 0 <= k < vs.len() ==> #[trigger] value_views(vs)[k] == vs[k]@,
    decreases vs.len(),
{
    if vs.len() > 0 {
        lemma_value_views(vs.drop_first());
        assert(value_views(vs) == seq![vs[0].view()] + value_views(vs.drop_first()));
        assert forall|k: int| 0 <= k < vs.len() implies #[trigger] value_views(vs)[k]
            == vs[k]@ by {
            if k > 0 {
                assert(vs.drop_first()[k - 1] == vs[k]);
            }
        }
    }
}

pub proof fn lemma_value_views_push(vs: Seq<Value>, v: Value)
    ensures
        value_views(vs.push(v)) == value_views(vs).push(v@),
{
    lemma_value_views(vs);
    lemma_value_views(vs.push(v));
    assert(value_views(vs.push(v)) =~= value_views(vs).push(v@));
}

/// A selector made of an optional tag name, an optional id and classes.
#[derive(Debug, PartialEq)]
pub struct SimpleSelector {
    pub tag_name: Option<String>,
    pub id: Option<String>,
    pub class: Vec<String>,
}

/// `ancestor child`: a descendant selector.
#[derive(Debug, PartialEq)]
pub struct AncestorSelector {
    pub ancestor: Box<Selector>,
    pub child: Box<Selector>,
}

#[derive(Debug, PartialEq)]
pub enum Selector {
    Simple(SimpleSelector),
    Ancestor(AncestorSelector),
}

pub enum SelectorView {
    Simple(Option<Seq<char>>, Option<Seq<char>>, Seq<Seq<char>>),
    Ancestor(Box<SelectorView>, Box<SelectorView>),
}

pub open spec fn opt_string_view(o: Option<String>) -> Option<Seq<char>> {
    match o {
        Some(s) => Some(s@),
        None => None,
    }
}

pub open spec fn string_views(v: Seq<String>) -> Seq<Seq<char>> {
    Seq::new(v.len(), |k: int| v[k]@)
}

impl View for Selector {
    type V = SelectorView;

    open spec fn view(&self) -> SelectorView
        decreases self,
    {
        match self {
            Selector::Simple(s) => SelectorView::Simple(
                opt_string_view(s.tag_name),
                opt_string_view(s.id),
                string_views(s.class@),
            ),
            Selector::Ancestor(a) => SelectorView::Ancestor(
                Box::new((*a.ancestor).view()),
                Box::new((*a.child).view()),
            ),
        }
    }
}

pub open spec fn selector_views(v: Seq<Selector>) -> Seq<SelectorView> {
    Seq::new(v.len(), |k: int| v[k]@)
}

/// `(ids, classes, tags)`.
pub type Specificity = (usize, usize, usize);

impl SelectorView {
    /// The specificity of a selector: that of a simple selector counts its
    /// id, its classes and its tag name; that of a descendant selector is
    /// the specificity of its ancestor part.
    pub open spec fn specificity(self) -> (nat, nat, nat)
        decreases self,
    {
        match self {
            SelectorView::Simple(tag, id, class) => (
                if id is Some {
                    1nat
                } else {
                    0nat
                },
                class.len(),
                if tag is Some {
                    1nat
                } else {
                    0nat
                },
            ),
            SelectorView::Ancestor(a, _) => a.specificity(),
        }
    }
}

impl Selector {
    /// The specificity of the selector.
    pub fn specificity(&self) -> (r: Specificity)
        ensures
            (r.0 as nat, r.1 as nat, r.2 as nat) == self@.specificity(),
        decreases self,
    {
        match self {
            Selector::Simple(simple) => {
                let a: usize = if simple.id.is_some() {
                    1
                } else {
                    0
                };
                let b = simple.class.len();
                let c: usize = if simple.tag_name.is_some() {
                    1
                } else {
                    0
                };
                (a, b, c)
            },
            Selector::Ancestor(anc) => anc.ancestor.specificity(),
        }
    }
}

/// `term` is the byte `*`.
pub fn star(term: u8) -> (r: bool)
    ensures
        r == (term == 42),
{
    term == 42
}

/// A declaration `name: value`.
#[derive(Debug, PartialEq)]
pub struct Declaration {
    pub name: String,
    pub value: Value,
}

pub struct DeclarationView {
    pub name: Seq<char>,
    pub value: ValueView,
}

impl View for Declaration {
    type V = DeclarationView;

    open spec fn view(&self) -> DeclarationView {
        DeclarationView { name: self.name@, value: self.value@ }
    }
}

pub open spec fn declaration_views(v: Seq<Declaration>) -> Seq<DeclarationView> {
    Seq::new(v.len(), |k: int| v[k]@)
}

/// A rule: selectors and the declarations that apply to what they match.
#[derive(Debug, PartialEq)]
pub struct Rule {
    pub selectors: Vec<Selector>,
    pub declarations: Vec<Declaration>,
}

pub struct RuleView {
    pub selectors: Seq<SelectorView>,
    pub declarations: Seq<DeclarationView>,
}

impl View for Rule {
    type V = RuleView;

    open spec fn view(&self) -> RuleView {
        RuleView {
            selectors: selector_views(self.selectors@),
            declarations: declaration_views(self.declarations@),
        }
    }
}

/// An at-rule such as `@import`, `@charset` or `@font-face`.
#[derive(Debug, PartialEq)]
pub struct AtRule {
    pub name: String,
    pub value: Option<Value>,
    pub rules: Vec<RuleType>,
}

#[derive(Debug, PartialEq)]
pub enum RuleType {
    Rule(Rule),
    AtRule(AtRule),
    Comment(String),
}

pub enum RuleTypeView {
    Rule(RuleView),
    AtRule(Seq<char>, Option<ValueView>, Seq<RuleTypeView>),
    Comment(Seq<char>),
}

pub open spec fn opt_value_view(o: Option<Value>) -> Option<ValueView> {
    match o {
        Some(v) => Some(v@),
        None => None,
    }
}

pub open spec fn rule_type_views(vs: Seq<RuleType>) -> Seq<RuleTypeView>
    decreases vs,
{
    if vs.len() == 0 {
        Seq::empty()
    } else {
        seq![vs[0].view()] + rule_type_views(vs.drop_first())
    }
}

impl View for RuleType {
    type V = RuleTypeView;

    open spec fn view(&self) -> RuleTypeView
        decreases self,
    {
        match self {
            RuleType::Rule(r) => RuleTypeView::Rule(r@),
            RuleType::AtRule(a) => RuleTypeView::AtRule(
                a.name@,
                opt_value_view(a.value),
                rule_type_views(a.rules@),
            ),
            RuleType::Comment(c) => RuleTypeView::Comment(c@),
        }
    }
}

pub proof fn lemma_rule_type_views(vs: Seq<RuleType>)
    ensures
        rule_type_views(vs).len() == vs.len(),
        forall|k: int| 0 <= k < vs.len() ==> #[trigger] rule_type_views(vs)[k] == vs[k]@,
    decreases vs.len(),
{
    if vs.len() > 0 {
        lemma_rule_type_views(vs.drop_first());
        assert(rule_type_views(vs) == seq![vs[0].view()] + rule_type_views(vs.drop_first()));
        assert forall|k: int| 0 <= k < vs.len() implies #[trigger] rule_type_views(vs)[k]
            == vs[k]@ by {
            if k > 0 {
                assert(vs.drop_first()[k - 1] == vs[k]);
            }
        }
    }
}

pub proof fn lemma_rule_type_views_push(vs: Seq<RuleType>, v: RuleType)
    ensures
        rule_type_views(vs.push(v)) == rule_type_views(vs).push(v@),
{
    lemma_rule_type_views(vs);
    lemma_rule_type_views(vs.push(v));
    assert(rule_type_views(vs.push(v)) =~= rule_type_views(vs).push(v@));
}

/// A style sheet: its rules in source order, and the URL it came from.
#[derive(Debug, PartialEq)]
pub struct Stylesheet {
    pub rules: Vec<RuleType>,
    pub parent: Option<Box<Stylesheet>>,
    pub base_url: String,
}


/// The properties that hold a colour.
#[allow(non_camel_case_types)]
#[derive(Clone, Copy, Debug, PartialEq, Eq, Structural)]
pub enum ColorProps {
    color,
    border_color,
    background_color,
}

impl ColorProps {
    /// The name of the property in a style sheet.
    pub fn to_string(&self) -> (r: &'static str)
        ensures
            r@ == match *self {
                ColorProps::color => "color"@,
                ColorProps::border_color => "border-color"@,
                ColorProps::background_color => "background-color"@,
            },
    {
        match self {
            ColorProps::color => "color",
            ColorProps::border_color => "border-color",
            ColorProps::background_color => "background-color",
        }
    }
}

} // verus!
