//! Property maps, and copies of values.
use vstd::prelude::*;
use crate::css::model::{Decimal, Value, FunCallValue, ValueView, value_views, lemma_value_views, lemma_value_views_push};
use crate::dom::model::pairs_map;

verus! {

/// A copy of a number.
pub fn clone_decimal(d: &Decimal) -> (r: Decimal)
    ensures
        r@ == d@,
{
    let a = d.int_digits.clone();
    let b = d.frac_digits.clone();
    assert(a@ =~= d.int_digits@);
    assert(b@ =~= d.frac_digits@);
    Decimal { negative: d.negative, int_digits: a, frac_digits: b }
}

fn clone_values(vs: &Vec<Value>) -> (r: Vec<Value>)
    ensures
        value_views(r@) == value_views(vs@),
    decreases vs@,
{
    let mut out: Vec<Value> = Vec::new();
    let mut k: usize = 0;
    proof {
        lemma_value_views(vs@);
    }
    while k < vs.len()
        invariant
            k <= vs@.len(),
            value_views(out@) == value_views(vs@).subrange(0, k as int),
            value_views(vs@).len() == vs@.len(),
            forall|j: int| 0 <= j < vs@.len() ==> #[trigger] value_views(vs@)[j] == vs@[j]@,
        decreases vs@.len() - k,
    {
        assert(decreases_to!(vs@ => vs@[k as int]));
        let c = clone_value(&vs[k]);
        proof {
            lemma_value_views_push(out@, c);
        }
        out.push(c);
        k = k + 1;
        assert(value_views(out@) =~= value_views(vs@).subrange(0, k as int));
    }
    assert(value_views(vs@).subrange(0, k as int) =~= value_views(vs@));
    out
}

/// A copy of a value.
pub fn clone_value(v: &Value) -> (r: Value)
    ensures
        r@ == v@,
    decreases v,
{
    match v {
        Value::Keyword(s) => Value::Keyword(s.clone()),
        Value::Length(d, u) => Value::Length(clone_decimal(d), *u),
        Value::ColorValue(c) => Value::ColorValue(*c),
        Value::HexColor(s) => Value::HexColor(s.clone()),
        Value::ArrayValue(vs) => {
            assert(decreases_to!(v => vs));
            Value::ArrayValue(clone_values(vs))
        },
        Value::FunCall(f) => {
            assert(decreases_to!(v => f.arguments));
            Value::FunCall(FunCallValue { name: f.name.clone(), arguments: clone_values(&f.arguments) })
        },
        Value::StringLiteral(s) => Value::StringLiteral(s.clone()),
        Value::UnicodeCodepoint(c) => Value::UnicodeCodepoint(*c),
        Value::UnicodeRange(a, b) => Value::UnicodeRange(*a, *b),
        Value::Number(d) => Value::Number(clone_decimal(d)),
    }
}

pub type PropPairs = Seq<(Seq<char>, ValueView)>;

/// The values set on an element, in the order they were set. Setting a
/// property again overrides its earlier value: the map that the settings
/// stand for is [`PropertyMap::as_map`].
#[derive(Debug, PartialEq)]
pub struct PropertyMap {
    entries: Vec<(String, Value)>,
}

impl View for PropertyMap {
    type V = PropPairs;

    closed spec fn view(&self) -> PropPairs {
        Seq::new(self.entries@.len(), |k: int| (self.entries@[k].0@, self.entries@[k].1@))
    }
}

impl PropertyMap {
    pub open spec fn as_map(self) -> Map<Seq<char>, ValueView> {
        pairs_map(self@)
    }

    /// No settings.
    pub fn new() -> (r: PropertyMap)
        ensures
            r@ == PropPairs::empty(),
    {
        let r = PropertyMap { entries: Vec::new() };
        assert(r@ =~= PropPairs::empty());
        r
    }

    /// Sets `name` to `value`.
    pub fn insert(&mut self, name: String, value: Value)
        ensures
            final(self)@ == old(self)@.push((name@, value@)),
            final(self).as_map() == old(self).as_map().insert(name@, value@),
    {
        let ghost old_view = self@;
        self.entries.push((name, value));
        assert(self@ =~= old_view.push((name@, value@)));
        assert(self@.drop_last() =~= old_view);
    }

    /// The number of settings made.
    pub fn len(&self) -> (r: usize)
        ensures
            r == self@.len(),
    {
        self.entries.len()
    }

    /// The `i`-th setting made.
    pub fn entry(&self, i: usize) -> (r: (&String, &Value))
        requires
            i < self@.len(),
        ensures
            (r.0@, r.1@) == self@[i as int],
    {
        (&self.entries[i].0, &self.entries[i].1)
    }

    /// The value last set for `name`.
    pub fn get(&self, name: &str) -> (r: Option<&Value>)
        ensures
            r is Some <==> self.as_map().contains_key(name@),
            r matches Some(v) ==> v@ == self.as_map()[name@],
    {
        let k = name.to_owned();
        let mut j = self.entries.len();
        assert(self@.subrange(0, j as int) =~= self@);
        while j > 0
            invariant
                j <= self@.len(),
                self@.len() == self.entries@.len(),
                k@ == name@,
                pairs_map(self@).contains_key(name@) == pairs_map(self@.subrange(0, j as int)).contains_key(name@),
                pairs_map(self@).contains_key(name@) ==> pairs_map(self@)[name@] == pairs_map(
                    self@.subrange(0, j as int),
                )[name@],
            decreases j,
        {
            let ghost pre = self@.subrange(0, j as int);
            assert(pre.drop_last() =~= self@.subrange(0, j - 1));
            assert(pre.last() == self@[j - 1]);
            if self.entries[j - 1].0 == k {
                return Some(&self.entries[j - 1].1);
            }
            j = j - 1;
        }
        None
    }
}

} // verus!
