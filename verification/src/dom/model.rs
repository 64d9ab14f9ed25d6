//! The data model of a document: nodes, elements and their attributes.
use vstd::prelude::*;
use crate::text::{chars_of, string_of};

verus! {

/// The attributes of an element, in the order they were set. Setting a name
/// again overrides its earlier value: the map that the attributes stand for
/// is [`AttrMap::as_map`], and two attribute lists are equal when they stand
/// for the same map.
#[derive(Debug)]
pub struct AttrMap {
    entries: Vec<(String, String)>,
}

pub type AttrPairs = Seq<(Seq<char>, Seq<char>)>;

/// The map that a sequence of settings leaves: the last value set for each
/// name.
pub open spec fn pairs_map<V>(ps: Seq<(Seq<char>, V)>) -> Map<Seq<char>, V>
    decreases ps.len(),
{
    if ps.len() == 0 {
        Map::empty()
    } else {
        pairs_map(ps.drop_last()).insert(ps.last().0, ps.last().1)
    }
}

/// A name is set by a sequence of settings exactly when one of them sets it.
pub proof fn lemma_pairs_map_keys<V>(ps: Seq<(Seq<char>, V)>, name: Seq<char>)
    ensures
        pairs_map(ps).contains_key(name) <==> exists|i: int| 0 <= i < ps.len() && (#[trigger] ps[i]).0 == name,
    decreases ps.len(),
{
    if ps.len() > 0 {
        lemma_pairs_map_keys(ps.drop_last(), name);
        if exists|i: int| 0 <= i < ps.len() && (#[trigger] ps[i]).0 == name {
            let i = choose|i: int| 0 <= i < ps.len() && (#[trigger] ps[i]).0 == name;
            if i < ps.len() - 1 {
                assert(ps.drop_last()[i] == ps[i]);
            }
        }
        if exists|i: int| 0 <= i < ps.drop_last().len() && (#[trigger] ps.drop_last()[i]).0 == name {
            let i = choose|i: int| 0 <= i < ps.drop_last().len() && (#[trigger] ps.drop_last()[i]).0 == name;
            assert(ps[i] == ps.drop_last()[i]);
        }
    }
}

/// The names a sequence of settings sets are finitely many.
pub proof fn lemma_pairs_map_finite<V>(ps: Seq<(Seq<char>, V)>)
    ensures
        pairs_map(ps).dom().finite(),
    decreases ps.len(),
{
    if ps.len() > 0 {
        lemma_pairs_map_finite(ps.drop_last());
    }
}

/// Reading a name right after setting it gives the value set; the other
/// names keep their values.
pub proof fn lemma_set_then_read<V>(ps: Seq<(Seq<char>, V)>, name: Seq<char>, value: V, other: Seq<char>)
    ensures
        pairs_map(ps.push((name, value))).contains_key(name),
        pairs_map(ps.push((name, value)))[name] == value,
        other != name ==> (pairs_map(ps.push((name, value))).contains_key(other) == pairs_map(ps).contains_key(other)),
        other != name && pairs_map(ps).contains_key(other) ==> pairs_map(ps.push((name, value)))[other] == pairs_map(ps)[other],
{
    assert(ps.push((name, value)).drop_last() =~= ps);
}

impl PartialEq for AttrMap {
    fn eq(&self, other: &AttrMap) -> (r: bool) {
        let a = self.covered_by(other);
        let b = other.covered_by(self);
        proof {
            if a && b {
                assert(self.as_map() =~= other.as_map());
            }
        }
        a && b
    }
}

impl vstd::std_specs::cmp::PartialEqSpecImpl for AttrMap {
    open spec fn obeys_eq_spec() -> bool {
        true
    }

    open spec fn eq_spec(&self, other: &AttrMap) -> bool {
        self.as_map() == other.as_map()
    }
}

impl View for AttrMap {
    type V = AttrPairs;

    closed spec fn view(&self) -> AttrPairs {
        Seq::new(self.entries@.len(), |k: int| (self.entries@[k].0@, self.entries@[k].1@))
    }
}

impl AttrMap {
    pub open spec fn as_map(self) -> Map<Seq<char>, Seq<char>> {
        pairs_map(self@)
    }

    /// No attributes.
    pub fn new() -> (r: AttrMap)
        ensures
            r@ == Seq::<(Seq<char>, Seq<char>)>::empty(),
    {
        let r = AttrMap { entries: Vec::new() };
        assert(r@ =~= Seq::<(Seq<char>, Seq<char>)>::empty());
        r
    }

    /// Sets `key` to `value`.
    pub fn insert(&mut self, key: String, value: String)
        ensures
            final(self)@ == old(self)@.push((key@, value@)),
            final(self).as_map() == old(self).as_map().insert(key@, value@),
    {
        let ghost old_view = self@;
        self.entries.push((key, value));
        assert(self@ =~= old_view.push((key@, value@)));
        assert(self@.drop_last() =~= old_view);
    }

    /// The number of names set.
    pub fn len(&self) -> (r: usize)
        ensures
            r == self.as_map().dom().len(),
    {
        let mut count: usize = 0;
        let mut k: usize = 0;
        proof {
            assert(self@.subrange(0, 0) =~= Seq::<(Seq<char>, Seq<char>)>::empty());
        }
        while k < self.entries.len()
            invariant
                k <= self@.len(),
                self@.len() == self.entries@.len(),
                count <= k,
                count == pairs_map(self@.subrange(0, k as int)).dom().len(),
            decreases self@.len() - k,
        {
            let mut seen = false;
            let mut j: usize = 0;
            while j < k
                invariant
                    j <= k,
                    k < self@.len(),
                    self@.len() == self.entries@.len(),
                    seen <==> exists|m: int| 0 <= m < j && #[trigger] self@[m].0 == self@[k as int].0,
                decreases k - j,
            {
                if self.entries[j].0 == self.entries[k].0 {
                    seen = true;
                }
                proof {
                    if self@[j as int].0 == self@[k as int].0 {
                        assert(self@[j as int].0 == self@[k as int].0);
                    }
                }
                j = j + 1;
            }
            proof {
                let before = self@.subrange(0, k as int);
                let after = self@.subrange(0, k + 1);
                assert(after.drop_last() =~= before);
                lemma_pairs_map_finite(before);
                lemma_pairs_map_keys(before, self@[k as int].0);
                if seen {
                    let m = choose|m: int| 0 <= m < k && #[trigger] self@[m].0 == self@[k as int].0;
                    assert(before[m] == self@[m]);
                } else {
                    assert forall|m: int| 0 <= m < before.len() implies (#[trigger] before[m]).0 != self@[k as int].0 by {
                        assert(before[m] == self@[m]);
                    }
                }
                assert(pairs_map(after).dom() =~= pairs_map(before).dom().insert(self@[k as int].0));
            }
            if !seen {
                count = count + 1;
            }
            k = k + 1;
        }
        assert(self@.subrange(0, self@.len() as int) =~= self@);
        count
    }

    /// Every name set here is set in `other` to the same value.
    fn covered_by(&self, other: &AttrMap) -> (r: bool)
        ensures
            r <==> forall|n: Seq<char>| #[trigger] self.as_map().contains_key(n) ==> other.as_map().contains_key(n)
                && other.as_map()[n] == self.as_map()[n],
    {
        let mut k: usize = 0;
        while k < self.entries.len()
            invariant
                k <= self@.len(),
                self@.len() == self.entries@.len(),
                forall|m: int| 0 <= m < k ==> other.as_map().contains_key(#[trigger] self@[m].0)
                    && other.as_map()[self@[m].0] == self.as_map()[self@[m].0],
            decreases self@.len() - k,
        {
            let name = self.entries[k].0.as_str();
            proof {
                lemma_pairs_map_keys(self@, self@[k as int].0);
            }
            match (self.get(name), other.get(name)) {
                (Some(a), Some(b)) => {
                    if !(*a == *b) {
                        return false;
                    }
                },
                _ => {
                    return false;
                },
            }
            k = k + 1;
        }
        assert forall|n: Seq<char>| #[trigger] self.as_map().contains_key(n) implies other.as_map().contains_key(n)
            && other.as_map()[n] == self.as_map()[n] by {
            lemma_pairs_map_keys(self@, n);
            let m = choose|m: int| 0 <= m < self@.len() && (#[trigger] self@[m]).0 == n;
            assert(other.as_map().contains_key(self@[m].0));
        }
        true
    }

    /// A copy of the attributes.
    pub fn copy(&self) -> (r: AttrMap)
        ensures
            r@ == self@,
    {
        let mut entries: Vec<(String, String)> = Vec::new();
        let mut k: usize = 0;
        while k < self.entries.len()
            invariant
                k <= self.entries@.len(),
                entries@.len() == k,
                forall|j: int| 0 <= j < k ==> #[trigger] entries@[j].0@ == self.entries@[j].0@
                    && entries@[j].1@ == self.entries@[j].1@,
            decreases self.entries@.len() - k,
        {
            entries.push((self.entries[k].0.clone(), self.entries[k].1.clone()));
            k = k + 1;
        }
        let r = AttrMap { entries };
        assert(r@ =~= self@);
        r
    }

    /// The `i`-th setting made.
    pub fn entry(&self, i: usize) -> (r: (&String, &String))
        requires
            i < self@.len(),
        ensures
            (r.0@, r.1@) == self@[i as int],
    {
        (&self.entries[i].0, &self.entries[i].1)
    }

    /// The value last set for `key`.
    pub fn get(&self, key: &str) -> (r: Option<&String>)
        ensures
            r is Some <==> self.as_map().contains_key(key@),
            r matches Some(v) ==> v@ == self.as_map()[key@],
    {
        let k = key.to_owned();
        let mut j = self.entries.len();
        assert(self@.subrange(0, j as int) =~= self@);
        while j > 0
            invariant
                j <= self@.len(),
                self@.len() == self.entries@.len(),
                k@ == key@,
                pairs_map(self@).contains_key(key@) == pairs_map(self@.subrange(0, j as int)).contains_key(key@),
                pairs_map(self@).contains_key(key@) ==> pairs_map(self@)[key@] == pairs_map(
                    self@.subrange(0, j as int),
                )[key@],
            decreases j,
        {
            let ghost pre = self@.subrange(0, j as int);
            assert(pre.drop_last() =~= self@.subrange(0, j - 1));
            assert(pre.last() == self@[j - 1]);
            if self.entries[j - 1].0 == k {
                return Some(&self.entries[j - 1].1);
            }
            j = j - 1;
        }
        None
    }
}

/// An element: its tag name and attributes.
#[derive(Debug, PartialEq)]
pub struct ElementData {
    pub tag_name: String,
    pub attributes: AttrMap,
}

/// A `<meta>` tag.
#[derive(Debug, PartialEq)]
pub struct MetaData {
    pub attributes: AttrMap,
}

#[derive(Debug, PartialEq)]
pub enum NodeType {
    Text(String),
    Comment(String),
    Cdata(String),
    Element(ElementData),
    Meta(MetaData),
}

#[derive(Debug, PartialEq)]
pub struct Node {
    pub node_type: NodeType,
    pub children: Vec<Node>,
}

/// A document: its root element and the URL it came from.
#[derive(Debug, PartialEq)]
pub struct Document {
    pub root_node: Node,
    pub base_url: String,
}

pub struct DocumentView {
    pub root_node: NodeView,
    pub base_url: Seq<char>,
}

impl View for Document {
    type V = DocumentView;

    open spec fn view(&self) -> DocumentView {
        DocumentView { root_node: self.root_node@, base_url: self.base_url@ }
    }
}

pub enum NodeTypeView {
    Text(Seq<char>),
    Comment(Seq<char>),
    Cdata(Seq<char>),
    Element(Seq<char>, AttrPairs),
    Meta(AttrPairs),
}

pub struct NodeView {
    pub node_type: NodeTypeView,
    pub children: Seq<NodeView>,
}

impl View for NodeType {
    type V = NodeTypeView;

    open spec fn view(&self) -> NodeTypeView {
        match self {
            NodeType::Text(t) => NodeTypeView::Text(t@),
            NodeType::Comment(t) => NodeTypeView::Comment(t@),
            NodeType::Cdata(t) => NodeTypeView::Cdata(t@),
            NodeType::Element(e) => NodeTypeView::Element(e.tag_name@, e.attributes@),
            NodeType::Meta(m) => NodeTypeView::Meta(m.attributes@),
        }
    }
}

pub open spec fn node_views(ns: Seq<Node>) -> Seq<NodeView>
    decreases ns,
{
    if ns.len() == 0 {
        Seq::empty()
    } else {
        seq![ns[0].view()] + node_views(ns.drop_first())
    }
}

impl View for Node {
    type V = NodeView;

    open spec fn view(&self) -> NodeView
        decreases self,
    {
        NodeView { node_type: self.node_type@, children: node_views(self.children@) }
    }
}

pub proof fn lemma_node_views(ns: Seq<Node>)
    ensures
        node_views(ns).len() == ns.len(),
        forall|k: int| 0 <= k < ns.len() ==> #[trigger] node_views(ns)[k] == ns[k]@,
    decreases ns.len(),
{
    if ns.len() > 0 {
        lemma_node_views(ns.drop_first());
        assert(node_views(ns) == seq![ns[0].view()] + node_views(ns.drop_first()));
        assert forall|k: int| 0 <= k < ns.len() implies #[trigger] node_views(ns)[k] == ns[k]@ by {
            if k > 0 {
                assert(ns.drop_first()[k - 1] == ns[k]);
            }
        }
    }
}

pub proof fn lemma_node_views_push(ns: Seq<Node>, n: Node)
    ensures
        node_views(ns.push(n)) == node_views(ns).push(n@),
{
    lemma_node_views(ns);
    lemma_node_views(ns.push(n));
    assert(node_views(ns.push(n)) =~= node_views(ns).push(n@));
}

pub open spec fn id_chars() -> Seq<char> {
    seq!['i', 'd']
}

pub open spec fn class_chars() -> Seq<char> {
    seq!['c', 'l', 'a', 's', 's']
}

/// The pieces of `s` between the spaces (`str::split(' ')`), empty pieces
/// included.
pub open spec fn split_spaces(s: Seq<char>) -> Seq<Seq<char>>
    decreases s.len(),
{
    if s.len() == 0 {
        seq![Seq::empty()]
    } else {
        let r = split_spaces(s.drop_last());
        if s.last() == ' ' {
            r.push(Seq::empty())
        } else {
            r.update(r.len() - 1, r.last().push(s.last()))
        }
    }
}

pub proof fn lemma_split_spaces_nonempty(s: Seq<char>)
    ensures
        split_spaces(s).len() >= 1,
    decreases s.len(),
{
    if s.len() > 0 {
        lemma_split_spaces_nonempty(s.drop_last());
    }
}

impl ElementData {
    /// The value of the `id` attribute.
    pub fn id(&self) -> (r: Option<&String>)
        ensures
            r is Some <==> self.attributes.as_map().contains_key(id_chars()),
            r matches Some(v) ==> v@ == self.attributes.as_map()[id_chars()],
    {
        assert("id"@ =~= id_chars()) by {
            reveal_strlit("id");
        }
        self.attributes.get("id")
    }

    /// The distinct pieces of the `class` attribute between spaces, in the
    /// order they first occur; none when there is no `class` attribute.
    pub fn classes(&self) -> (r: Vec<String>)
        ensures
            self.attributes.as_map().contains_key(class_chars()) ==> {
                &&& crate::css::model::string_views(r@).to_set() == split_spaces(
                    self.attributes.as_map()[class_chars()],
                ).to_set()
                &&& crate::css::model::string_views(r@).no_duplicates()
            },
            !self.attributes.as_map().contains_key(class_chars()) ==> r@.len() == 0,
    {
        assert("class"@ =~= class_chars()) by {
            reveal_strlit("class");
        }
        match self.attributes.get("class") {
            Some(list) => distinct_pieces(list),
            None => Vec::new(),
        }
    }
}

/// The distinct pieces of `s` between spaces, in order of first occurrence.
fn distinct_pieces(s: &String) -> (r: Vec<String>)
    ensures
        crate::css::model::string_views(r@).to_set() == split_spaces(s@).to_set(),
        crate::css::model::string_views(r@).no_duplicates(),
{
    let cs = chars_of(s.as_str());
    let pieces = split_chars(cs.as_slice());
    let mut strs: Vec<String> = Vec::new();
    let mut k: usize = 0;
    while k < pieces.len()
        invariant
            k <= pieces@.len(),
            crate::css::model::string_views(strs@) == string_views_of(pieces@.subrange(0, k as int)),
        decreases pieces@.len() - k,
    {
        let ghost before = crate::css::model::string_views(strs@);
        strs.push(string_of(pieces[k].as_slice()));
        assert(crate::css::model::string_views(strs@) =~= before.push(pieces@[k as int]@));
        k = k + 1;
        assert(string_views_of(pieces@.subrange(0, k as int)) =~= string_views_of(pieces@.subrange(0, k - 1)).push(pieces@[k - 1]@));
    }
    assert(pieces@.subrange(0, pieces@.len() as int) =~= pieces@);
    dedup_strings(&strs)
}

/// The distinct strings of `v`, in order of first occurrence.
fn dedup_strings(v: &Vec<String>) -> (r: Vec<String>)
    ensures
        crate::css::model::string_views(r@).to_set() == crate::css::model::string_views(v@).to_set(),
        crate::css::model::string_views(r@).no_duplicates(),
{
    let mut out: Vec<String> = Vec::new();
    let mut k: usize = 0;
    while k < v.len()
        invariant
            k <= v@.len(),
            crate::css::model::string_views(out@).to_set() == crate::css::model::string_views(v@.subrange(0, k as int)).to_set(),
            crate::css::model::string_views(out@).no_duplicates(),
        decreases v@.len() - k,
    {
        let mut seen = false;
        let mut m: usize = 0;
        while m < out.len()
            invariant
                m <= out@.len(),
                k < v@.len(),
                seen == exists|x: int| 0 <= x < m && out@[x]@ == v@[k as int]@,
            decreases out@.len() - m,
        {
            if out[m] == v[k] {
                seen = true;
            }
            m = m + 1;
        }
        let ghost old_out = crate::css::model::string_views(out@);
        let ghost piece = v@[k as int]@;
        assert(crate::css::model::string_views(v@.subrange(0, k + 1)) =~= crate::css::model::string_views(v@.subrange(0, k as int)).push(piece));
        if !seen {
            out.push(v[k].clone());
            assert(crate::css::model::string_views(out@) =~= old_out.push(piece));
            assert(!old_out.contains(piece)) by {
                if old_out.contains(piece) {
                    let x = choose|x: int| 0 <= x < old_out.len() && old_out[x] == piece;
                    assert(out@[x]@ == piece);
                }
            }
            proof {
                old_out.lemma_push_to_set_commute(piece);
            }
            assert(crate::css::model::string_views(out@).to_set() =~= old_out.to_set().insert(piece));
        } else {
            assert(old_out.contains(piece)) by {
                let x = choose|x: int| 0 <= x < out@.len() && out@[x]@ == piece;
                assert(old_out[x] == piece);
            }
        }
        proof {
            crate::css::model::string_views(v@.subrange(0, k as int)).lemma_push_to_set_commute(piece);
        }
        assert(crate::css::model::string_views(v@.subrange(0, k + 1)).to_set() =~= crate::css::model::string_views(v@.subrange(0, k as int)).to_set().insert(piece));
        k = k + 1;
    }
    assert(v@.subrange(0, v@.len() as int) =~= v@);
    out
}

pub open spec fn string_views_of(v: Seq<Vec<char>>) -> Seq<Seq<char>> {
    Seq::new(v.len(), |k: int| v[k]@)
}

/// The pieces of `cs` between the spaces.
fn split_chars(cs: &[char]) -> (r: Vec<Vec<char>>)
    ensures
        string_views_of(r@) == split_spaces(cs@),
{
    let mut out: Vec<Vec<char>> = Vec::new();
    let mut cur: Vec<char> = Vec::new();
    let mut k: usize = 0;
    assert(cs@.subrange(0, 0) =~= Seq::<char>::empty());
    assert(string_views_of(out@).push(cur@) =~= split_spaces(Seq::<char>::empty()));
    while k < cs.len()
        invariant
            k <= cs@.len(),
            split_spaces(cs@.subrange(0, k as int)) == string_views_of(out@).push(cur@),
        decreases cs@.len() - k,
    {
        let ghost pre = cs@.subrange(0, k + 1);
        assert(pre.drop_last() =~= cs@.subrange(0, k as int));
        assert(pre.last() == cs@[k as int]);
        let c = cs[k];
        let ghost old_out = string_views_of(out@);
        let ghost old_cur = cur@;
        if c == ' ' {
            let done = cur;
            cur = Vec::new();
            out.push(done);
            assert(string_views_of(out@) =~= old_out.push(old_cur));
            assert(string_views_of(out@).push(cur@) =~= old_out.push(old_cur).push(Seq::<char>::empty()));
        } else {
            cur.push(c);
            assert(string_views_of(out@).push(cur@) =~= old_out.push(old_cur).update(
                old_out.len() as int,
                old_cur.push(c),
            ));
        }
        k = k + 1;
    }
    assert(cs@.subrange(0, cs@.len() as int) =~= cs@);
    let ghost before = string_views_of(out@);
    out.push(cur);
    assert(string_views_of(out@) =~= before.push(cur@));
    out
}


/// A copy of a node type.
pub fn clone_node_type(t: &NodeType) -> (r: NodeType)
    ensures
        r@ == t@,
{
    match t {
        NodeType::Text(s) => NodeType::Text(s.clone()),
        NodeType::Comment(s) => NodeType::Comment(s.clone()),
        NodeType::Cdata(s) => NodeType::Cdata(s.clone()),
        NodeType::Element(e) => NodeType::Element(
            ElementData { tag_name: e.tag_name.clone(), attributes: e.attributes.copy() },
        ),
        NodeType::Meta(m) => NodeType::Meta(MetaData { attributes: m.attributes.copy() }),
    }
}

/// A copy of a tree.
pub fn clone_node(n: &Node) -> (r: Node)
    ensures
        r@ == n@,
    decreases n,
{
    let mut kids: Vec<Node> = Vec::new();
    let mut k: usize = 0;
    proof {
        lemma_node_views(n.children@);
    }
    while k < n.children.len()
        invariant
            k <= n.children@.len(),
            node_views(kids@) == node_views(n.children@).subrange(0, k as int),
            node_views(n.children@).len() == n.children@.len(),
            forall|j: int| 0 <= j < n.children@.len() ==> #[trigger] node_views(n.children@)[j] == n.children@[j]@,
        decreases n.children@.len() - k,
    {
        assert(decreases_to!(n => n.children@[k as int]));
        let c = clone_node(&n.children[k]);
        proof {
            lemma_node_views_push(kids@, c);
        }
        kids.push(c);
        k = k + 1;
        assert(node_views(kids@) =~= node_views(n.children@).subrange(0, k as int));
    }
    assert(node_views(n.children@).subrange(0, k as int) =~= node_views(n.children@));
    Node { node_type: clone_node_type(&n.node_type), children: kids }
}


/// A text node.
pub fn text(data: String) -> (r: Node)
    ensures
        r@ == (NodeView { node_type: NodeTypeView::Text(data@), children: Seq::empty() }),
{
    let r = Node { node_type: NodeType::Text(data), children: Vec::new() };
    assert(node_views(r.children@) =~= Seq::<NodeView>::empty());
    r
}

} // verus!
