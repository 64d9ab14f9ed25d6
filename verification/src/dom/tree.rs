//! Searching and cleaning up a document tree.
use vstd::prelude::*;
use crate::dom::model::{Node, NodeType, NodeView, NodeTypeView, Document, node_views, lemma_node_views};

verus! {

/// The first element named `name` in pre-order: the node itself, then the
/// subtrees of its children in order.
pub open spec fn first_with_tag(n: NodeView, name: Seq<char>) -> Option<NodeView>
    decreases n,
{
    match n.node_type {
        NodeTypeView::Element(tag, _) => if tag == name {
            Some(n)
        } else {
            first_in(n.children, name)
        },
        _ => first_in(n.children, name),
    }
}

/// The first element named `name` in the subtrees of `ns`, in order.
pub open spec fn first_in(ns: Seq<NodeView>, name: Seq<char>) -> Option<NodeView>
    decreases ns,
{
    if ns.len() == 0 {
        None
    } else {
        match first_with_tag(ns[0], name) {
            Some(x) => Some(x),
            None => first_in(ns.drop_first(), name),
        }
    }
}

fn find_tag<'a>(node: &'a Node, name: &String) -> (r: Option<&'a Node>)
    ensures
        r is Some <==> first_with_tag(node@, name@) is Some,
        r matches Some(m) ==> first_with_tag(node@, name@) == Some(m@),
    decreases node,
{
    if let NodeType::Element(data) = &node.node_type {
        if data.tag_name == *name {
            return Some(node);
        }
    }
    proof {
        lemma_node_views(node.children@);
    }
    let ghost all = node@.children;
    assert(all.skip(0) =~= all);
    let mut k: usize = 0;
    while k < node.children.len()
        invariant
            k <= node.children@.len(),
            all == node_views(node.children@),
            all.len() == node.children@.len(),
            forall|j: int| 0 <= j < all.len() ==> #[trigger] all[j] == node.children@[j]@,
            first_with_tag(node@, name@) == first_in(all.skip(k as int), name@),
        decreases node.children@.len() - k,
    {
        assert(decreases_to!(node => node.children@[k as int]));
        let res = find_tag(&node.children[k], name);
        assert(all.skip(k as int)[0] == all[k as int]);
        assert(all.skip(k as int).drop_first() =~= all.skip(k + 1));
        if res.is_some() {
            return res;
        }
        k = k + 1;
    }
    None
}


/// Looks for the first element named `name` in pre-order.
#[allow(non_snake_case)]
pub fn getElementsByTagName<'a>(node: &'a Node, name: &str) -> (r: Option<&'a Node>)
    ensures
        r is Some <==> first_with_tag(node@, name@) is Some,
        r matches Some(m) ==> first_with_tag(node@, name@) == Some(m@),
{
    let owned = name.to_owned();
    find_tag(node, &owned)
}

// ---------------------------------------------------------------- blank text
/// The characters with the Unicode `White_Space` property, which
/// `str::trim` removes.
pub open spec fn is_white(c: char) -> bool {
    let u = c as u32;
    ||| 9 <= u <= 13
    ||| u == 32
    ||| u == 0x85
    ||| u == 0xa0
    ||| u == 0x1680
    ||| 0x2000 <= u <= 0x200a
    ||| u == 0x2028
    ||| u == 0x2029
    ||| u == 0x202f
    ||| u == 0x205f
    ||| u == 0x3000
}

fn white(c: char) -> (r: bool)
    ensures
        r == is_white(c),
{
    let u = c as u32;
    (9 <= u && u <= 13) || u == 32 || u == 0x85 || u == 0xa0 || u == 0x1680 || (0x2000 <= u && u
        <= 0x200a) || u == 0x2028 || u == 0x2029 || u == 0x202f || u == 0x205f || u == 0x3000
}

/// A text node whose text trims to nothing.
pub open spec fn is_blank(n: NodeView) -> bool {
    n.node_type is Text && all_white(n.node_type->Text_0)
}

/// Every character is white space.
pub open spec fn all_white(t: Seq<char>) -> bool {
    forall|k: int| 0 <= k < t.len() ==> is_white(#[trigger] t[k])
}

fn blank(n: &Node) -> (r: bool)
    ensures
        r == is_blank(n@),
{
    match &n.node_type {
        NodeType::Text(t) => {
            let cs = crate::text::chars_of(t.as_str());
            let mut k: usize = 0;
            while k < cs.len()
                invariant
                    k <= cs@.len(),
                    cs@ == t@,
                    n@.node_type == NodeTypeView::Text(t@),
                    forall|j: int| 0 <= j < k ==> is_white(#[trigger] cs@[j]),
                decreases cs@.len() - k,
            {
                if !white(cs[k]) {
                    assert(!all_white(t@));
                    return false;
                }
                k = k + 1;
            }
            true
        },
        _ => false,
    }
}

/// The tree without the blank text nodes among the children of any node.
pub open spec fn strip_node(n: NodeView) -> NodeView
    decreases n,
{
    NodeView { node_type: n.node_type, children: strip_list(n.children) }
}

/// The nodes that are not blank, each stripped.
pub open spec fn strip_list(ns: Seq<NodeView>) -> Seq<NodeView>
    decreases ns,
{
    if ns.len() == 0 {
        Seq::empty()
    } else if is_blank(ns[0]) {
        strip_list(ns.drop_first())
    } else {
        seq![strip_node(ns[0])] + strip_list(ns.drop_first())
    }
}

fn strip_empty_nodes_helper(node: &mut Node)
    ensures
        final(node)@ == strip_node(old(node)@),
    decreases *old(node),
{
    let ghost orig = *node;
    let total = node.children.len();
    let mut rest: Vec<Node> = Vec::new();
    std::mem::swap(&mut rest, &mut node.children);
    proof {
        lemma_node_views(orig.children@);
    }
    let ghost all = node_views(orig.children@);
    let mut acc: Vec<Node> = Vec::new();
    let mut k: usize = 0;
    assert(all.skip(0) =~= all);
    assert(node_views(acc@) + strip_list(all) =~= strip_list(all));
    while rest.len() > 0
        invariant
            k + rest@.len() == orig.children@.len(),
            total == orig.children@.len(),
            rest@ == orig.children@.skip(k as int),
            all == node_views(orig.children@),
            all.len() == orig.children@.len(),
            forall|j: int| 0 <= j < all.len() ==> #[trigger] all[j] == orig.children@[j]@,
            strip_list(all) == node_views(acc@) + strip_list(all.skip(k as int)),
            node.node_type == orig.node_type,
            orig == *old(node),
        decreases rest@.len(),
    {
        let mut c = rest.remove(0);
        assert(c == orig.children@[k as int]);
        assert(all.skip(k as int)[0] == all[k as int]);
        assert(all.skip(k as int).drop_first() =~= all.skip(k + 1));
        assert(rest@ =~= orig.children@.skip(k + 1));
        if !blank(&c) {
            assert(decreases_to!(orig => orig.children@[k as int]));
            strip_empty_nodes_helper(&mut c);
            let ghost before = node_views(acc@);
            proof {
                crate::dom::model::lemma_node_views_push(acc@, c);
            }
            acc.push(c);
            assert(before + (seq![strip_node(all[k as int])] + strip_list(all.skip(k + 1)))
                =~= node_views(acc@) + strip_list(all.skip(k + 1)));
        }
        k = k + 1;
    }
    assert(all.skip(k as int) =~= Seq::<NodeView>::empty());
    assert(node_views(acc@) + Seq::<NodeView>::empty() =~= node_views(acc@));
    node.children = acc;
}

/// Removes, everywhere below the root, the text nodes that hold nothing but
/// white space.
pub fn strip_empty_nodes(doc: &mut Document)
    ensures
        final(doc).root_node@ == strip_node(old(doc).root_node@),
        final(doc).base_url == old(doc).base_url,
{
    strip_empty_nodes_helper(&mut doc.root_node);
}



/// No node of the tree has a blank text node among its children.
pub open spec fn tidy(n: NodeView) -> bool
    decreases n,
{
    tidy_list(n.children)
}

pub open spec fn tidy_list(ns: Seq<NodeView>) -> bool
    decreases ns,
{
    ns.len() > 0 ==> !is_blank(ns[0]) && tidy(ns[0]) && tidy_list(ns.drop_first())
}

/// After stripping, no node has a blank text node among its children.
pub proof fn lemma_strip_tidy(n: NodeView)
    ensures
        tidy(strip_node(n)),
    decreases n,
{
    lemma_strip_list_tidy(n.children);
}

/// The nodes kept from a list, stripped, hold no blank text anywhere.
pub proof fn lemma_strip_list_tidy(ns: Seq<NodeView>)
    ensures
        tidy_list(strip_list(ns)),
    decreases ns,
{
    if ns.len() > 0 {
        lemma_strip_list_tidy(ns.drop_first());
        if !is_blank(ns[0]) {
            let r = strip_list(ns);
            assert(r[0] == strip_node(ns[0]));
            assert(r.drop_first() =~= strip_list(ns.drop_first()));
            lemma_strip_tidy(ns[0]);
        }
    }
}

/// Stripping a stripped tree changes nothing.
pub proof fn lemma_strip_idempotent(n: NodeView)
    ensures
        strip_node(strip_node(n)) == strip_node(n),
    decreases n,
{
    lemma_strip_list_idempotent(n.children);
}

/// Stripping a stripped list of nodes changes nothing.
pub proof fn lemma_strip_list_idempotent(ns: Seq<NodeView>)
    ensures
        strip_list(strip_list(ns)) == strip_list(ns),
    decreases ns,
{
    if ns.len() > 0 {
        lemma_strip_list_idempotent(ns.drop_first());
        if !is_blank(ns[0]) {
            let r = strip_list(ns);
            assert(r[0] == strip_node(ns[0]));
            assert(r.drop_first() =~= strip_list(ns.drop_first()));
            lemma_strip_idempotent(ns[0]);
            assert(strip_list(r) =~= r);
        }
    }
}


// ---------------------------------------------------------------- entities
/// `s` with each occurrence of `from`, found from left to right without
/// overlap, replaced by `to` (as `str::replace` does for a non-empty
/// pattern).
pub open spec fn replace_all(s: Seq<char>, from: Seq<char>, to: Seq<char>) -> Seq<char>
    decreases s.len(),
{
    if s.len() == 0 || from.len() == 0 {
        s
    } else if from.len() <= s.len() && s.subrange(0, from.len() as int) == from {
        to + replace_all(s.subrange(from.len() as int, s.len() as int), from, to)
    } else {
        seq![s[0]] + replace_all(s.drop_first(), from, to)
    }
}

fn starts_at(s: &[char], i: usize, t: &[char]) -> (r: bool)
    requires
        i <= s@.len(),
    ensures
        r == (i + t@.len() <= s@.len() && s@.subrange(i as int, i + t@.len()) == t@),
{
    let n = s.len();
    if t.len() > n - i {
        return false;
    }
    let mut k: usize = 0;
    while k < t.len()
        invariant
            n == s@.len(),
            i + t@.len() <= n,
            k <= t@.len(),
            forall|m: int| 0 <= m < k ==> s@[i + m] == t@[m],
        decreases t@.len() - k,
    {
        if s[i + k] != t[k] {
            assert(s@.subrange(i as int, i + t@.len())[k as int] != t@[k as int]);
            return false;
        }
        k = k + 1;
    }
    assert(s@.subrange(i as int, i + t@.len()) =~= t@);
    true
}

fn replace_chars(s: &[char], from: &[char], to: &[char]) -> (r: Vec<char>)
    requires
        from@.len() > 0,
    ensures
        r@ == replace_all(s@, from@, to@),
{
    let n = s.len();
    let mut out: Vec<char> = Vec::new();
    let mut i: usize = 0;
    assert(s@.skip(0) =~= s@);
    loop
        invariant
            n == s@.len(),
            i <= n,
            from@.len() > 0,
            replace_all(s@, from@, to@) == out@ + replace_all(s@.skip(i as int), from@, to@),
        decreases n - i,
    {
        let ghost rest = s@.skip(i as int);
        if i == n {
            assert(out@ + rest =~= out@);
            return out;
        }
        if starts_at(s, i, from) {
            assert(rest.subrange(0, from@.len() as int) =~= s@.subrange(i as int, i + from@.len()));
            assert(rest.subrange(from@.len() as int, rest.len() as int) =~= s@.skip(i + from@.len()));
            let ghost before = out@;
            let mut k: usize = 0;
            while k < to.len()
                invariant
                    k <= to@.len(),
                    out@ == before + to@.subrange(0, k as int),
                decreases to@.len() - k,
            {
                out.push(to[k]);
                k = k + 1;
                assert(out@ =~= before + to@.subrange(0, k as int));
            }
            assert(to@.subrange(0, to@.len() as int) =~= to@);
            assert(before + (to@ + replace_all(s@.skip(i + from@.len()), from@, to@)) =~= out@
                + replace_all(s@.skip(i + from@.len()), from@, to@));
            i = i + from.len();
        } else {
            proof {
                if from@.len() <= rest.len() {
                    assert(rest.subrange(0, from@.len() as int) =~= s@.subrange(i as int, i + from@.len()));
                }
            }
            assert(rest.drop_first() =~= s@.skip(i + 1));
            let ghost before = out@;
            out.push(s[i]);
            assert(before + (seq![s@[i as int]] + replace_all(s@.skip(i + 1), from@, to@)) =~= out@
                + replace_all(s@.skip(i + 1), from@, to@));
            i = i + 1;
        }
    }
}

/// `&lt;`, `&gt;` and `&amp;` replaced by the characters they stand for, in
/// three passes in this order.
pub open spec fn unescape(t: Seq<char>) -> Seq<char> {
    replace_all(
        replace_all(replace_all(t, seq!['&', 'l', 't', ';'], seq!['<']), seq!['&', 'g', 't', ';'], seq!['>']),
        seq!['&', 'a', 'm', 'p', ';'],
        seq!['&'],
    )
}

fn unescape_text(t: &String) -> (r: String)
    ensures
        r@ == unescape(t@),
{
    let lt: [char; 4] = ['&', 'l', 't', ';'];
    let gt: [char; 4] = ['&', 'g', 't', ';'];
    let amp: [char; 5] = ['&', 'a', 'm', 'p', ';'];
    let c_lt: [char; 1] = ['<'];
    let c_gt: [char; 1] = ['>'];
    let c_amp: [char; 1] = ['&'];
    assert(lt@ =~= seq!['&', 'l', 't', ';']);
    assert(gt@ =~= seq!['&', 'g', 't', ';']);
    assert(amp@ =~= seq!['&', 'a', 'm', 'p', ';']);
    assert(c_lt@ =~= seq!['<']);
    assert(c_gt@ =~= seq!['>']);
    assert(c_amp@ =~= seq!['&']);
    let cs = crate::text::chars_of(t.as_str());
    let a = replace_chars(cs.as_slice(), &lt, &c_lt);
    let b = replace_chars(a.as_slice(), &gt, &c_gt);
    let c = replace_chars(b.as_slice(), &amp, &c_amp);
    crate::text::string_of(c.as_slice())
}

/// A node type with the entities of a text unescaped; other types as they
/// are.
pub open spec fn unescape_type(t: NodeTypeView) -> NodeTypeView {
    match t {
        NodeTypeView::Text(x) => NodeTypeView::Text(unescape(x)),
        _ => t,
    }
}

/// A tree with the entities of every text node unescaped.
pub open spec fn expand_node(n: NodeView) -> NodeView
    decreases n,
{
    NodeView { node_type: unescape_type(n.node_type), children: expand_list(n.children) }
}

pub open spec fn expand_list(ns: Seq<NodeView>) -> Seq<NodeView>
    decreases ns,
{
    if ns.len() == 0 {
        Seq::empty()
    } else {
        seq![expand_node(ns[0])] + expand_list(ns.drop_first())
    }
}

fn expand_entities_helper(node: &mut Node)
    ensures
        final(node)@ == (NodeView {
            node_type: old(node)@.node_type,
            children: expand_list(old(node)@.children),
        }),
    decreases *old(node),
{
    let ghost orig = *node;
    let total = node.children.len();
    let mut rest: Vec<Node> = Vec::new();
    std::mem::swap(&mut rest, &mut node.children);
    proof {
        lemma_node_views(orig.children@);
    }
    let ghost all = node_views(orig.children@);
    let mut acc: Vec<Node> = Vec::new();
    let mut k: usize = 0;
    assert(all.skip(0) =~= all);
    assert(node_views(acc@) + expand_list(all) =~= expand_list(all));
    while rest.len() > 0
        invariant
            k + rest@.len() == orig.children@.len(),
            total == orig.children@.len(),
            rest@ == orig.children@.skip(k as int),
            all == node_views(orig.children@),
            all.len() == orig.children@.len(),
            forall|j: int| 0 <= j < all.len() ==> #[trigger] all[j] == orig.children@[j]@,
            expand_list(all) == node_views(acc@) + expand_list(all.skip(k as int)),
            node.node_type == orig.node_type,
            orig == *old(node),
        decreases rest@.len(),
    {
        let mut c = rest.remove(0);
        assert(c == orig.children@[k as int]);
        assert(all.skip(k as int)[0] == all[k as int]);
        assert(all.skip(k as int).drop_first() =~= all.skip(k + 1));
        assert(rest@ =~= orig.children@.skip(k + 1));
        assert(decreases_to!(orig => orig.children@[k as int]));
        let ghost before_c = c@;
        expand_entities_helper(&mut c);
        let Node { node_type, children } = c;
        let nt = match node_type {
            NodeType::Text(t) => NodeType::Text(unescape_text(&t)),
            other => other,
        };
        let c2 = Node { node_type: nt, children };
        assert(c2@ == expand_node(before_c));
        let ghost before = node_views(acc@);
        proof {
            crate::dom::model::lemma_node_views_push(acc@, c2);
        }
        acc.push(c2);
        assert(before + (seq![expand_node(all[k as int])] + expand_list(all.skip(k + 1)))
            =~= node_views(acc@) + expand_list(all.skip(k + 1)));
        k = k + 1;
    }
    assert(all.skip(k as int) =~= Seq::<NodeView>::empty());
    assert(node_views(acc@) + Seq::<NodeView>::empty() =~= node_views(acc@));
    node.children = acc;
}

/// Replaces, in every text node below the root, `&lt;`, `&gt;` and `&amp;`
/// by `<`, `>` and `&`.
pub fn expand_entities(doc: &mut Document)
    ensures
        final(doc).root_node@ == (NodeView {
            node_type: old(doc).root_node@.node_type,
            children: expand_list(old(doc).root_node@.children),
        }),
        final(doc).base_url == old(doc).base_url,
{
    expand_entities_helper(&mut doc.root_node);
}


/// What the search finds is an element with the name looked for.
pub proof fn lemma_first_with_tag_found(n: NodeView, name: Seq<char>)
    ensures
        first_with_tag(n, name) matches Some(m) ==> m.node_type matches NodeTypeView::Element(tag, _) && tag == name,
    decreases n,
{
    lemma_first_in_found(n.children, name);
}

proof fn lemma_first_in_found(ns: Seq<NodeView>, name: Seq<char>)
    ensures
        first_in(ns, name) matches Some(m) ==> m.node_type matches NodeTypeView::Element(tag, _) && tag == name,
    decreases ns,
{
    if ns.len() > 0 {
        lemma_first_with_tag_found(ns[0], name);
        lemma_first_in_found(ns.drop_first(), name);
    }
}

/// Unescaping changes only the text of text nodes: every node keeps its
/// kind and its number of children, and other nodes are unchanged.
pub open spec fn same_shape(a: NodeView, b: NodeView) -> bool
    decreases a,
{
    &&& (a.node_type is Text <==> b.node_type is Text)
    &&& (!(a.node_type is Text) ==> a.node_type == b.node_type)
    &&& shapes(a.children, b.children)
}

pub open spec fn shapes(a: Seq<NodeView>, b: Seq<NodeView>) -> bool
    decreases a,
{
    &&& a.len() == b.len()
    &&& a.len() > 0 ==> same_shape(a[0], b[0]) && shapes(a.drop_first(), b.drop_first())
}

/// Expanding the entities of a tree keeps its shape.
pub proof fn lemma_expand_shape(n: NodeView)
    ensures
        same_shape(n, expand_node(n)),
    decreases n,
{
    lemma_expand_list_shape(n.children);
}

pub proof fn lemma_expand_list_shape(ns: Seq<NodeView>)
    ensures
        shapes(ns, expand_list(ns)),
    decreases ns,
{
    if ns.len() > 0 {
        lemma_expand_shape(ns[0]);
        lemma_expand_list_shape(ns.drop_first());
        let e = expand_list(ns);
        assert(e[0] == expand_node(ns[0]));
        assert(e.drop_first() =~= expand_list(ns.drop_first()));
    }
}

} // verus!
