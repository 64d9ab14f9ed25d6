//! The styled tree: each node of the document with the values the cascade
//! gives it.
use vstd::prelude::*;
use crate::dom::model::{Node, NodeType, NodeView, NodeTypeView, clone_node, lemma_node_views};
use crate::css::model::RuleTypeView;
use crate::style::props::{PropertyMap, PropPairs};
use crate::style::cascade::{AncestorView, ancestor_views, cascade, specified_values};
use crate::net::sheets::StylesheetSet;

verus! {

/// A node of the document with its values, and its children styled.
#[derive(Debug)]
pub struct StyledNode {
    pub node: Node,
    pub children: Vec<StyledNode>,
    pub specified_values: PropertyMap,
}

pub struct StyledView {
    pub node: NodeView,
    pub values: PropPairs,
    pub children: Seq<StyledView>,
}

pub open spec fn styled_views(ns: Seq<StyledNode>) -> Seq<StyledView>
    decreases ns,
{
    if ns.len() == 0 {
        Seq::empty()
    } else {
        seq![ns[0].view()] + styled_views(ns.drop_first())
    }
}

impl View for StyledNode {
    type V = StyledView;

    open spec fn view(&self) -> StyledView
        decreases self,
    {
        StyledView {
            node: self.node@,
            values: self.specified_values@,
            children: styled_views(self.children@),
        }
    }
}

pub proof fn lemma_styled_views(ns: Seq<StyledNode>)
    ensures
        styled_views(ns).len() == ns.len(),
        forall|k: int| 0 <= k < ns.len() ==> #[trigger] styled_views(ns)[k] == ns[k]@,
    decreases ns.len(),
{
    if ns.len() > 0 {
        lemma_styled_views(ns.drop_first());
        assert(styled_views(ns) == seq![ns[0].view()] + styled_views(ns.drop_first()));
        assert forall|k: int| 0 <= k < ns.len() implies #[trigger] styled_views(ns)[k] == ns[k]@ by {
            if k > 0 {
                assert(ns.drop_first()[k - 1] == ns[k]);
            }
        }
    }
}

pub proof fn lemma_styled_views_push(ns: Seq<StyledNode>, n: StyledNode)
    ensures
        styled_views(ns.push(n)) == styled_views(ns).push(n@),
{
    lemma_styled_views(ns);
    lemma_styled_views(ns.push(n));
    assert(styled_views(ns.push(n)) =~= styled_views(ns).push(n@));
}

/// The styled tree of a node whose ancestors are `anc`: an element gets the
/// values of the cascade, any other node none; the children are styled with
/// the node and its values as their ancestors.
pub open spec fn styled(n: NodeView, sheets: Seq<Seq<RuleTypeView>>, anc: Seq<AncestorView>) -> StyledView
    decreases n,
{
    let vals = match n.node_type {
        NodeTypeView::Element(tag, atts) => cascade(tag, atts, sheets, anc),
        _ => PropPairs::empty(),
    };
    StyledView { node: n, values: vals, children: styled_list(n.children, sheets, seq![(n, vals)]) }
}

pub open spec fn styled_list(
    ns: Seq<NodeView>,
    sheets: Seq<Seq<RuleTypeView>>,
    anc: Seq<AncestorView>,
) -> Seq<StyledView>
    decreases ns,
{
    if ns.len() == 0 {
        Seq::empty()
    } else {
        seq![styled(ns[0], sheets, anc)] + styled_list(ns.drop_first(), sheets, anc)
    }
}

proof fn lemma_styled_list(ns: Seq<NodeView>, sheets: Seq<Seq<RuleTypeView>>, anc: Seq<AncestorView>)
    ensures
        styled_list(ns, sheets, anc).len() == ns.len(),
        forall|k: int| 0 <= k < ns.len() ==> #[trigger] styled_list(ns, sheets, anc)[k] == styled(ns[k], sheets, anc),
    decreases ns.len(),
{
    if ns.len() > 0 {
        lemma_styled_list(ns.drop_first(), sheets, anc);
        assert forall|k: int| 0 <= k < ns.len() implies #[trigger] styled_list(ns, sheets, anc)[k] == styled(ns[k], sheets, anc) by {
            if k > 0 {
                assert(ns.drop_first()[k - 1] == ns[k]);
            }
        }
    }
}

fn real_style_tree(
    root: &Node,
    styles: &StylesheetSet,
    ancestors: &[(&Node, &PropertyMap)],
) -> (r: StyledNode)
    ensures
        r@ == styled(root@, styles@, ancestor_views(ancestors@)),
    decreases root,
{
    let specified = match &root.node_type {
        NodeType::Element(elem) => specified_values(elem, styles, ancestors),
        _ => PropertyMap::new(),
    };
    let ghost vals = specified@;
    assert(vals == styled(root@, styles@, ancestor_views(ancestors@)).values);
    let mut kids: Vec<StyledNode> = Vec::new();
    {
        let a2: Vec<(&Node, &PropertyMap)> = vec![(root, &specified)];
        let ghost anc2 = ancestor_views(a2@);
        assert(anc2 =~= seq![(root@, vals)]);
        let ghost want = styled_list(root@.children, styles@, anc2);
        proof {
            lemma_node_views(root.children@);
            lemma_styled_list(root@.children, styles@, anc2);
        }
        let mut k: usize = 0;
        assert(styled_views(kids@) =~= want.subrange(0, 0));
        while k < root.children.len()
            invariant
                k <= root.children@.len(),
                anc2 == ancestor_views(a2@),
                want == styled_list(root@.children, styles@, anc2),
                want.len() == root.children@.len(),
                root@.children.len() == root.children@.len(),
                forall|j: int| 0 <= j < root.children@.len() ==> #[trigger] root@.children[j] == root.children@[j]@,
                forall|j: int| 0 <= j < root.children@.len() ==> #[trigger] want[j] == styled(root@.children[j], styles@, anc2),
                styled_views(kids@) == want.subrange(0, k as int),
            decreases root.children@.len() - k,
        {
            assert(decreases_to!(root => root.children@[k as int]));
            let c = real_style_tree(&root.children[k], styles, a2.as_slice());
            proof {
                lemma_styled_views_push(kids@, c);
            }
            kids.push(c);
            k = k + 1;
            assert(styled_views(kids@) =~= want.subrange(0, k as int));
        }
        assert(want.subrange(0, k as int) =~= want);
    }
    StyledNode { node: clone_node(root), children: kids, specified_values: specified }
}

/// The styled tree of a document.
#[derive(Debug)]
pub struct StyledTree {
    pub root: StyledNode,
}

/// A comment node with no values and no children: what a new tree starts
/// with.
pub open spec fn placeholder() -> StyledView {
    StyledView {
        node: NodeView { node_type: NodeTypeView::Comment("comment"@), children: Seq::empty() },
        values: PropPairs::empty(),
        children: Seq::empty(),
    }
}

impl StyledTree {
    /// A tree whose root is a placeholder.
    pub fn new() -> (r: StyledTree)
        ensures
            r.root@ == placeholder(),
    {
        StyledTree { root: self::StyledTree::make_placeholder() }
    }

    fn make_placeholder() -> (r: StyledNode)
        ensures
            r@ == placeholder(),
    {
        let r = StyledNode {
            node: crate::dom::model::Node { node_type: NodeType::Comment("comment".to_owned()), children: Vec::new() },
            children: Vec::new(),
            specified_values: PropertyMap::new(),
        };
        assert(crate::dom::model::node_views(r.node.children@) =~= Seq::<NodeView>::empty());
        assert(styled_views(r.children@) =~= Seq::<StyledView>::empty());
        r
    }

    /// A placeholder node.
    pub fn make(&self) -> (r: StyledNode)
        ensures
            r@ == placeholder(),
    {
        self::StyledTree::make_placeholder()
    }

    /// A styled node of the given node, values and children.
    pub fn make_with(&self, node: Node, specified_values: PropertyMap, children: Vec<StyledNode>) -> (r: StyledNode)
        ensures
            r@ == (StyledView { node: node@, values: specified_values@, children: styled_views(children@) }),
    {
        StyledNode { node, children, specified_values }
    }

    /// Makes `node` the root.
    pub fn set_root(&mut self, node: StyledNode)
        ensures
            final(self).root == node,
    {
        self.root = node;
    }

    /// Adds `child` after the children of `parent`.
    pub fn append(&self, parent: &mut StyledNode, child: StyledNode)
        ensures
            final(parent)@ == (StyledView {
                node: old(parent)@.node,
                values: old(parent)@.values,
                children: old(parent)@.children.push(child@),
            }),
    {
        proof {
            lemma_styled_views_push(parent.children@, child);
        }
        parent.children.push(child);
    }
}

/// Styles a document tree with a set of style sheets.
pub fn dom_tree_to_stylednodes(root: &Node, styles: &StylesheetSet) -> (r: StyledTree)
    ensures
        r.root@ == styled(root@, styles@, Seq::empty()),
{
    let ansc: Vec<(&Node, &PropertyMap)> = Vec::new();
    assert(ancestor_views(ansc@) =~= Seq::<AncestorView>::empty());
    StyledTree { root: real_style_tree(root, styles, ansc.as_slice()) }
}

} // verus!
