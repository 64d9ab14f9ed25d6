//! The box tree that layout starts from: one box for each styled node that
//! is displayed, with runs of inline children gathered in anonymous blocks.
use vstd::prelude::*;
use crate::dom::model::Document;
use crate::style::node::{Display, display_of};
use crate::style::tree::{StyledNode, StyledView, lemma_styled_views};

verus! {

/// The kind of a box.
#[derive(Clone, Copy, Debug, PartialEq, Eq, Structural)]
pub enum BoxKind {
    Block,
    Inline,
    InlineBlock,
    Anonymous,
    Table,
    TableRowGroup,
    TableRow,
    TableCell,
    ListItem,
}

/// A box: its kind, the styled node it comes from (for an anonymous block,
/// the node whose inline children it gathers) and its children.
#[derive(Debug)]
pub enum BoxType<'a> {
    BlockNode(&'a StyledNode),
    InlineNode(&'a StyledNode),
    InlineBlockNode(&'a StyledNode),
    AnonymousBlock(&'a StyledNode),
    TableNode(&'a StyledNode),
    TableRowGroupNode(&'a StyledNode),
    TableRowNode(&'a StyledNode),
    TableCellNode(&'a StyledNode),
    ListItemNode(&'a StyledNode),
}

#[derive(Debug)]
pub struct LayoutBox<'a> {
    pub box_type: BoxType<'a>,
    pub children: Vec<LayoutBox<'a>>,
}

pub struct BoxView {
    pub kind: BoxKind,
    pub node: StyledView,
    pub children: Seq<BoxView>,
}

pub open spec fn type_view(t: BoxType) -> (BoxKind, StyledView) {
    match t {
        BoxType::BlockNode(n) => (BoxKind::Block, n@),
        BoxType::InlineNode(n) => (BoxKind::Inline, n@),
        BoxType::InlineBlockNode(n) => (BoxKind::InlineBlock, n@),
        BoxType::AnonymousBlock(n) => (BoxKind::Anonymous, n@),
        BoxType::TableNode(n) => (BoxKind::Table, n@),
        BoxType::TableRowGroupNode(n) => (BoxKind::TableRowGroup, n@),
        BoxType::TableRowNode(n) => (BoxKind::TableRow, n@),
        BoxType::TableCellNode(n) => (BoxKind::TableCell, n@),
        BoxType::ListItemNode(n) => (BoxKind::ListItem, n@),
    }
}

pub open spec fn box_views(bs: Seq<LayoutBox>) -> Seq<BoxView>
    decreases bs,
{
    if bs.len() == 0 {
        Seq::empty()
    } else {
        seq![bs[0].view()] + box_views(bs.drop_first())
    }
}

impl<'a> View for LayoutBox<'a> {
    type V = BoxView;

    open spec fn view(&self) -> BoxView
        decreases self,
    {
        BoxView {
            kind: type_view(self.box_type).0,
            node: type_view(self.box_type).1,
            children: box_views(self.children@),
        }
    }
}

proof fn lemma_box_views(bs: Seq<LayoutBox>)
    ensures
        box_views(bs).len() == bs.len(),
        forall|k: int| 0 <= k < bs.len() ==> #[trigger] box_views(bs)[k] == bs[k]@,
    decreases bs.len(),
{
    if bs.len() > 0 {
        lemma_box_views(bs.drop_first());
        assert(box_views(bs) == seq![bs[0].view()] + box_views(bs.drop_first()));
        assert forall|k: int| 0 <= k < bs.len() implies #[trigger] box_views(bs)[k] == bs[k]@ by {
            if k > 0 {
                assert(bs.drop_first()[k - 1] == bs[k]);
            }
        }
    }
}

/// The kind of box a display kind makes (none for `display: none`).
pub open spec fn kind_of(d: Display) -> BoxKind {
    match d {
        Display::Block => BoxKind::Block,
        Display::Inline => BoxKind::Inline,
        Display::InlineBlock => BoxKind::InlineBlock,
        Display::ListItem => BoxKind::ListItem,
        Display::Table => BoxKind::Table,
        Display::TableRowGroup => BoxKind::TableRowGroup,
        Display::TableRow => BoxKind::TableRow,
        Display::TableCell => BoxKind::TableCell,
        Display::Hidden => BoxKind::Block,
    }
}

/// The box built for a styled node is of the kind that its display names:
/// a block box for `block`, an inline box for `inline`, a table-row box for
/// `table-row`, and so on for each display other than `none`. So nodes of
/// different displays get boxes of different kinds, and no node gets an
/// anonymous block of its own.
pub proof fn lemma_box_kind_follows_display(s: StyledView, t: StyledView)
    ensures
        display_of(s) == Display::Block ==> layout_tree(s).kind == BoxKind::Block,
        display_of(s) == Display::Inline ==> layout_tree(s).kind == BoxKind::Inline,
        display_of(s) == Display::InlineBlock ==> layout_tree(s).kind == BoxKind::InlineBlock,
        display_of(s) == Display::ListItem ==> layout_tree(s).kind == BoxKind::ListItem,
        display_of(s) == Display::Table ==> layout_tree(s).kind == BoxKind::Table,
        display_of(s) == Display::TableRowGroup ==> layout_tree(s).kind == BoxKind::TableRowGroup,
        display_of(s) == Display::TableRow ==> layout_tree(s).kind == BoxKind::TableRow,
        display_of(s) == Display::TableCell ==> layout_tree(s).kind == BoxKind::TableCell,
        layout_tree(s).kind != BoxKind::Anonymous,
        display_of(s) != Display::Hidden && display_of(t) != Display::Hidden && display_of(s) != display_of(t)
            ==> layout_tree(s).kind != layout_tree(t).kind,
{
}

/// A box of this kind holds inline boxes itself; the others gather them in
/// an anonymous block.
pub open spec fn holds_inline(k: BoxKind) -> bool {
    k == BoxKind::Inline || k == BoxKind::InlineBlock || k == BoxKind::Anonymous || k
        == BoxKind::TableCell
}

/// The children of a box of kind `kind` for `node` after one more child box
/// `b` of display `d` is placed among `acc`.
pub open spec fn place(kind: BoxKind, node: StyledView, acc: Seq<BoxView>, d: Display, b: BoxView) -> Seq<BoxView> {
    if d == Display::Hidden {
        acc
    } else if d == Display::Inline || d == Display::InlineBlock {
        if holds_inline(kind) {
            acc.push(b)
        } else if acc.len() > 0 && acc.last().kind == BoxKind::Anonymous {
            acc.update(
                acc.len() - 1,
                BoxView { kind: BoxKind::Anonymous, node: acc.last().node, children: acc.last().children.push(b) },
            )
        } else {
            acc.push(BoxView { kind: BoxKind::Anonymous, node, children: seq![b] })
        }
    } else {
        acc.push(b)
    }
}

/// The box tree of a styled node.
pub open spec fn layout_tree(s: StyledView) -> BoxView
    decreases s,
{
    let kind = kind_of(display_of(s));
    BoxView { kind, node: s, children: place_all(kind, s, s.children) }
}

/// The children of a box of kind `kind` for `node`, its styled children
/// placed one after another.
pub open spec fn place_all(kind: BoxKind, node: StyledView, cs: Seq<StyledView>) -> Seq<BoxView>
    decreases cs,
{
    if cs.len() == 0 {
        Seq::empty()
    } else {
        place(kind, node, place_all(kind, node, cs.drop_last()), display_of(cs.last()), layout_tree(cs.last()))
    }
}

impl<'a> LayoutBox<'a> {
    /// Places a child box of display `d`: a block-level one after the
    /// others, an inline one in this box or in its trailing anonymous block.
    fn place_child(&mut self, d: Display, b: LayoutBox<'a>)
        requires
            d != Display::Hidden,
        ensures
            final(self).box_type == old(self).box_type,
            final(self)@ == (BoxView {
                kind: old(self)@.kind,
                node: old(self)@.node,
                children: place(old(self)@.kind, old(self)@.node, old(self)@.children, d, b@),
            }),
    {
        let ghost before = self@;
        proof {
            lemma_box_views(self.children@);
        }
        let inline = match d {
            Display::Inline | Display::InlineBlock => true,
            _ => false,
        };
        if !inline {
            let ghost old_kids = self.children@;
            self.children.push(b);
            proof {
                lemma_box_views(self.children@);
            }
            assert(box_views(self.children@) =~= box_views(old_kids).push(b@));
            return;
        }
        let holds = match &self.box_type {
            BoxType::InlineNode(_) | BoxType::InlineBlockNode(_) | BoxType::AnonymousBlock(_) | BoxType::TableCellNode(_) => true,
            _ => false,
        };
        if holds {
            let ghost old_kids = self.children@;
            self.children.push(b);
            proof {
                lemma_box_views(self.children@);
            }
            assert(box_views(self.children@) =~= box_views(old_kids).push(b@));
            return;
        }
        let n = self.children.len();
        let last_anon = n > 0 && match &self.children[n - 1].box_type {
            BoxType::AnonymousBlock(_) => true,
            _ => false,
        };
        let ghost old_kids = self.children@;
        if last_anon {
            let mut last = self.children.pop().unwrap();
            assert(last == old_kids[n - 1]);
            proof {
                lemma_box_views(last.children@);
            }
            let ghost last_kids = last.children@;
            last.children.push(b);
            proof {
                lemma_box_views(last.children@);
            }
            assert(box_views(last.children@) =~= box_views(last_kids).push(b@));
            self.children.push(last);
            proof {
                lemma_box_views(self.children@);
            }
            assert(box_views(self.children@) =~= box_views(old_kids).update(n - 1, last@));
        } else {
            let node = match &self.box_type {
                BoxType::BlockNode(x) => *x,
                BoxType::InlineNode(x) => *x,
                BoxType::InlineBlockNode(x) => *x,
                BoxType::AnonymousBlock(x) => *x,
                BoxType::TableNode(x) => *x,
                BoxType::TableRowGroupNode(x) => *x,
                BoxType::TableRowNode(x) => *x,
                BoxType::TableCellNode(x) => *x,
                BoxType::ListItemNode(x) => *x,
            };
            let mut kids: Vec<LayoutBox<'a>> = Vec::new();
            kids.push(b);
            let anon = LayoutBox { box_type: BoxType::AnonymousBlock(node), children: kids };
            proof {
                lemma_box_views(anon.children@);
            }
            assert(anon@.children =~= seq![b@]);
            self.children.push(anon);
            proof {
                lemma_box_views(self.children@);
            }
            assert(box_views(self.children@) =~= box_views(old_kids).push(anon@));
        }
    }
}

/// The box tree of a styled node whose display is not `none`: a box of the
/// kind its display asks for, with its children's boxes placed in order.
pub fn build_layout_tree<'a>(style_node: &'a StyledNode, doc: &Document) -> (r: LayoutBox<'a>)
    requires
        display_of(style_node@) != Display::Hidden,
    ensures
        r@ == layout_tree(style_node@),
    decreases style_node,
{
    let bt = match style_node.display() {
        Display::Block => BoxType::BlockNode(style_node),
        Display::Inline => BoxType::InlineNode(style_node),
        Display::InlineBlock => BoxType::InlineBlockNode(style_node),
        Display::ListItem => BoxType::ListItemNode(style_node),
        Display::Table => BoxType::TableNode(style_node),
        Display::TableRowGroup => BoxType::TableRowGroupNode(style_node),
        Display::TableRow => BoxType::TableRowNode(style_node),
        Display::TableCell => BoxType::TableCellNode(style_node),
        Display::Hidden => BoxType::BlockNode(style_node),
    };
    let mut root = LayoutBox { box_type: bt, children: Vec::new() };
    let ghost kind = kind_of(display_of(style_node@));
    let ghost cs = style_node@.children;
    proof {
        lemma_styled_views(style_node.children@);
    }
    assert(box_views(root.children@) =~= Seq::<BoxView>::empty());
    assert(cs.subrange(0, 0) =~= Seq::<StyledView>::empty());
    let mut k: usize = 0;
    while k < style_node.children.len()
        invariant
            k <= style_node.children@.len(),
            cs == style_node@.children,
            cs.len() == style_node.children@.len(),
            forall|j: int| 0 <= j < cs.len() ==> #[trigger] cs[j] == style_node.children@[j]@,
            kind == kind_of(display_of(style_node@)),
            root@.kind == kind,
            root@.node == style_node@,
            root@.children == place_all(kind, style_node@, cs.subrange(0, k as int)),
        decreases style_node.children@.len() - k,
    {
        let child = &style_node.children[k];
        let ghost pre = cs.subrange(0, k + 1);
        assert(pre.drop_last() =~= cs.subrange(0, k as int));
        assert(pre.last() == child@);
        let d = child.display();
        if d != Display::Hidden {
            assert(decreases_to!(style_node => style_node.children@[k as int]));
            let b = build_layout_tree(child, doc);
            root.place_child(d, b);
        }
        k = k + 1;
    }
    assert(cs.subrange(0, k as int) =~= cs);
    root
}


pub open spec fn is_inline_kind(k: BoxKind) -> bool {
    k == BoxKind::Inline || k == BoxKind::InlineBlock
}

/// Inline boxes sit only in boxes that hold them: a box of another kind has
/// no inline child, and an anonymous block has nothing but inline children;
/// and so on down the tree.
pub open spec fn well_placed(b: BoxView) -> bool
    decreases b,
{
    children_placed(b.kind, b.children)
}

pub open spec fn children_placed(kind: BoxKind, cs: Seq<BoxView>) -> bool
    decreases cs,
{
    cs.len() > 0 ==> {
        &&& (!holds_inline(kind) ==> !is_inline_kind(cs[0].kind))
        &&& (kind == BoxKind::Anonymous ==> is_inline_kind(cs[0].kind))
        &&& well_placed(cs[0])
        &&& children_placed(kind, cs.drop_first())
    }
}

proof fn lemma_children_placed_index(kind: BoxKind, cs: Seq<BoxView>)
    ensures
        children_placed(kind, cs) <==> forall|k: int| 0 <= k < cs.len() ==> {
            &&& (!holds_inline(kind) ==> !is_inline_kind((#[trigger] cs[k]).kind))
            &&& (kind == BoxKind::Anonymous ==> is_inline_kind(cs[k].kind))
            &&& well_placed(cs[k])
        },
    decreases cs.len(),
{
    if cs.len() > 0 {
        lemma_children_placed_index(kind, cs.drop_first());
        assert forall|k: int| 0 < k < cs.len() implies #[trigger] cs[k] == cs.drop_first()[k - 1] by {}
    }
}

/// The box tree of any styled node has its inline boxes only where they
/// may sit.
pub proof fn lemma_layout_well_placed(s: StyledView)
    ensures
        well_placed(layout_tree(s)),
    decreases s,
{
    lemma_place_all(kind_of(display_of(s)), s, s.children);
}

proof fn lemma_place_all(kind: BoxKind, node: StyledView, cs: Seq<StyledView>)
    requires
        kind != BoxKind::Anonymous,
    ensures
        children_placed(kind, place_all(kind, node, cs)),
    decreases cs,
{
    if cs.len() > 0 {
        lemma_place_all(kind, node, cs.drop_last());
        let acc = place_all(kind, node, cs.drop_last());
        let c = cs.last();
        let d = display_of(c);
        let b = layout_tree(c);
        assert(decreases_to!(cs => cs[cs.len() - 1]));
        lemma_layout_well_placed(c);
        assert(b.kind == kind_of(d));
        lemma_children_placed_index(kind, acc);
        let r = place(kind, node, acc, d, b);
        lemma_children_placed_index(kind, r);
        if d != Display::Hidden && (d == Display::Inline || d == Display::InlineBlock) && !holds_inline(kind)
            && acc.len() > 0 && acc.last().kind == BoxKind::Anonymous {
            let l = acc.last();
            lemma_children_placed_index(BoxKind::Anonymous, l.children);
            lemma_children_placed_index(BoxKind::Anonymous, l.children.push(b));
            assert(well_placed(l));
            let nl = BoxView { kind: BoxKind::Anonymous, node: l.node, children: l.children.push(b) };
            assert(well_placed(nl));
            assert forall|k: int| 0 <= k < r.len() implies {
                &&& (!holds_inline(kind) ==> !is_inline_kind((#[trigger] r[k]).kind))
                &&& (kind == BoxKind::Anonymous ==> is_inline_kind(r[k].kind))
                &&& well_placed(r[k])
            } by {
                if k < acc.len() - 1 {
                    assert(r[k] == acc[k]);
                } else {
                    assert(r[k] == nl);
                }
            }
        } else if d != Display::Hidden && (d == Display::Inline || d == Display::InlineBlock) && !holds_inline(kind) {
            let nb = BoxView { kind: BoxKind::Anonymous, node, children: seq![b] };
            lemma_children_placed_index(BoxKind::Anonymous, seq![b]);
            assert(well_placed(nb));
            assert forall|k: int| 0 <= k < r.len() implies {
                &&& (!holds_inline(kind) ==> !is_inline_kind((#[trigger] r[k]).kind))
                &&& (kind == BoxKind::Anonymous ==> is_inline_kind(r[k].kind))
                &&& well_placed(r[k])
            } by {
                if k < acc.len() {
                    assert(r[k] == acc[k]);
                } else {
                    assert(r[k] == nb);
                }
            }
        } else if d != Display::Hidden {
            assert forall|k: int| 0 <= k < r.len() implies {
                &&& (!holds_inline(kind) ==> !is_inline_kind((#[trigger] r[k]).kind))
                &&& (kind == BoxKind::Anonymous ==> is_inline_kind(r[k].kind))
                &&& well_placed(r[k])
            } by {
                if k < acc.len() {
                    assert(r[k] == acc[k]);
                } else {
                    assert(r[k] == b);
                }
            }
        }
    }
}

} // verus!
