//! The HTML reader: from bytes to a document tree.
//!
//! As in the style sheet reader, each reader comes as a spec function
//! `sp_*` and an executable function proved to compute it.
use vstd::prelude::*;
use crate::text::{
    Outcome, SOutcome, ByteClass, span, lemma_span, scan, byte_is, byte_eq, lit_at, match_lit,
    copy_range, text_of, bytes_to_text, ascii_chars, ascii_text, lemma_run_ascii, find_lit,
    scan_to_lit, lower_byte, to_lower_byte, class_contains,
};
use crate::dom::model::{
    AttrMap, AttrPairs, Node, NodeType, NodeView, NodeTypeView, ElementData, MetaData, Document, DocumentView,
    node_views, lemma_node_views_push,
};
use crate::css::lexical::{sp_space, space};
use crate::css::values::{prefixed, lemma_prefixed_push};

verus! {

// ---------------------------------------------------------------- names
/// A non-empty run of letters and digits.
pub open spec fn sp_alnum_name(s: Seq<u8>, i: int) -> SOutcome<Seq<char>> {
    let e = span(s, i, ByteClass::AlphaNum);
    if e > i {
        SOutcome::Done(ascii_chars(s.subrange(i, e)), e)
    } else {
        SOutcome::NoMatch
    }
}

fn ascii_run(s: &[u8], i: usize, e: usize, c: ByteClass) -> (r: String)
    requires
        i <= e <= s@.len(),
        e == span(s@, i as int, c),
        c == ByteClass::AlphaNum || c == ByteClass::Alpha,
    ensures
        r@ == ascii_chars(s@.subrange(i as int, e as int)),
{
    proof {
        lemma_span(s@, i as int, c);
        lemma_run_ascii(s@, i as int, e as int, c);
    }
    ascii_text(copy_range(s, i, e))
}

/// Reads what [`sp_alnum_name`] describes, at `i`.
pub fn alnum_name(s: &[u8], i: usize) -> (r: Outcome<String>)
    requires
        i <= s@.len(),
    ensures
        r@ == sp_alnum_name(s@, i as int),
        r.within(i as int, s@.len() as int),
{
    let e = scan(s, i, ByteClass::AlphaNum);
    if e > i {
        Outcome::Done(ascii_run(s, i, e, ByteClass::AlphaNum), e)
    } else {
        Outcome::NoMatch
    }
}

// ---------------------------------------------------------------- attributes
/// White space, letters, `=`, white space, `"`, anything but `"` (which must
/// be valid UTF-8), `"`.
pub open spec fn sp_attribute(s: Seq<u8>, i: int) -> SOutcome<(Seq<char>, Seq<char>)> {
    let p0 = sp_space(s, i);
    let e = span(s, p0, ByteClass::Alpha);
    if e > p0 && byte_is(s, e, 61) {
        let p1 = sp_space(s, e + 1);
        if byte_is(s, p1, 34) {
            let ve = span(s, p1 + 1, ByteClass::NotDoubleQuote);
            match text_of(s.subrange(p1 + 1, ve)) {
                Some(v) => if byte_is(s, ve, 34) {
                    SOutcome::Done((ascii_chars(s.subrange(p0, e)), v), ve + 1)
                } else {
                    SOutcome::NoMatch
                },
                None => SOutcome::NoMatch,
            }
        } else {
            SOutcome::NoMatch
        }
    } else {
        SOutcome::NoMatch
    }
}

/// White space and letters: an attribute whose value is its own name.
pub open spec fn sp_standalone_attribute(s: Seq<u8>, i: int) -> SOutcome<(Seq<char>, Seq<char>)> {
    let p0 = sp_space(s, i);
    let e = span(s, p0, ByteClass::Alpha);
    if e > p0 {
        SOutcome::Done((ascii_chars(s.subrange(p0, e)), ascii_chars(s.subrange(p0, e))), e)
    } else {
        SOutcome::NoMatch
    }
}

pub open spec fn sp_attribute_item(s: Seq<u8>, i: int) -> SOutcome<(Seq<char>, Seq<char>)> {
    sp_attribute(s, i).or(sp_standalone_attribute(s, i))
}

/// Reads what [`sp_attribute_item`] describes, at `i`.
pub fn attribute_item(s: &[u8], i: usize) -> (r: Option<(String, String, usize)>)
    requires
        i <= s@.len(),
    ensures
        match r {
            Some((k, v, p)) => sp_attribute_item(s@, i as int) == SOutcome::Done((k@, v@), p as int)
                && i < p <= s@.len(),
            None => sp_attribute_item(s@, i as int) is NoMatch,
        },
{
    let n = s.len();
    let p0 = space(s, i);
    let e = scan(s, p0, ByteClass::Alpha);
    if e == p0 {
        return None;
    }
    if byte_eq(s, e, 61) {
        let p1 = space(s, e + 1);
        if byte_eq(s, p1, 34) {
            let ve = scan(s, p1 + 1, ByteClass::NotDoubleQuote);
            match bytes_to_text(copy_range(s, p1 + 1, ve)) {
                Some(v) => if byte_eq(s, ve, 34) {
                    let k = ascii_run(s, p0, e, ByteClass::Alpha);
                    return Some((k, v, ve + 1));
                },
                None => {},
            }
        }
    }
    let k1 = ascii_run(s, p0, e, ByteClass::Alpha);
    let k2 = ascii_run(s, p0, e, ByteClass::Alpha);
    Some((k1, k2, e))
}

/// Attributes, one after another, as long as one follows; this always
/// matches.
#[verifier::opaque]
pub open spec fn sp_attributes(s: Seq<u8>, p: int) -> (AttrPairs, int)
    decreases s.len() - p,
{
    match sp_attribute_item(s, p) {
        SOutcome::Done(a, q) => if p < q <= s.len() {
            let rest = sp_attributes(s, q);
            (seq![a] + rest.0, rest.1)
        } else {
            (Seq::empty(), p)
        },
        _ => (Seq::empty(), p),
    }
}

/// Reads what [`sp_attributes`] describes, at `i`.
pub fn attributes(s: &[u8], i: usize) -> (r: (AttrMap, usize))
    requires
        i <= s@.len(),
    ensures
        sp_attributes(s@, i as int) == (r.0@, r.1 as int),
        i <= r.1 <= s@.len(),
{
    reveal_with_fuel(sp_attributes, 2);
    let n = s.len();
    let mut map = AttrMap::new();
    let mut p = i;
    assert(map@ + sp_attributes(s@, i as int).0 =~= sp_attributes(s@, i as int).0);
    loop
        invariant
            n == s@.len(),
            i <= p <= n,
            sp_attributes(s@, i as int) == (map@ + sp_attributes(s@, p as int).0, sp_attributes(s@, p as int).1),
        decreases n - p,
    {
        reveal_with_fuel(sp_attributes, 2);
        match attribute_item(s, p) {
            Some((k, v, q)) => {
                let ghost old_map = map@;
                let ghost rest = sp_attributes(s@, q as int);
                assert(old_map + (seq![(k@, v@)] + rest.0) =~= old_map.push((k@, v@)) + rest.0);
                map.insert(k, v);
                p = q;
            },
            None => {
                assert(map@ + Seq::<(Seq<char>, Seq<char>)>::empty() =~= map@);
                return (map, p);
            },
        }
    }
}

// ---------------------------------------------------------------- tags
/// White space, `<`, a name, attributes, white space, `>`.
pub open spec fn sp_open_element(s: Seq<u8>, i: int) -> SOutcome<(Seq<char>, AttrPairs)> {
    let p0 = sp_space(s, i);
    if byte_is(s, p0, 60) {
        match sp_alnum_name(s, p0 + 1) {
            SOutcome::Done(name, p1) => {
                let (atts, p2) = sp_attributes(s, p1);
                let p3 = sp_space(s, p2);
                if byte_is(s, p3, 62) {
                    SOutcome::Done((name, atts), p3 + 1)
                } else {
                    SOutcome::NoMatch
                }
            },
            _ => SOutcome::NoMatch,
        }
    } else {
        SOutcome::NoMatch
    }
}

/// Reads what [`sp_open_element`] describes, at `i`.
pub fn open_element(s: &[u8], i: usize) -> (r: Option<(String, AttrMap, usize)>)
    requires
        i <= s@.len(),
    ensures
        match r {
            Some((name, atts, p)) => sp_open_element(s@, i as int) == SOutcome::Done(
                (name@, atts@),
                p as int,
            ) && i < p <= s@.len(),
            None => sp_open_element(s@, i as int) is NoMatch,
        },
{
    let n = s.len();
    let p0 = space(s, i);
    if !byte_eq(s, p0, 60) {
        return None;
    }
    match alnum_name(s, p0 + 1) {
        Outcome::Done(name, p1) => {
            let (atts, p2) = attributes(s, p1);
            let p3 = space(s, p2);
            if byte_eq(s, p3, 62) {
                Some((name, atts, p3 + 1))
            } else {
                None
            }
        },
        _ => None,
    }
}

/// White space, `</`, a name, `>`.
pub open spec fn sp_close_element(s: Seq<u8>, i: int) -> SOutcome<Seq<char>> {
    let p0 = sp_space(s, i);
    if byte_is(s, p0, 60) && byte_is(s, p0 + 1, 47) {
        match sp_alnum_name(s, p0 + 2) {
            SOutcome::Done(name, p1) => if byte_is(s, p1, 62) {
                SOutcome::Done(name, p1 + 1)
            } else {
                SOutcome::NoMatch
            },
            _ => SOutcome::NoMatch,
        }
    } else {
        SOutcome::NoMatch
    }
}

/// Reads what [`sp_close_element`] describes, at `i`.
pub fn close_element(s: &[u8], i: usize) -> (r: Outcome<String>)
    requires
        i <= s@.len(),
    ensures
        r@ == sp_close_element(s@, i as int),
        r.within(i as int, s@.len() as int),
{
    let n = s.len();
    let p0 = space(s, i);
    if !(byte_eq(s, p0, 60) && byte_eq(s, p0 + 1, 47)) {
        return Outcome::NoMatch;
    }
    match alnum_name(s, p0 + 2) {
        Outcome::Done(name, p1) => if byte_eq(s, p1, 62) {
            Outcome::Done(name, p1 + 1)
        } else {
            Outcome::NoMatch
        },
        _ => Outcome::NoMatch,
    }
}

/// `img`, `link`, `input` or `hr`.
pub open spec fn sp_standalone_tag(s: Seq<u8>, i: int) -> SOutcome<Seq<char>> {
    if lit_at(s, i, seq![105u8, 109, 103]) {
        SOutcome::Done(seq!['i', 'm', 'g'], i + 3)
    } else if lit_at(s, i, seq![108u8, 105, 110, 107]) {
        SOutcome::Done(seq!['l', 'i', 'n', 'k'], i + 4)
    } else if lit_at(s, i, seq![105u8, 110, 112, 117, 116]) {
        SOutcome::Done(seq!['i', 'n', 'p', 'u', 't'], i + 5)
    } else if lit_at(s, i, seq![104u8, 114]) {
        SOutcome::Done(seq!['h', 'r'], i + 2)
    } else {
        SOutcome::NoMatch
    }
}

/// Reads what [`sp_standalone_tag`] describes, at `i`.
pub fn standalone_tag(s: &[u8], i: usize) -> (r: Outcome<String>)
    requires
        i <= s@.len(),
    ensures
        r@ == sp_standalone_tag(s@, i as int),
        r.within(i as int, s@.len() as int),
{
    let n = s.len();
    if match_lit(s, i, &[105u8, 109, 103]) {
        let v: Vec<u8> = vec![105u8, 109, 103];
        assert(ascii_chars(v@) =~= seq!['i', 'm', 'g']);
        Outcome::Done(ascii_text(v), i + 3)
    } else if match_lit(s, i, &[108u8, 105, 110, 107]) {
        let v: Vec<u8> = vec![108u8, 105, 110, 107];
        assert(ascii_chars(v@) =~= seq!['l', 'i', 'n', 'k']);
        Outcome::Done(ascii_text(v), i + 4)
    } else if match_lit(s, i, &[105u8, 110, 112, 117, 116]) {
        let v: Vec<u8> = vec![105u8, 110, 112, 117, 116];
        assert(ascii_chars(v@) =~= seq!['i', 'n', 'p', 'u', 't']);
        Outcome::Done(ascii_text(v), i + 5)
    } else if match_lit(s, i, &[104u8, 114]) {
        let v: Vec<u8> = vec![104u8, 114];
        assert(ascii_chars(v@) =~= seq!['h', 'r']);
        Outcome::Done(ascii_text(v), i + 2)
    } else {
        Outcome::NoMatch
    }
}

pub open spec fn element_view(name: Seq<char>, atts: AttrPairs, children: Seq<NodeView>) -> NodeView {
    NodeView { node_type: NodeTypeView::Element(name, atts), children }
}

pub open spec fn leaf(t: NodeTypeView) -> NodeView {
    NodeView { node_type: t, children: Seq::empty() }
}

fn make_leaf(t: NodeType) -> (r: Node)
    ensures
        r@ == leaf(t@),
{
    let r = Node { node_type: t, children: Vec::new() };
    assert(node_views(r.children@) =~= Seq::<NodeView>::empty());
    r
}

/// White space, `<`, a void tag, attributes, white space, `/>`.
pub open spec fn sp_selfclosed_element(s: Seq<u8>, i: int) -> SOutcome<NodeView> {
    let p0 = sp_space(s, i);
    if byte_is(s, p0, 60) {
        match sp_standalone_tag(s, p0 + 1) {
            SOutcome::Done(t, p1) => {
                let (a, p2) = sp_attributes(s, p1);
                let p3 = sp_space(s, p2);
                if lit_at(s, p3, seq![47u8, 62]) {
                    SOutcome::Done(leaf(NodeTypeView::Element(t, a)), p3 + 2)
                } else {
                    SOutcome::NoMatch
                }
            },
            _ => SOutcome::NoMatch,
        }
    } else {
        SOutcome::NoMatch
    }
}

/// Reads what [`sp_selfclosed_element`] describes, at `i`.
pub fn selfclosed_element(s: &[u8], i: usize) -> (r: Outcome<Node>)
    requires
        i <= s@.len(),
    ensures
        r@ == sp_selfclosed_element(s@, i as int),
        r.within(i as int, s@.len() as int),
{
    let n = s.len();
    let p0 = space(s, i);
    if !byte_eq(s, p0, 60) {
        return Outcome::NoMatch;
    }
    match standalone_tag(s, p0 + 1) {
        Outcome::Done(t, p1) => {
            let (a, p2) = attributes(s, p1);
            let p3 = space(s, p2);
            if match_lit(s, p3, &[47u8, 62]) {
                Outcome::Done(make_leaf(NodeType::Element(ElementData { tag_name: t, attributes: a })), p3 + 2)
            } else {
                Outcome::NoMatch
            }
        },
        _ => Outcome::NoMatch,
    }
}

/// White space, `<`, a void tag, attributes, `>`.
pub open spec fn sp_standalone_element(s: Seq<u8>, i: int) -> SOutcome<NodeView> {
    let p0 = sp_space(s, i);
    if byte_is(s, p0, 60) {
        match sp_standalone_tag(s, p0 + 1) {
            SOutcome::Done(t, p1) => {
                let (a, p2) = sp_attributes(s, p1);
                if byte_is(s, p2, 62) {
                    SOutcome::Done(leaf(NodeTypeView::Element(t, a)), p2 + 1)
                } else {
                    SOutcome::NoMatch
                }
            },
            _ => SOutcome::NoMatch,
        }
    } else {
        SOutcome::NoMatch
    }
}

/// Reads what [`sp_standalone_element`] describes, at `i`.
pub fn standalone_element(s: &[u8], i: usize) -> (r: Outcome<Node>)
    requires
        i <= s@.len(),
    ensures
        r@ == sp_standalone_element(s@, i as int),
        r.within(i as int, s@.len() as int),
{
    let n = s.len();
    let p0 = space(s, i);
    if !byte_eq(s, p0, 60) {
        return Outcome::NoMatch;
    }
    match standalone_tag(s, p0 + 1) {
        Outcome::Done(t, p1) => {
            let (a, p2) = attributes(s, p1);
            if byte_eq(s, p2, 62) {
                Outcome::Done(make_leaf(NodeType::Element(ElementData { tag_name: t, attributes: a })), p2 + 1)
            } else {
                Outcome::NoMatch
            }
        },
        _ => Outcome::NoMatch,
    }
}

/// `<meta `, attributes, then `>` or `/>`.
pub open spec fn sp_meta_tag(s: Seq<u8>, i: int) -> SOutcome<NodeView> {
    if lit_at(s, i, seq![60u8, 109, 101, 116, 97, 32]) {
        let (a, p1) = sp_attributes(s, i + 6);
        if byte_is(s, p1, 62) {
            SOutcome::Done(leaf(NodeTypeView::Meta(a)), p1 + 1)
        } else if lit_at(s, p1, seq![47u8, 62]) {
            SOutcome::Done(leaf(NodeTypeView::Meta(a)), p1 + 2)
        } else {
            SOutcome::NoMatch
        }
    } else {
        SOutcome::NoMatch
    }
}

/// Reads what [`sp_meta_tag`] describes, at `i`.
pub fn meta_tag(s: &[u8], i: usize) -> (r: Outcome<Node>)
    requires
        i <= s@.len(),
    ensures
        r@ == sp_meta_tag(s@, i as int),
        r.within(i as int, s@.len() as int),
{
    let n = s.len();
    if !match_lit(s, i, &[60u8, 109, 101, 116, 97, 32]) {
        return Outcome::NoMatch;
    }
    let (a, p1) = attributes(s, i + 6);
    if byte_eq(s, p1, 62) {
        Outcome::Done(make_leaf(NodeType::Meta(MetaData { attributes: a })), p1 + 1)
    } else if match_lit(s, p1, &[47u8, 62]) {
        Outcome::Done(make_leaf(NodeType::Meta(MetaData { attributes: a })), p1 + 2)
    } else {
        Outcome::NoMatch
    }
}

// ---------------------------------------------------------------- text, comments, CDATA
/// A non-empty run of bytes other than `<`; bytes that are not valid UTF-8
/// abort.
pub open spec fn sp_text_content(s: Seq<u8>, i: int) -> SOutcome<NodeView> {
    let e = span(s, i, ByteClass::NotLt);
    if e > i {
        match text_of(s.subrange(i, e)) {
            Some(t) => SOutcome::Done(leaf(NodeTypeView::Text(t)), e),
            None => SOutcome::Abort,
        }
    } else {
        SOutcome::NoMatch
    }
}

/// Reads what [`sp_text_content`] describes, at `i`.
pub fn text_content(s: &[u8], i: usize) -> (r: Outcome<Node>)
    requires
        i <= s@.len(),
    ensures
        r@ == sp_text_content(s@, i as int),
        r.within(i as int, s@.len() as int),
{
    let e = scan(s, i, ByteClass::NotLt);
    if e > i {
        match bytes_to_text(copy_range(s, i, e)) {
            Some(t) => Outcome::Done(make_leaf(NodeType::Text(t)), e),
            None => Outcome::Abort,
        }
    } else {
        Outcome::NoMatch
    }
}

/// `open`, everything up to the first `close`, and `close`; the text
/// between them, which must be valid UTF-8 (else reading aborts).
pub open spec fn sp_delimited(s: Seq<u8>, i: int, open: Seq<u8>, close: Seq<u8>) -> SOutcome<Seq<char>> {
    if lit_at(s, i, open) {
        let e = find_lit(s, i + open.len(), close);
        if lit_at(s, e, close) {
            match text_of(s.subrange(i + open.len(), e)) {
                Some(t) => SOutcome::Done(t, e + close.len()),
                None => SOutcome::Abort,
            }
        } else {
            SOutcome::NoMatch
        }
    } else {
        SOutcome::NoMatch
    }
}

fn delimited(s: &[u8], i: usize, open: &[u8], close: &[u8]) -> (r: Outcome<String>)
    requires
        i <= s@.len(),
    ensures
        r@ == sp_delimited(s@, i as int, open@, close@),
        r.within(i as int, s@.len() as int),
{
    let n = s.len();
    if !match_lit(s, i, open) {
        return Outcome::NoMatch;
    }
    let e = scan_to_lit(s, i + open.len(), close);
    if !match_lit(s, e, close) {
        return Outcome::NoMatch;
    }
    match bytes_to_text(copy_range(s, i + open.len(), e)) {
        Some(t) => Outcome::Done(t, e + close.len()),
        None => Outcome::Abort,
    }
}

pub open spec fn cdata_open() -> Seq<u8> {
    seq![60u8, 33, 91, 67, 68, 65, 84, 65, 91]
}

pub open spec fn cdata_close() -> Seq<u8> {
    seq![93u8, 93, 62]
}

pub open spec fn comment_open() -> Seq<u8> {
    seq![60u8, 33, 45, 45]
}

pub open spec fn comment_close() -> Seq<u8> {
    seq![45u8, 45, 62]
}

/// `<![CDATA[` .. `]]>`.
pub open spec fn sp_cdata(s: Seq<u8>, i: int) -> SOutcome<NodeView> {
    sp_delimited(s, i, cdata_open(), cdata_close()).map(|t: Seq<char>| leaf(NodeTypeView::Cdata(t)))
}

/// `<!--` .. `-->`.
pub open spec fn sp_comment(s: Seq<u8>, i: int) -> SOutcome<NodeView> {
    sp_delimited(s, i, comment_open(), comment_close()).map(
        |t: Seq<char>| leaf(NodeTypeView::Comment(t)),
    )
}

/// Reads what [`sp_cdata`] describes, at `i`.
pub fn cdata(s: &[u8], i: usize) -> (r: Outcome<Node>)
    requires
        i <= s@.len(),
    ensures
        r@ == sp_cdata(s@, i as int),
        r.within(i as int, s@.len() as int),
{
    let open: [u8; 9] = [60u8, 33, 91, 67, 68, 65, 84, 65, 91];
    let close: [u8; 3] = [93u8, 93, 62];
    assert(open@ =~= cdata_open());
    assert(close@ =~= cdata_close());
    match delimited(s, i, &open, &close) {
        Outcome::Done(t, p) => Outcome::Done(make_leaf(NodeType::Cdata(t)), p),
        Outcome::NoMatch => Outcome::NoMatch,
        Outcome::Abort => Outcome::Abort,
    }
}

/// Reads what [`sp_comment`] describes, at `i`.
pub fn comment(s: &[u8], i: usize) -> (r: Outcome<Node>)
    requires
        i <= s@.len(),
    ensures
        r@ == sp_comment(s@, i as int),
        r.within(i as int, s@.len() as int),
{
    let open: [u8; 4] = [60u8, 33, 45, 45];
    let close: [u8; 3] = [45u8, 45, 62];
    assert(open@ =~= comment_open());
    assert(close@ =~= comment_close());
    match delimited(s, i, &open, &close) {
        Outcome::Done(t, p) => Outcome::Done(make_leaf(NodeType::Comment(t)), p),
        Outcome::NoMatch => Outcome::NoMatch,
        Outcome::Abort => Outcome::Abort,
    }
}


// ---------------------------------------------------------------- elements
/// One child of an element: CDATA, a comment, a `<meta>` tag, text, a void
/// element closed by `/>`, a void element, or an element, tried in this
/// order.
pub open spec fn sp_element_child(s: Seq<u8>, p: int) -> SOutcome<NodeView>
    decreases s.len() - p, 1int,
{
    sp_cdata(s, p).or(sp_comment(s, p)).or(sp_meta_tag(s, p)).or(sp_text_content(s, p)).or(
        sp_selfclosed_element(s, p),
    ).or(sp_standalone_element(s, p)).or(sp_element(s, p))
}

/// Children, one after another, as long as one follows.
pub open spec fn sp_children(s: Seq<u8>, p: int) -> SOutcome<Seq<NodeView>>
    decreases s.len() - p, 2int,
{
    match sp_element_child(s, p) {
        SOutcome::Done(n, q) => if p < q <= s.len() {
            prefixed(seq![n], sp_children(s, q))
        } else {
            SOutcome::Done(Seq::empty(), p)
        },
        SOutcome::NoMatch => SOutcome::Done(Seq::empty(), p),
        SOutcome::Abort => SOutcome::Abort,
    }
}

/// An opening tag, white space, children, white space and a closing tag
/// (whose name is not compared with the opening one).
pub open spec fn sp_element(s: Seq<u8>, i: int) -> SOutcome<NodeView>
    decreases s.len() - i, 0int,
{
    match sp_open_element(s, i) {
        SOutcome::Done(tag, p1) => {
            let p2 = sp_space(s, p1);
            if i < p2 <= s.len() {
                match sp_children(s, p2) {
                    SOutcome::Done(kids, p3) => match sp_close_element(s, sp_space(s, p3)) {
                        SOutcome::Done(_, p4) => SOutcome::Done(element_view(tag.0, tag.1, kids), p4),
                        _ => SOutcome::NoMatch,
                    },
                    SOutcome::NoMatch => SOutcome::NoMatch,
                    SOutcome::Abort => SOutcome::Abort,
                }
            } else {
                SOutcome::NoMatch
            }
        },
        _ => SOutcome::NoMatch,
    }
}

/// `t` is a void tag (`img`, `link`, `input` or `hr`) and `name` its text.
pub open spec fn void_tag(t: Seq<u8>, name: Seq<char>) -> bool {
    ||| t == seq![105u8, 109, 103] && name == seq!['i', 'm', 'g']
    ||| t == seq![108u8, 105, 110, 107] && name == seq!['l', 'i', 'n', 'k']
    ||| t == seq![105u8, 110, 112, 117, 116] && name == seq!['i', 'n', 'p', 'u', 't']
    ||| t == seq![104u8, 114] && name == seq!['h', 'r']
}

proof fn lemma_lit_bytes(s: Seq<u8>, i: int, t: Seq<u8>)
    requires
        lit_at(s, i, t),
    ensures
        forall|k: int| 0 <= k < t.len() ==> s[i + k] == #[trigger] t[k],
{
    assert forall|k: int| 0 <= k < t.len() implies s[i + k] == #[trigger] t[k] by {
        assert(s.subrange(i, i + t.len())[k] == s[i + k]);
    }
}

/// The byte at `i + j` rules out a literal whose byte `j` differs from it.
proof fn lemma_not_lit(s: Seq<u8>, i: int, t: Seq<u8>, j: int)
    requires
        0 <= j < t.len(),
        0 <= i + j < s.len(),
        s[i + j] != t[j],
    ensures
        !lit_at(s, i, t),
{
    if lit_at(s, i, t) {
        lemma_lit_bytes(s, i, t);
    }
}

/// A void element written `<t>` (for `t` one of `img`, `link`, `input`,
/// `hr`) is read as a child element named `t` with no attributes and no
/// children, ending right after its `>`: what follows it is read as its
/// next siblings, not as its children.
pub proof fn lemma_void_element_is_leaf(s: Seq<u8>, i: int, t: Seq<u8>, name: Seq<char>)
    requires
        void_tag(t, name),
        lit_at(s, i, seq![60u8] + t + seq![62u8]),
    ensures
        sp_element_child(s, i) == SOutcome::Done(
            leaf(NodeTypeView::Element(name, Seq::empty())),
            i + t.len() + 2,
        ),
        sp_children(s, i) == prefixed(
            seq![leaf(NodeTypeView::Element(name, Seq::empty()))],
            sp_children(s, i + t.len() + 2),
        ),
{
    let pat = seq![60u8] + t + seq![62u8];
    lemma_lit_bytes(s, i, pat);
    let p = i + 1 + t.len();
    assert(pat[0] == 60u8);
    assert(s[i] == 60u8);
    assert(pat[p - i] == 62u8);
    assert(s[p] == 62u8);
    assert forall|k: int| 0 <= k < t.len() implies s[i + 1 + k] == #[trigger] t[k] by {
        assert(pat[1 + k] == t[k]);
    }
    let c = s[i + 1];
    assert(c == t[0]);
    assert(c == 105u8 || c == 108u8 || c == 104u8);
    // neither CDATA, a comment, a meta tag nor text
    lemma_not_lit(s, i, cdata_open(), 1);
    lemma_not_lit(s, i, comment_open(), 1);
    lemma_not_lit(s, i, seq![60u8, 109, 101, 116, 97, 32], 1);
    assert(span(s, i, ByteClass::NotLt) == i);
    assert(sp_space(s, i) == i);
    // the tag is read as `t`
    if t == seq![105u8, 109, 103] {
        assert(lit_at(s, i + 1, t)) by {
            assert(s.subrange(i + 1, i + 1 + t.len()) =~= t);
        }
    } else if t == seq![108u8, 105, 110, 107] {
        lemma_not_lit(s, i + 1, seq![105u8, 109, 103], 0);
        assert(lit_at(s, i + 1, t)) by {
            assert(s.subrange(i + 1, i + 1 + t.len()) =~= t);
        }
    } else if t == seq![105u8, 110, 112, 117, 116] {
        lemma_not_lit(s, i + 1, seq![105u8, 109, 103], 1);
        lemma_not_lit(s, i + 1, seq![108u8, 105, 110, 107], 0);
        assert(lit_at(s, i + 1, t)) by {
            assert(s.subrange(i + 1, i + 1 + t.len()) =~= t);
        }
    } else {
        lemma_not_lit(s, i + 1, seq![105u8, 109, 103], 0);
        lemma_not_lit(s, i + 1, seq![108u8, 105, 110, 107], 0);
        lemma_not_lit(s, i + 1, seq![105u8, 110, 112, 117, 116], 0);
        assert(lit_at(s, i + 1, t)) by {
            assert(s.subrange(i + 1, i + 1 + t.len()) =~= t);
        }
    }
    assert(sp_standalone_tag(s, i + 1) == SOutcome::Done(name, p));
    // no attributes before `>`
    assert(sp_space(s, p) == p);
    assert(span(s, p, ByteClass::Alpha) == p);
    assert(sp_attribute_item(s, p) is NoMatch);
    assert(sp_attributes(s, p) == (Seq::<(Seq<char>, Seq<char>)>::empty(), p)) by {
        reveal_with_fuel(sp_attributes, 1);
    }
    lemma_not_lit(s, p, seq![47u8, 62], 0);
    assert(sp_selfclosed_element(s, i) is NoMatch);
    assert(sp_standalone_element(s, i) == SOutcome::Done(leaf(NodeTypeView::Element(name, Seq::empty())), p + 1));
}

/// Reads what [`sp_element_child`] describes, at `i`.
pub fn element_child(s: &[u8], i: usize) -> (r: Outcome<Node>)
    requires
        i <= s@.len(),
    ensures
        r@ == sp_element_child(s@, i as int),
        r.within(i as int, s@.len() as int),
    decreases s@.len() - i, 1int,
{
    let r = cdata(s, i);
    if !matches!(r, Outcome::NoMatch) {
        return r;
    }
    let r = comment(s, i);
    if !matches!(r, Outcome::NoMatch) {
        return r;
    }
    let r = meta_tag(s, i);
    if !matches!(r, Outcome::NoMatch) {
        return r;
    }
    let r = text_content(s, i);
    if !matches!(r, Outcome::NoMatch) {
        return r;
    }
    let r = selfclosed_element(s, i);
    if !matches!(r, Outcome::NoMatch) {
        return r;
    }
    let r = standalone_element(s, i);
    if !matches!(r, Outcome::NoMatch) {
        return r;
    }
    element(s, i)
}

fn children(s: &[u8], p0: usize) -> (r: Option<(Vec<Node>, usize)>)
    requires
        p0 <= s@.len(),
    ensures
        match r {
            Some((kids, q)) => sp_children(s@, p0 as int) == SOutcome::Done(node_views(kids@), q as int)
                && p0 <= q <= s@.len(),
            None => sp_children(s@, p0 as int) is Abort,
        },
    decreases s@.len() - p0, 2int,
{
    let n = s.len();
    let mut acc: Vec<Node> = Vec::new();
    let mut p = p0;
    assert(node_views(acc@) =~= Seq::<NodeView>::empty());
    assert(prefixed(Seq::<NodeView>::empty(), sp_children(s@, p0 as int)) == sp_children(s@, p0 as int)) by {
        match sp_children(s@, p0 as int) {
            SOutcome::Done(vs, q) => {
                assert(Seq::<NodeView>::empty() + vs =~= vs);
            },
            _ => {},
        }
    }
    loop
        invariant
            n == s@.len(),
            p0 <= p <= n,
            sp_children(s@, p0 as int) == prefixed(node_views(acc@), sp_children(s@, p as int)),
        decreases n - p,
    {
        match element_child(s, p) {
            Outcome::Done(c, q) => {
                if q <= p {
                    assert(node_views(acc@) + Seq::<NodeView>::empty() =~= node_views(acc@));
                    return Some((acc, p));
                }
                proof {
                    lemma_prefixed_push(node_views(acc@), c@, sp_children(s@, q as int));
                    lemma_node_views_push(acc@, c);
                }
                acc.push(c);
                p = q;
            },
            Outcome::NoMatch => {
                assert(node_views(acc@) + Seq::<NodeView>::empty() =~= node_views(acc@));
                return Some((acc, p));
            },
            Outcome::Abort => {
                return None;
            },
        }
    }
}

/// Reads what [`sp_element`] describes, at `i`.
pub fn element(s: &[u8], i: usize) -> (r: Outcome<Node>)
    requires
        i <= s@.len(),
    ensures
        r@ == sp_element(s@, i as int),
        r.within(i as int, s@.len() as int),
    decreases s@.len() - i, 0int,
{
    let n = s.len();
    match open_element(s, i) {
        Some((name, atts, p1)) => {
            let p2 = space(s, p1);
            match children(s, p2) {
                Some((kids, p3)) => {
                    let p4 = space(s, p3);
                    match close_element(s, p4) {
                        Outcome::Done(_, p5) => {
                            let node = Node {
                                node_type: NodeType::Element(ElementData { tag_name: name, attributes: atts }),
                                children: kids,
                            };
                            Outcome::Done(node, p5)
                        },
                        _ => Outcome::NoMatch,
                    }
                },
                None => Outcome::Abort,
            }
        },
        None => Outcome::NoMatch,
    }
}


// ---------------------------------------------------------------- documents
/// `t` occurs at `i` when letters are compared without regard to case.
pub open spec fn lit_at_nocase(s: Seq<u8>, i: int, t: Seq<u8>) -> bool {
    &&& 0 <= i
    &&& i + t.len() <= s.len()
    &&& forall|k: int| 0 <= k < t.len() ==> lower_byte(#[trigger] s[i + k]) == lower_byte(t[k])
}

/// How matching `t` at `i` without regard to case ends.
pub enum NocaseEnd {
    /// All of `t` matched; the match ends here.
    Matched(int),
    /// The first byte that differs is at this position.
    Mismatch(int),
    /// The input ended before `t` did, with no byte differing before.
    Incomplete,
}

/// Matching `t` at `i` from its `k`-th byte on: bytes are compared in turn
/// until one differs or the input or `t` ends.
pub open spec fn nocase_from(s: Seq<u8>, i: int, t: Seq<u8>, k: int) -> NocaseEnd
    decreases t.len() - k,
{
    if k >= t.len() {
        NocaseEnd::Matched(i + t.len())
    } else if i + k >= s.len() {
        NocaseEnd::Incomplete
    } else if lower_byte(s[i + k]) != lower_byte(t[k]) {
        NocaseEnd::Mismatch(i + k)
    } else {
        nocase_from(s, i, t, k + 1)
    }
}

/// Why `t` does not occur at a position, letters compared without regard
/// to case.
#[derive(Debug, PartialEq, Eq, Structural)]
pub enum IseqError {
    /// The byte at this position differs.
    Mismatch(usize),
    /// The input ends first.
    Incomplete,
}

/// The end that a result of [`iseq`] reports.
pub open spec fn iseq_end(r: Result<usize, IseqError>) -> NocaseEnd {
    match r {
        Ok(e) => NocaseEnd::Matched(e as int),
        Err(IseqError::Mismatch(p)) => NocaseEnd::Mismatch(p as int),
        Err(IseqError::Incomplete) => NocaseEnd::Incomplete,
    }
}

/// Matches `t` at `i`, letters compared without regard to case: the end of
/// the match, or the first differing byte, or that the input ends first.
pub fn iseq(s: &[u8], i: usize, t: &[u8]) -> (r: Result<usize, IseqError>)
    requires
        i <= s@.len(),
    ensures
        iseq_end(r) == nocase_from(s@, i as int, t@, 0),
        r is Ok <==> lit_at_nocase(s@, i as int, t@),
        r matches Ok(e) ==> e == i + t@.len(),
{
    let n = s.len();
    let mut k: usize = 0;
    while k < t.len()
        invariant
            n == s@.len(),
            i + k <= n,
            k <= t@.len(),
            forall|m: int| 0 <= m < k ==> lower_byte(#[trigger] s@[i + m]) == lower_byte(t@[m]),
            nocase_from(s@, i as int, t@, 0) == nocase_from(s@, i as int, t@, k as int),
        decreases t@.len() - k,
    {
        if k >= n - i {
            return Err(IseqError::Incomplete);
        }
        if to_lower_byte(s[i + k]) != to_lower_byte(t[k]) {
            assert(lower_byte(s@[i + k as int]) != lower_byte(t@[k as int]));
            return Err(IseqError::Mismatch(i + k));
        }
        k = k + 1;
    }
    Ok(i + k)
}

pub open spec fn doctype_open() -> Seq<u8> {
    seq![60u8, 33, 68, 79, 67, 84, 89, 80, 69]
}

/// `<!DOCTYPE` in any case, anything but `>`, then `>`: the end of the
/// declaration.
pub open spec fn sp_doctype(s: Seq<u8>, i: int) -> Option<int> {
    if lit_at_nocase(s, i, doctype_open()) {
        let e = span(s, i + 9, ByteClass::NotGt);
        if byte_is(s, e, 62) {
            Some(e + 1)
        } else {
            None
        }
    } else {
        None
    }
}

/// Reads what [`sp_doctype`] describes, at `i`.
pub fn doctype(s: &[u8], i: usize) -> (r: Option<usize>)
    requires
        i <= s@.len(),
    ensures
        r is Some <==> sp_doctype(s@, i as int) is Some,
        r matches Some(e) ==> sp_doctype(s@, i as int) == Some(e as int) && i < e <= s@.len(),
{
    let n = s.len();
    let open: [u8; 9] = [60u8, 33, 68, 79, 67, 84, 89, 80, 69];
    assert(open@ =~= doctype_open());
    if let Err(_) = iseq(s, i, &open) {
        return None;
    }
    let e = scan(s, i + 9, ByteClass::NotGt);
    if byte_eq(s, e, 62) {
        Some(e + 1)
    } else {
        None
    }
}

/// White space, an optional document type declaration, white space and the
/// root element; anything after it is ignored.
pub open spec fn sp_document(s: Seq<u8>) -> SOutcome<NodeView> {
    let p0 = sp_space(s, 0);
    let p1 = match sp_doctype(s, p0) {
        Some(e) => e,
        None => p0,
    };
    sp_element(s, sp_space(s, p1))
}

/// The URL that a document read from bytes is given.
pub open spec fn default_doc_url() -> Seq<char> {
    "https://www.mozilla.org/"@
}

/// The document that the bytes hold: the root element that
/// [`sp_document`] reads, with the default URL; none when it reads none.
pub open spec fn document_of(s: Seq<u8>) -> Option<DocumentView> {
    match sp_document(s) {
        SOutcome::Done(root, _) => Some(DocumentView { root_node: root, base_url: default_doc_url() }),
        _ => None,
    }
}

/// Why bytes could not be read as a document.
#[derive(Debug, PartialEq, Eq)]
pub enum DocumentError {
    /// No root element follows the optional document type declaration.
    NoRootElement,
    /// Text, a comment or CDATA that is not valid UTF-8.
    Unreadable,
}

/// Reads a document: its root element, with the default URL. Fails with
/// [`DocumentError::Unreadable`] exactly when reading aborts and with
/// [`DocumentError::NoRootElement`] exactly when no element is found.
pub fn read_document(buf: &[u8]) -> (r: Result<Document, DocumentError>)
    ensures
        r matches Ok(d) ==> sp_document(buf@) is Done && sp_document(buf@)->0 == d.root_node@
            && d.base_url@ == default_doc_url(),
        r matches Err(DocumentError::Unreadable) <==> sp_document(buf@) is Abort,
        r matches Err(DocumentError::NoRootElement) <==> sp_document(buf@) is NoMatch,
        r is Ok <==> document_of(buf@) is Some,
        r matches Ok(d) ==> document_of(buf@) == Some(d@),
{
    let p0 = space(buf, 0);
    let p1 = match doctype(buf, p0) {
        Some(e) => e,
        None => p0,
    };
    let p2 = space(buf, p1);
    match element(buf, p2) {
        Outcome::Done(root, _) => Ok(Document { root_node: root, base_url: "https://www.mozilla.org/".to_owned() }),
        Outcome::NoMatch => Err(DocumentError::NoRootElement),
        Outcome::Abort => Err(DocumentError::Unreadable),
    }
}

/// The document written in `buf`, for bytes that hold one.
pub fn load_doc_from_bytestring(buf: &[u8]) -> (r: Document)
    requires
        document_of(buf@) is Some,
    ensures
        document_of(buf@) == Some(r@),
{
    match read_document(buf) {
        Ok(d) => d,
        Err(_) => {
            assert(false);
            Document {
                root_node: Node { node_type: NodeType::Text(String::new()), children: Vec::new() },
                base_url: String::new(),
            }
        },
    }
}

/// [`load_doc_from_bytestring`] on an owned buffer: the two read the same
/// bytes alike, and accept the same bytes.
pub fn load_doc_from_buffer(buf: Vec<u8>) -> (r: Document)
    requires
        document_of(buf@) is Some,
    ensures
        document_of(buf@) == Some(r@),
{
    load_doc_from_bytestring(buf.as_slice())
}

} // verus!
