//! The set of style sheets that apply to a document, in the order they were
//! added.
use vstd::prelude::*;
use crate::css::model::{
    Stylesheet, RuleType, RuleTypeView, Value, ValueView, rule_type_views, lemma_rule_type_views,
    string_views, value_views, lemma_value_views,
};
use crate::dom::model::{Document, NodeType, NodeTypeView, NodeView, pairs_map, lemma_node_views};
use crate::dom::tree::{first_with_tag, getElementsByTagName};

verus! {

#[derive(Debug)]
pub struct StylesheetSet {
    pub stylesheets: Vec<Stylesheet>,
}

/// The rules of each sheet, in order.
pub open spec fn sheet_views(sheets: Seq<Stylesheet>) -> Seq<Seq<RuleTypeView>> {
    Seq::new(sheets.len(), |k: int| rule_type_views(sheets[k].rules@))
}

impl View for StylesheetSet {
    type V = Seq<Seq<RuleTypeView>>;

    open spec fn view(&self) -> Seq<Seq<RuleTypeView>> {
        sheet_views(self.stylesheets@)
    }
}

impl StylesheetSet {
    /// An empty set.
    pub fn new() -> (r: Self)
        ensures
            r@ == Seq::<Seq<RuleTypeView>>::empty(),
    {
        let r = StylesheetSet { stylesheets: Vec::new() };
        assert(r@ =~= Seq::<Seq<RuleTypeView>>::empty());
        r
    }

    /// Adds a sheet after the others.
    pub fn append(&mut self, stylesheet: Stylesheet)
        ensures
            final(self)@ == old(self)@.push(rule_type_views(stylesheet.rules@)),
            final(self).stylesheets@ == old(self).stylesheets@.push(stylesheet),
    {
        let ghost before = self@;
        self.stylesheets.push(stylesheet);
        assert(self@ =~= before.push(rule_type_views(stylesheet.rules@)));
    }
}


// ---------------------------------------------------------------- imports
/// An `@import` whose value is a call can be read: the call has an argument.
pub open spec fn import_readable(rt: RuleTypeView) -> bool {
    match rt {
        RuleTypeView::AtRule(name, Some(ValueView::FunCall(_, args)), _) => name == "import"@ ==> args.len() > 0,
        _ => true,
    }
}

pub open spec fn imports_readable(rts: Seq<RuleTypeView>) -> bool {
    forall|k: int| 0 <= k < rts.len() ==> import_readable(#[trigger] rts[k])
}

/// The URL that an item imports: the text of the first argument of the
/// call of an `@import`.
pub open spec fn import_of(rt: RuleTypeView) -> Option<Seq<char>> {
    match rt {
        RuleTypeView::AtRule(name, Some(ValueView::FunCall(_, args)), _) => if name == "import"@ && args.len() > 0 {
            match args[0] {
                ValueView::StringLiteral(u) => Some(u),
                _ => None,
            }
        } else {
            None
        },
        _ => None,
    }
}

/// The URLs that the items import, in order.
pub open spec fn imports(rts: Seq<RuleTypeView>) -> Seq<Seq<char>>
    decreases rts.len(),
{
    if rts.len() == 0 {
        Seq::empty()
    } else {
        imports(rts.drop_last()) + match import_of(rts.last()) {
            Some(u) => seq![u],
            None => Seq::empty(),
        }
    }
}

fn is_word(s: &String, word: &str) -> (r: bool)
    ensures
        r == (s@ == word@),
{
    *s == word.to_owned()
}

/// Whether [`imports_of`] can read every `@import` of the sheet.
pub fn imports_are_readable(ss: &Stylesheet) -> (r: bool)
    ensures
        r == imports_readable(rule_type_views(ss.rules@)),
{
    let ghost rts = rule_type_views(ss.rules@);
    proof {
        lemma_rule_type_views(ss.rules@);
    }
    let mut k: usize = 0;
    while k < ss.rules.len()
        invariant
            k <= ss.rules@.len(),
            rts == rule_type_views(ss.rules@),
            rts.len() == ss.rules@.len(),
            forall|j: int| 0 <= j < rts.len() ==> #[trigger] rts[j] == ss.rules@[j]@,
            forall|j: int| 0 <= j < k ==> import_readable(#[trigger] rts[j]),
        decreases ss.rules@.len() - k,
    {
        assert(rts[k as int] == ss.rules@[k as int]@);
        if let RuleType::AtRule(ar) = &ss.rules[k] {
            if let Some(Value::FunCall(f)) = &ar.value {
                proof {
                    lemma_value_views(f.arguments@);
                }
                if is_word(&ar.name, "import") && f.arguments.len() == 0 {
                    assert(!import_readable(rts[k as int]));
                    return false;
                }
            }
        }
        k = k + 1;
    }
    true
}

/// The URLs that a sheet's `@import` rules name, in order.
pub fn imports_of(ss: &Stylesheet) -> (r: Vec<String>)
    requires
        imports_readable(rule_type_views(ss.rules@)),
    ensures
        string_views(r@) == imports(rule_type_views(ss.rules@)),
{
    let ghost rts = rule_type_views(ss.rules@);
    proof {
        lemma_rule_type_views(ss.rules@);
    }
    let mut out: Vec<String> = Vec::new();
    let mut k: usize = 0;
    assert(string_views(out@) =~= imports(rts.subrange(0, 0)));
    while k < ss.rules.len()
        invariant
            k <= ss.rules@.len(),
            rts == rule_type_views(ss.rules@),
            rts.len() == ss.rules@.len(),
            imports_readable(rts),
            forall|j: int| 0 <= j < rts.len() ==> #[trigger] rts[j] == ss.rules@[j]@,
            string_views(out@) == imports(rts.subrange(0, k as int)),
        decreases ss.rules@.len() - k,
    {
        let ghost pre = rts.subrange(0, k + 1);
        assert(pre.drop_last() =~= rts.subrange(0, k as int));
        assert(pre.last() == ss.rules@[k as int]@);
        assert(import_readable(rts[k as int]));
        let ghost before = string_views(out@);
        if let RuleType::AtRule(ar) = &ss.rules[k] {
            if let Some(Value::FunCall(f)) = &ar.value {
                proof {
                    lemma_value_views(f.arguments@);
                }
                if is_word(&ar.name, "import") {
                    if let Value::StringLiteral(u) = &f.arguments[0] {
                        out.push(u.clone());
                        assert(string_views(out@) =~= before + seq![u@]);
                    }
                }
            }
        }
        assert(string_views(out@) =~= imports(pre));
        k = k + 1;
    }
    assert(rts.subrange(0, k as int) =~= rts);
    out
}

// ---------------------------------------------------------------- linked and inline sheets
/// The `href` of the first `link` element when its `rel` is `stylesheet`.
pub open spec fn stylesheet_link(root: NodeView) -> Option<Seq<char>> {
    match first_with_tag(root, "link"@) {
        Some(n) => match n.node_type {
            NodeTypeView::Element(_, atts) => if pairs_map(atts).contains_key("rel"@) && pairs_map(atts)["rel"@]
                == "stylesheet"@ && pairs_map(atts).contains_key("href"@) {
                Some(pairs_map(atts)["href"@])
            } else {
                None
            },
            _ => None,
        },
        None => None,
    }
}

/// The text of the first `style` element, when its first child is text.
pub open spec fn inline_style(root: NodeView) -> Option<Seq<char>> {
    match first_with_tag(root, "style"@) {
        Some(n) => if n.children.len() > 0 && n.children[0].node_type is Text {
            Some(n.children[0].node_type->Text_0)
        } else {
            None
        },
        None => None,
    }
}

/// The style sheet that the document links to, if its first `link` element
/// is one.
pub fn linked_stylesheet_href(doc: &Document) -> (r: Option<String>)
    ensures
        match r {
            Some(h) => stylesheet_link(doc.root_node@) == Some(h@),
            None => stylesheet_link(doc.root_node@) is None,
        },
{
    match getElementsByTagName(&doc.root_node, "link") {
        Some(link) => {
            if let NodeType::Element(ed) = &link.node_type {
                let rel = ed.attributes.get("rel");
                let href = ed.attributes.get("href");
                match (rel, href) {
                    (Some(rel), Some(href)) => {
                        if is_word(rel, "stylesheet") {
                            return Some(href.clone());
                        }
                    },
                    _ => {},
                }
            }
            None
        },
        None => None,
    }
}

/// The text of the document's first `style` element.
pub fn inline_style_text(doc: &Document) -> (r: Option<String>)
    ensures
        match r {
            Some(t) => inline_style(doc.root_node@) == Some(t@),
            None => inline_style(doc.root_node@) is None,
        },
{
    match getElementsByTagName(&doc.root_node, "style") {
        Some(style) => {
            proof {
                lemma_node_views(style.children@);
            }
            if style.children.len() > 0 {
                if let NodeType::Text(text) = &style.children[0].node_type {
                    return Some(text.clone());
                }
            }
            None
        },
        None => None,
    }
}

} // verus!
