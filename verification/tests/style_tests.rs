use rust_minibrowser::css::color::{find_named_color, BadColor, NamedColors};
use rust_minibrowser::css::model::{
    Color, Declaration, Decimal, Rule, RuleType, Selector, SimpleSelector, Stylesheet, Unit, Value,
};
use rust_minibrowser::css::rules::{parse_stylesheet, parse_stylesheet_from_bytestring};
use rust_minibrowser::dom::model::{AttrMap, Document, ElementData, Node, NodeType};
use rust_minibrowser::style::props::PropertyMap;
use rust_minibrowser::dom::parser::load_doc_from_bytestring;
use rust_minibrowser::dom::tree::strip_empty_nodes;
use rust_minibrowser::layout::{build_layout_tree, BoxType, LayoutBox};
use rust_minibrowser::net::sheets::{inline_style_text, StylesheetSet};
use rust_minibrowser::style::cascade::specified_values;
use rust_minibrowser::style::expand::{border_shorthands_ok, expand_styles};
use rust_minibrowser::style::node::{Display, FontFamilies, ListMarker};
use rust_minibrowser::style::tree::{dom_tree_to_stylednodes, StyledNode, StyledTree};
use rust_minibrowser::globals::make_globals;

fn dec(text: &str) -> Decimal {
    let (neg, rest) = match text.strip_prefix('-') {
        Some(r) => (true, r),
        None => (false, text),
    };
    let (i, f) = match rest.find('.') {
        Some(k) => (&rest[..k], &rest[k + 1..]),
        None => (rest, ""),
    };
    let ints: Vec<u8> = i.bytes().map(|b| b - b'0').collect();
    let fracs: Vec<u8> = f.bytes().map(|b| b - b'0').collect();
    Decimal::new(neg, &ints, &fracs)
}

fn length(text: &str, u: Unit) -> Value {
    Value::Length(dec(text), u)
}

fn kw(s: &str) -> Value {
    Value::Keyword(s.to_string())
}

fn sheet_of(css: &[u8]) -> Stylesheet {
    let mut ss = parse_stylesheet_from_bytestring(css);
    assert!(border_shorthands_ok(&ss));
    expand_styles(&mut ss);
    ss
}

/// The document, its sheets (its own `<style>` and then `css_text`) and the
/// styled tree.
fn standard_test_run(doc_text: &[u8], css_text: &[u8]) -> (Document, StylesheetSet, StyledTree) {
    let mut doc = load_doc_from_bytestring(doc_text);
    strip_empty_nodes(&mut doc);
    let mut set = StylesheetSet::new();
    if let Some(t) = inline_style_text(&doc) {
        let mut ss = parse_stylesheet(&t);
        expand_styles(&mut ss);
        set.append(ss);
    }
    set.append(sheet_of(css_text));
    let tree = dom_tree_to_stylednodes(&doc.root_node, &set);
    (doc, set, tree)
}

#[test]
fn test_inherited_match() {
    let doc_text = br#"
    <html>
        <b>cool<a>rad</a></b>
    </html>
    "#;
    let css_text = br#"
        * {
            color: inherit;
            font-weight: inherit;
        }
        html {
            color: black;
            font-weight: bold;
        }
        b {
            foo:bar;
        }
        a {
            color: blue;
        }
    "#;
    let (_doc, _sss, stree) = standard_test_run(doc_text, css_text);
    let snode = &stree.root;

    //check html element
    assert_eq!(snode.specified_values.get("color").unwrap(), &kw("black"));

    // check html b element
    assert_eq!(snode.children[0].specified_values.get("color").unwrap(), &kw("black"));
    assert_eq!(snode.children[0].specified_values.get("font-weight").unwrap(), &kw("bold"));
    // check html b a element
    assert_eq!(snode.children[0].children[1].specified_values.get("color").unwrap(), &kw("blue"));
    assert_eq!(snode.children[0].children[1].specified_values.get("font-weight").unwrap(), &kw("bold"));
}

#[test]
fn test_em_to_px() {
    let doc_text = br#" <html> <p>cool</p> </html> "#;
    let css_text = br#"
        * {
            color: inherit;
        }
        html {
            color: black;
            margin: 1em;
        }
        p {
            color: black;
            margin: 1em;
        }
    "#;
    let (doc, _sss, stree) = standard_test_run(doc_text, css_text);
    let snode = &stree.root;
    println!("doc={:#?}  snode={:#?}", doc, snode);

    //check html element
    assert_eq!(snode.specified_values.get("margin-left").unwrap(), &length("1.0", Unit::Em));
}

#[test]
fn test_vertical_align() {
    let doc_text = br#"<html>
    <style type="text/css">
        .top {
            vertical-align: top;
        }
    </style>
    <div class="top">top</div>
    </html>"#;
    let (_doc, _sss, stree) = standard_test_run(doc_text, br"");
    let root = &stree.root;
    let div = &root.children[1];
    assert_eq!(div.lookup_string("vertical-align", "foo"), "top".to_string());
}

#[test]
fn test_multi_selector_match() {
    let doc_text = br#"
    <html>
        <b>cool</b><a>rad</a>
    </html>
    "#;
    let css_text = br#"
        * {
            color: black;
        }
        a,b {
            color:red;
        }
    "#;
    let (doc, stylesheet, stree) = standard_test_run(doc_text, css_text);
    let snode = &stree.root;
    println!("doc is {:#?} {:#?} {:#?}", doc, stylesheet, snode);

    //check html element
    assert_eq!(snode.specified_values.get("color").unwrap(), &kw("black"));
    // check html b element
    assert_eq!(snode.children[0].specified_values.get("color").unwrap(), &kw("red"));
    // check html a element
    assert_eq!(snode.children[1].specified_values.get("color").unwrap(), &kw("red"));
}

#[test]
fn test_ancestor_match() {
    let doc_text = br#"
    <b><a>rad</a></b>
    "#;
    let css_text = br#"
        * {
            color: black;
        }
        b a {
            color:red;
        }
    "#;
    let (doc, stylesheet, stree) = standard_test_run(doc_text, css_text);
    let snode = &stree.root;
    println!("doc is {:#?} {:#?} {:#?}", doc, stylesheet, snode);

    //check b
    assert_eq!(snode.specified_values.get("color").unwrap(), &kw("black"));
    // check b a
    let f2 = &snode.children[0];
    f2.specified_values.get("color").unwrap();
    assert_eq!(snode.children[0].specified_values.get("color").unwrap(), &kw("red"));
}

#[test]
fn test_property_expansion_1() {
    let doc_text = br#"<div></div>"#;
    let css_text = br#"
        div {
            margin: 1px;
            border-width: 1px;
        }
    "#;
    let (_doc, stylesheet, stree) = standard_test_run(doc_text, css_text);
    let snode = &stree.root;
    println!("stylesheet is {:#?}", stylesheet);
    for name in [
        "margin-top",
        "margin-right",
        "margin-bottom",
        "margin-left",
        "border-width-top",
        "border-width-right",
        "border-width-bottom",
        "border-width-left",
    ] {
        assert_eq!(snode.value(name), Some(length("1.0", Unit::Px)));
    }
}

#[test]
fn test_property_expansion_2() {
    let doc_text = br#"<div></div>"#;
    let css_text = br#"
        div {
            margin: 1px 2px;
        }
    "#;
    let (doc, stylesheet, stree) = standard_test_run(doc_text, css_text);
    let snode = &stree.root;
    println!("doc is {:#?} {:#?} {:#?}", doc, stylesheet, snode);
    assert_eq!(snode.value("margin-top"), Some(length("1.0", Unit::Px)));
    assert_eq!(snode.value("margin-right"), Some(length("2.0", Unit::Px)));
    assert_eq!(snode.value("margin-bottom"), Some(length("1.0", Unit::Px)));
    assert_eq!(snode.value("margin-left"), Some(length("2.0", Unit::Px)));
}

#[test]
fn test_property_expansion_4() {
    let doc_text = br#"<div></div>"#;
    let css_text = br#"
        div {
            margin: 1px 2px 3px 4px;
        }
    "#;
    let (doc, stylesheet, stree) = standard_test_run(doc_text, css_text);
    let snode = &stree.root;
    println!("doc is {:#?} {:#?} {:#?}", doc, stylesheet, snode);
    assert_eq!(snode.value("margin-top"), Some(length("1.0", Unit::Px)));
    assert_eq!(snode.value("margin-right"), Some(length("2.0", Unit::Px)));
    assert_eq!(snode.value("margin-bottom"), Some(length("3.0", Unit::Px)));
    assert_eq!(snode.value("margin-left"), Some(length("4.0", Unit::Px)));
}

#[test]
fn test_border_shorthand() {
    let doc_text = br#"<div></div>"#;
    let css_text = br#"
        div {
            border: 1px solid black;
        }
    "#;
    let (doc, stylesheet, stree) = standard_test_run(doc_text, css_text);
    let snode = &stree.root;
    println!("doc is {:#?} {:#?} {:#?}", doc, stylesheet, snode);
    assert_eq!(snode.value("border-width-top"), Some(length("1.0", Unit::Px)));
    assert_eq!(snode.value("border-width-right"), Some(length("1.0", Unit::Px)));
    assert_eq!(snode.value("border-width-bottom"), Some(length("1.0", Unit::Px)));
    assert_eq!(snode.value("border-width-left"), Some(length("1.0", Unit::Px)));
    assert_eq!(snode.lookup_keyword("border-color", &kw("white")), kw("black"));
}

#[test]
fn test_make_globals() {
    let globals = make_globals();
    assert_eq!(globals.named_color("aqua").unwrap(), "#00ffff");
}

#[test]
fn it_works() {
    assert_eq!(2 + 2, 4);
}

// ---------------------------------------------------------------- further cases

fn simple(tag: Option<&str>, id: Option<&str>, class: &[&str]) -> Selector {
    Selector::Simple(SimpleSelector {
        tag_name: tag.map(|t| t.to_string()),
        id: id.map(|t| t.to_string()),
        class: class.iter().map(|c| c.to_string()).collect(),
    })
}

fn colour_rule(sel: Selector, colour: &str) -> RuleType {
    RuleType::Rule(Rule {
        selectors: vec![sel],
        declarations: vec![Declaration { name: "color".to_string(), value: kw(colour) }],
    })
}

#[test]
fn more_specific_rule_wins_whatever_the_order() {
    let mut set = StylesheetSet::new();
    set.append(Stylesheet {
        rules: vec![
            colour_rule(simple(None, Some("x"), &[]), "red"),
            colour_rule(simple(None, None, &["c"]), "green"),
            colour_rule(simple(Some("p"), None, &[]), "blue"),
            colour_rule(simple(Some("*"), None, &[]), "black"),
        ],
        parent: None,
        base_url: String::new(),
    });
    let mut atts = AttrMap::new();
    atts.insert("id".to_string(), "x".to_string());
    atts.insert("class".to_string(), "c d".to_string());
    let elem = ElementData { tag_name: "p".to_string(), attributes: atts };
    assert_eq!(specified_values(&elem, &set, &[]).get("color"), Some(&kw("red")));

    let mut set = StylesheetSet::new();
    set.append(Stylesheet {
        rules: vec![
            colour_rule(simple(None, None, &["c", "d"]), "red"),
            colour_rule(simple(None, None, &["c"]), "green"),
            colour_rule(simple(None, None, &["c", "e"]), "blue"),
        ],
        parent: None,
        base_url: String::new(),
    });
    assert_eq!(specified_values(&elem, &set, &[]).get("color"), Some(&kw("red")));
}

#[test]
fn later_rule_wins_among_equals() {
    let (_d, _s, stree) = standard_test_run(b"<p></p>", b"p { color: red; } p { color: green; }");
    assert_eq!(stree.root.value("color"), Some(kw("green")));
    // and a later sheet over an earlier one
    let mut set = StylesheetSet::new();
    set.append(sheet_of(b"p { color: red; }"));
    set.append(sheet_of(b"p { color: blue; }"));
    let elem = ElementData { tag_name: "p".to_string(), attributes: AttrMap::new() };
    let values = specified_values(&elem, &set, &[]);
    assert_eq!(values.get("color"), Some(&kw("blue")));
    assert_eq!(values.get("margin"), None);
}

#[test]
fn unmatched_selectors_give_nothing() {
    let (_d, _s, stree) = standard_test_run(
        br#"<p id="y"></p>"#,
        b".c { color: green; } div { color: blue; } q p { color: black; }",
    );
    assert_eq!(stree.root.value("color"), None);
}

#[test]
fn inherit_without_ancestor_stays() {
    let (_d, _s, stree) = standard_test_run(b"<p></p>", b"p { color: inherit; }");
    assert_eq!(stree.root.value("color"), Some(kw("inherit")));
}

#[test]
fn text_nodes_get_no_values_and_display_inline() {
    let (_d, _s, stree) = standard_test_run(b"<p>hi</p>", b"* { display: block; }");
    assert_eq!(stree.root.display(), Display::Block);
    let text = &stree.root.children[0];
    assert_eq!(text.specified_values.len(), 0);
    assert_eq!(text.display(), Display::Inline);
}

#[test]
fn display_keywords() {
    let cases: [(&[u8], Display); 5] = [
        (b"p { display: none; }", Display::Hidden),
        (b"p { display: table-cell; }", Display::TableCell),
        (b"p { display: list-item; }", Display::ListItem),
        (b"p { display: flex; }", Display::Inline),
        (b"p { color: red; }", Display::Inline),
    ];
    for (css, want) in cases {
        let (_d, _s, stree) = standard_test_run(b"<p></p>", css);
        assert_eq!(stree.root.display(), want);
    }
}

#[test]
fn lookups_with_fallbacks() {
    let (_d, _s, stree) =
        standard_test_run(b"<p></p>", b"p { border-width-top: 2px; font-family: \"Serif\"; text-decoration-line: underline; }");
    let n = &stree.root;
    assert_eq!(n.lookup("border-top", "border-width-top", &kw("x")), length("2", Unit::Px));
    assert_eq!(n.lookup("a", "b", &kw("x")), kw("x"));
    assert_eq!(n.lookup_string("font-family", "d"), "Serif".to_string());
    assert_eq!(n.lookup_string("border-width-top", "d"), "d".to_string());
    assert_eq!(n.lookup_keyword("font-family", &kw("k")), kw("k"));
    assert_eq!(n.lookup_text_decoration_line(), "underline".to_string());
    let (_d, _s, stree) = standard_test_run(b"<p></p>", b"");
    assert_eq!(stree.root.lookup_text_decoration_line(), "none".to_string());
}

#[test]
fn font_weights() {
    let cases: [(&[u8], i32); 5] = [
        (b"p { font-weight: bold; }", 700),
        (b"p { font-weight: normal; }", 400),
        (b"p { font-weight: 600; }", 600),
        (b"p { font-weight: bolder; }", 123),
        (b"p { }", 400),
    ];
    for (css, want) in cases {
        let (_d, _s, stree) = standard_test_run(b"<p></p>", css);
        assert_eq!(stree.root.lookup_font_weight(123), want);
    }
}

#[test]
fn font_family_stack() {
    let mut fams = FontFamilies::new();
    fams.add("open");
    let (_d, _s, stree) = standard_test_run(b"<p></p>", b"p { font-family: \"nope\", open, serif; }");
    assert_eq!(stree.root.lookup_font_family(&fams), "open".to_string());
    let (_d, _s, stree) = standard_test_run(b"<p></p>", b"p { font-family: \"nope\", serif; }");
    assert_eq!(stree.root.lookup_font_family(&fams), "sans-serif".to_string());
    let (_d, _s, stree) = standard_test_run(b"<p></p>", b"p { font-family: serif; }");
    assert_eq!(stree.root.lookup_font_family(&fams), "serif".to_string());
    assert!(fams.has_font_family("open"));
    assert!(!fams.has_font_family("serif"));
}

#[test]
fn colours() {
    let named = NamedColors::from_pairs(&vec![
        ("red".to_string(), "#ff0000".to_string()),
        ("aqua".to_string(), "#00ffff".to_string()),
    ])
    .unwrap();
    let red = Color { r: 255, g: 0, b: 0, a: 255 };
    assert_eq!(find_named_color("RED", &named), Some(red));
    assert_eq!(find_named_color("Aqua", &named), Some(Color { r: 0, g: 255, b: 255, a: 255 }));
    assert_eq!(find_named_color("teal", &named), None);
    let (_d, _s, stree) = standard_test_run(b"<p></p>", b"p { color: Red; background-color: #102030; border-color: 3px; }");
    let n = &stree.root;
    assert!(n.color_is_readable("color"));
    assert_eq!(n.color("color", &named), Some(red));
    assert_eq!(n.color("background-color", &named), Some(Color { r: 16, g: 32, b: 48, a: 255 }));
    assert_eq!(n.color("border-color", &named), None);
    let black = Color { r: 0, g: 0, b: 0, a: 255 };
    assert_eq!(n.lookup_color("border-color", &black, &named), black);
    assert_eq!(n.lookup_color("color", &black, &named), red);
    assert_eq!(
        NamedColors::from_pairs(&vec![("bad".to_string(), "#xyz".to_string())]).unwrap_err(),
        BadColor { name: "bad".to_string() }
    );
    let mut values = PropertyMap::new();
    values.insert("color".to_string(), Value::HexColor("#ffffffff".to_string()));
    let node = StyledNode {
        node: Node {
            node_type: NodeType::Element(ElementData { tag_name: "p".to_string(), attributes: AttrMap::new() }),
            children: vec![],
        },
        children: vec![],
        specified_values: values,
    };
    assert!(!node.color_is_readable("color"));
    assert!(node.color_is_readable("background-color"));
}

#[test]
fn list_markers() {
    let (_d, _s, stree) =
        standard_test_run(b"<li></li>", b"li { display: list-item; list-style-type: disc; }");
    assert_eq!(stree.root.list_marker(), ListMarker::Disc);
    let (_d, _s, stree) = standard_test_run(b"<li></li>", b"li { display: list-item; }");
    assert_eq!(stree.root.list_marker(), ListMarker::NoMarker);
    let (_d, _s, stree) = standard_test_run(b"<li></li>", b"li { list-style-type: disc; }");
    assert_eq!(stree.root.list_marker(), ListMarker::NoMarker);
}

#[test]
fn border_shorthand_that_cannot_be_spelled_out() {
    let ss = parse_stylesheet_from_bytestring(b"div { border: none; }");
    assert!(!border_shorthands_ok(&ss));
    let ss = parse_stylesheet_from_bytestring(b"div { border: 1px solid; }");
    assert!(!border_shorthands_ok(&ss));
    let ss = parse_stylesheet_from_bytestring(b"div { border: 2; }");
    assert!(border_shorthands_ok(&ss));
}

#[test]
fn box_values_of_other_sizes() {
    let (_d, _s, stree) = standard_test_run(b"<p></p>", b"p { padding: 1px 2px 3px; margin: auto; }");
    assert_eq!(stree.root.value("padding"), None);
    assert_eq!(stree.root.value("padding-top"), None);
    assert_eq!(stree.root.value("margin"), Some(kw("auto")));
}

fn kinds(b: &LayoutBox) -> String {
    let k = match b.box_type {
        BoxType::BlockNode(_) => "B",
        BoxType::InlineNode(_) => "I",
        BoxType::InlineBlockNode(_) => "IB",
        BoxType::AnonymousBlock(_) => "A",
        BoxType::TableNode(_) => "T",
        BoxType::TableRowGroupNode(_) => "TG",
        BoxType::TableRowNode(_) => "TR",
        BoxType::TableCellNode(_) => "TC",
        BoxType::ListItemNode(_) => "L",
    };
    let kids: Vec<String> = b.children.iter().map(kinds).collect();
    if kids.is_empty() {
        k.to_string()
    } else {
        format!("{}({})", k, kids.join(","))
    }
}

#[test]
fn inline_children_gather_in_anonymous_blocks() {
    let (doc, _s, stree) = standard_test_run(
        b"<div>a<b>x</b><p>y</p>c<i></i><q></q></div>",
        b"div, p { display: block; } q { display: none; }",
    );
    let lb = build_layout_tree(&stree.root, &doc);
    assert_eq!(kinds(&lb), "B(A(I,I(I)),B(A(I)),A(I,I))");
}
