use rust_minibrowser::css::rules::parse_stylesheet;
use rust_minibrowser::dom::model::{AttrMap, Document, ElementData, MetaData, Node, NodeType};
use rust_minibrowser::dom::parser::{
    alnum_name, attribute_item, attributes, close_element, comment, doctype, element, element_child,
    load_doc_from_buffer, load_doc_from_bytestring, meta_tag, open_element, read_document,
    standalone_element, DocumentError,
};
use rust_minibrowser::dom::tree::{expand_entities, getElementsByTagName, strip_empty_nodes};
use rust_minibrowser::text::Outcome;

fn ok<T>(o: Outcome<T>) -> Result<T, ()> {
    match o {
        Outcome::Done(v, _) => Ok(v),
        _ => Err(()),
    }
}

fn elem(tag: &str, attributes: AttrMap, children: Vec<Node>) -> Node {
    Node { node_type: NodeType::Element(ElementData { tag_name: tag.to_string(), attributes }), children }
}

fn text(t: &str) -> Node {
    Node { node_type: NodeType::Text(t.to_string()), children: vec![] }
}

fn comment_node(t: &str) -> Node {
    Node { node_type: NodeType::Comment(t.to_string()), children: vec![] }
}

fn attrs(pairs: &[(&str, &str)]) -> AttrMap {
    let mut m = AttrMap::new();
    for (k, v) in pairs {
        m.insert(k.to_string(), v.to_string());
    }
    m
}

fn document(input: &[u8]) -> Result<Document, DocumentError> {
    read_document(input)
}

#[test]
fn test_element_name() {
    let input = br#"div"#;
    let result = ok(alnum_name(input, 0));
    println!("{:?}", result);
    assert_eq!(String::from("div"), result.unwrap());
}

#[test]
fn test_element_name_with_number() {
    let input = br#"h3"#;
    let result = ok(alnum_name(input, 0));
    println!("{:?}", result);
    assert_eq!(String::from("h3"), result.unwrap());
}

#[test]
fn test_attribute_simple() {
    let input = b"foo=\"bar\"";
    println!("{:#?}", attribute_item(input, 0));
}

#[test]
fn test_attribute_complex() {
    let input = b"foo=\"bar-foo-8\"";
    println!("{:#?}", attribute_item(input, 0));
}

#[test]
fn test_attribute_standalone() {
    let input = b"foo=\"bar\" baz";
    println!("{:#?}", attributes(input, 0));
}

#[test]
fn test_several_attributes() {
    let input = b"foo=\"bar\" baz=\"quxx\" ";
    println!("{:#?}", attributes(input, 0));
    let hm = attrs(&[("foo", "bar"), ("baz", "quxx")]);
    assert_eq!(hm, attributes(b"foo=\"bar\" baz=\"quxx\" ", 0).0)
}

#[test]
fn test_empty_attribute_value() {
    let hm = attrs(&[("foo", "bar")]);
    assert_eq!(Ok(elem("b", hm, vec![])), ok(element(br#"<b foo="bar"></b>"#, 0)));

    let hm = attrs(&[("foo", "")]);
    assert_eq!(Ok(elem("b", hm, vec![])), ok(element(br#"<b foo=""></b>"#, 0)));
}

#[test]
fn test_standlone_elements() {
    assert!(ok(standalone_element(b"<img>", 0)).is_ok());
    assert!(ok(standalone_element(br#"<img src="foo.png">"#, 0)).is_ok());
    assert!(ok(standalone_element(b"<link>", 0)).is_ok());
    assert!(ok(element_child(b"<link/>", 0)).is_ok());
}

#[test]
fn test_standalone_attribute() {
    assert!(ok(element_child(
        br#"<iframe width="853" height="480" src="https://www.youtube.com/embed/YslQ2625TR4" frameborder="0" allowfullscreen></iframe>"#,
        0
    ))
    .is_ok());
}

#[test]
fn test_element() {
    assert!(open_element(b"<head>", 0).is_some());
    assert!(ok(close_element(b"</head>", 0)).is_ok());
    assert!(ok(element_child(b"some foo text", 0)).is_ok());
    assert!(ok(element_child(b"<head></head>", 0)).is_ok());
}

#[test]
fn test_element_text() {
    let input = b"<head> foo </head>";
    println!("{:#?}", ok(element_child(input, 0)));
}

#[test]
fn test_element_text_element() {
    let input = b"<head><body></body></head>";
    println!("{:#?}", ok(element(input, 0)));
}

#[test]
fn test_nested() {
    let input = br#"
     <html>
       <body>
        <div>some text</div>
       </body>
     </html>
    "#;
    println!("{:#?}", ok(element(input, 0)));
}

#[test]
fn test_elem_with_attrs() {
    let input = br#"
     <html lang="en">
       <body>
        <div>some text</div>
       </body>
     </html>
    "#;
    println!("{:#?}", ok(element(input, 0)));
}

#[test]
fn test_multi_children() {
    let input = br#"
     <html>
       <body>
        <div>part 1</div>
        <div>part 2</div>
       </body>
     </html>
    "#;
    println!("{:#?}", ok(element(input, 0)));
}

#[test]
fn test_multi_children_h3() {
    let input = br#"
     <html>
       <body>
        <div>part 1</div>
        <h3>part 2</h3>
       </body>
     </html>
    "#;
    println!("{:#?}", ok(element(input, 0)));
}

#[test]
fn test_div_with_img_child() {
    let input = br#"
     <div>
        <img src="foo.png">
     </div>
    "#;
    println!("{:#?}", ok(element(input, 0)));
}

#[test]
fn test_doctype() {
    assert!(doctype(b"<!DOCTYPE html>", 0).is_some());
    assert!(doctype(b"<!doctype html>", 0).is_some());
    assert!(doctype(
        b"<!DOCTYPE html PUBLIC \"-//W3C//DTD XHTML 1.0 Strict//EN\" \"http://www.w3.org/TR/xhtml1/DTD/xhtml1-strict.dtd\">",
        0
    )
    .is_some());
}

#[test]
fn test_metatag() {
    let input = br#"<meta charset="UTF-8">"#;
    let result = ok(meta_tag(input, 0));
    println!("{:?}", result);
    let atts = attrs(&[("charset", "UTF-8")]);
    assert_eq!(
        Node { node_type: NodeType::Meta(MetaData { attributes: atts }), children: vec![] },
        result.unwrap()
    );
}

#[test]
fn test_metatag_with_closing_element() {
    assert!(ok(meta_tag(b"<meta />", 0)).is_ok())
}

#[test]
fn test_linktag_with_closing_element() {
    assert!(ok(element_child(br#"<link rel="stylesheet" href="tufte.css"/>"#, 0)).is_ok())
}

#[test]
fn test_input_element() {
    assert!(ok(element_child(br#"<input />"#, 0)).is_ok());
    assert!(ok(element_child(br#"<input ></input>"#, 0)).is_ok());
}

#[test]
fn mod_test_comment() {
    assert_eq!(Ok(comment_node(" a cool - comment")), ok(comment(br"<!-- a cool - comment-->", 0)))
}

#[test]
fn test_comment_2() {
    assert_eq!(
        Ok(elem("foo", AttrMap::new(), vec![comment_node(" a cool - comment")])),
        ok(element(br"<foo><!-- a cool - comment--></foo>", 0))
    );
    assert_eq!(
        Ok(elem("foo", AttrMap::new(), vec![comment_node(" a cool - comment"), text("after")])),
        ok(element(br"<foo><!-- a cool - comment-->after</foo>", 0))
    );
    assert_eq!(
        Ok(elem("foo", AttrMap::new(), vec![text("before"), comment_node(" a cool - comment")])),
        ok(element(br"<foo>before<!-- a cool - comment--></foo>", 0))
    );
}

#[test]
fn test_style_parse() {
    let input = br#"<head>
    <style type="text/css">
      .foo {
        color:red;
       }
    </style>
    </head>"#;
    let result = document(input);
    println!("{:?}", result);
    match &result.unwrap().root_node.children[0].children[0].node_type {
        NodeType::Text(txt) => {
            println!("got the text {}", txt);
            let ss = parse_stylesheet(txt);
            println!("stylesheet is {:#?}", ss);
        }
        _ => {}
    }
}

#[test]
fn test_simple_doc() {
    let input = br#"
    <!DOCTYPE html>
<html>
    <head>
        <meta charset="UTF-8"></head></html>
    "#;
    let result = document(input);
    println!("foo");
    println!("{:?}", result);
    let atts = attrs(&[("charset", "UTF-8")]);
    assert_eq!(
        Document {
            root_node: elem(
                "html",
                AttrMap::new(),
                vec![elem(
                    "head",
                    AttrMap::new(),
                    vec![Node { node_type: NodeType::Meta(MetaData { attributes: atts }), children: vec![] }]
                )]
            ),
            base_url: "https://www.mozilla.org/".to_string(),
        },
        result.unwrap()
    );
}

#[test]
fn test_strip_empty_nodes() {
    let input = br#"
    <html>
        <body>
            <div>blah</div>
        </body>
    </html>
    "#;
    let mut doc = document(input).unwrap();
    println!("{:?}", doc);

    strip_empty_nodes(&mut doc);
    assert_eq!(
        Document {
            root_node: elem(
                "html",
                AttrMap::new(),
                vec![elem("body", AttrMap::new(), vec![elem("div", AttrMap::new(), vec![text("blah")])])]
            ),
            base_url: "https://www.mozilla.org/".to_string(),
        },
        doc
    );
}

#[test]
fn test_expand_entities() {
    let input = br#"
    <html>
        <body>
            <div>&lt; &gt; &amp;</div>
        </body>
    </html>
    "#;
    let mut doc = document(input).unwrap();
    strip_empty_nodes(&mut doc);
    expand_entities(&mut doc);
    println!("{:?}", doc);
    assert_eq!(
        Document {
            root_node: elem(
                "html",
                AttrMap::new(),
                vec![elem("body", AttrMap::new(), vec![elem("div", AttrMap::new(), vec![text("< > &")])])]
            ),
            base_url: "https://www.mozilla.org/".to_string(),
        },
        doc
    );
}

// ---------------------------------------------------------------- further cases

#[test]
fn document_errors() {
    assert_eq!(read_document(b"no markup here"), Err(DocumentError::NoRootElement));
    assert_eq!(read_document(b""), Err(DocumentError::NoRootElement));
    assert_eq!(read_document(b"<p>\xff\xfe</p>"), Err(DocumentError::Unreadable));
    assert_eq!(read_document(b"<p><!--\xff--></p>"), Err(DocumentError::Unreadable));
}

#[test]
fn invalid_attribute_value_is_not_an_attribute() {
    // a quoted value that is not UTF-8 is no attribute: the name stands alone
    let (map, end) = attributes(b"a=\"\xff\"", 0);
    assert_eq!(map, attrs(&[("a", "a")]));
    assert_eq!(end, 1);
}

#[test]
fn later_attribute_overrides() {
    let node = ok(element(br#"<p id="a" id="b"></p>"#, 0)).unwrap();
    match &node.node_type {
        NodeType::Element(e) => {
            assert_eq!(e.id(), Some(&"b".to_string()));
            assert_eq!(e.attributes.get("id"), Some(&"b".to_string()));
            assert_eq!(e.attributes.get("class"), None);
        }
        _ => panic!("not an element"),
    }
}

#[test]
fn element_classes_are_distinct_pieces() {
    let node = ok(element(br#"<p class="a b a"></p>"#, 0)).unwrap();
    match &node.node_type {
        NodeType::Element(e) => {
            assert_eq!(e.classes(), vec!["a".to_string(), "b".to_string()]);
        }
        _ => panic!("not an element"),
    }
    let node = ok(element(br#"<p></p>"#, 0)).unwrap();
    match &node.node_type {
        NodeType::Element(e) => assert!(e.classes().is_empty()),
        _ => panic!("not an element"),
    }
}

#[test]
fn closing_tag_name_is_not_compared() {
    assert_eq!(Ok(elem("a", AttrMap::new(), vec![])), ok(element(b"<a></b>", 0)));
}

#[test]
fn cdata_and_doctype_case() {
    let doc = load_doc_from_bytestring(b"<!DocType x><r><![CDATA[<x>]]></r>");
    assert_eq!(
        doc.root_node,
        elem("r", AttrMap::new(), vec![Node { node_type: NodeType::Cdata("<x>".to_string()), children: vec![] }])
    );
    let doc2 = load_doc_from_buffer(b"<r></r>".to_vec());
    assert_eq!(doc2.base_url, "https://www.mozilla.org/".to_string());
}

#[test]
fn find_first_element_by_tag() {
    let doc = load_doc_from_bytestring(b"<html><p>one</p><div><p>two</p></div><b></b></html>");
    let found = getElementsByTagName(&doc.root_node, "p").unwrap();
    assert_eq!(found.children, vec![text("one")]);
    assert!(getElementsByTagName(&doc.root_node, "b").is_some());
    assert!(getElementsByTagName(&doc.root_node, "table").is_none());
    assert_eq!(getElementsByTagName(&doc.root_node, "html").unwrap().children.len(), 3);
}

#[test]
fn stripping_twice_changes_nothing() {
    let mut doc = load_doc_from_bytestring(b"<a> <b>\t</b> x <c>\n</c></a>");
    strip_empty_nodes(&mut doc);
    let once = format!("{:?}", doc);
    assert_eq!(
        doc.root_node,
        elem("a", AttrMap::new(), vec![elem("b", AttrMap::new(), vec![]), text(" x "), elem("c", AttrMap::new(), vec![])])
    );
    strip_empty_nodes(&mut doc);
    assert_eq!(format!("{:?}", doc), once);
}

#[test]
fn unicode_white_space_is_blank() {
    let mut doc = load_doc_from_bytestring("<a>\u{a0}\u{3000}<b></b></a>".as_bytes());
    strip_empty_nodes(&mut doc);
    assert_eq!(doc.root_node, elem("a", AttrMap::new(), vec![elem("b", AttrMap::new(), vec![])]));
}

#[test]
fn entities_in_three_passes() {
    // "&amp;lt;" becomes "&lt;": the ampersand pass comes last
    let mut doc = load_doc_from_bytestring(b"<a>&amp;lt; &lt;&lt;</a>");
    expand_entities(&mut doc);
    assert_eq!(doc.root_node, elem("a", AttrMap::new(), vec![text("&lt; <<")]));
}
