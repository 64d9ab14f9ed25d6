use rust_minibrowser::dom::model::{text, AttrMap, ElementData, Node, NodeType};
use rust_minibrowser::dom::parser::{load_doc_from_buffer, load_doc_from_bytestring};
use rust_minibrowser::css::color::{named_colors_from_json, string_members, ColorTableError, BadColor};
use rust_minibrowser::css::model::Color;
use rust_minibrowser::dom::parser::{iseq, IseqError};
use rust_minibrowser::image::{img_to_loaded_image, load_image_from_buffer, load_image_from_file_bytes, ImageDecodeError};
use rust_minibrowser::style::props::PropertyMap;
use rust_minibrowser::style::tree::StyledTree;
use rust_minibrowser::css::model::Value;

const PNG_1X1: [u8; 67] = [
    0x89, 0x50, 0x4e, 0x47, 0x0d, 0x0a, 0x1a, 0x0a, 0x00, 0x00, 0x00, 0x0d, 0x49, 0x48, 0x44, 0x52,
    0x00, 0x00, 0x00, 0x01, 0x00, 0x00, 0x00, 0x01, 0x08, 0x06, 0x00, 0x00, 0x00, 0x1f, 0x15, 0xc4,
    0x89, 0x00, 0x00, 0x00, 0x0a, 0x49, 0x44, 0x41, 0x54, 0x78, 0x9c, 0x63, 0x00, 0x01, 0x00, 0x00,
    0x05, 0x00, 0x01, 0x0d, 0x0a, 0x2d, 0xb4, 0x00, 0x00, 0x00, 0x00, 0x49, 0x45, 0x4e, 0x44, 0xae,
    0x42, 0x60, 0x82,
];

#[test]
fn images_decode_from_bytes() {
    let img = load_image_from_buffer(PNG_1X1.to_vec()).unwrap();
    assert_eq!((img.width, img.height), (1, 1));
    assert_eq!(img.pixels, vec![0, 0, 0, 0]);
    assert_eq!(img.path, "none");
    assert_eq!(load_image_from_buffer(b"not an image".to_vec()).unwrap_err(), ImageDecodeError);
}

#[test]
fn image_sizes_convert_as_casts_do() {
    let img = img_to_loaded_image(3_000_000_000, 2, vec![], "p".to_string());
    assert_eq!(img.width, 3_000_000_000u32 as i32);
    assert_eq!(img.height, 2);
    assert_eq!(img.path, "p");
}

#[test]
fn case_insensitive_match() {
    assert_eq!(iseq(b"<!doctype html>", 0, b"<!DOCTYPE"), Ok(9));
    assert_eq!(iseq(b"xx<!DocType", 2, b"<!DOCTYPE"), Ok(11));
    assert_eq!(iseq(b"<!DOCTYP", 0, b"<!DOCTYPE"), Err(IseqError::Incomplete));
    assert_eq!(iseq(b"<!DOCTYPX", 0, b"<!DOCTYPE"), Err(IseqError::Mismatch(8)));
    assert_eq!(iseq(b"xx<!DOCX", 2, b"<!DOCTYPE"), Err(IseqError::Mismatch(7)));
    assert_eq!(iseq(b"abc", 3, b""), Ok(3));
}

#[test]
fn text_nodes() {
    assert_eq!(text("hi".to_string()), Node { node_type: NodeType::Text("hi".to_string()), children: vec![] });
}

#[test]
fn styled_tree_by_hand() {
    let mut tree = StyledTree::new();
    assert_eq!(tree.root.node.node_type, NodeType::Comment("comment".to_string()));
    let mut values = PropertyMap::new();
    values.insert("color".to_string(), Value::Keyword("red".to_string()));
    let node = Node {
        node_type: NodeType::Element(ElementData { tag_name: "p".to_string(), attributes: AttrMap::new() }),
        children: vec![],
    };
    let mut parent = tree.make_with(node, values, vec![]);
    let child = tree.make();
    tree.append(&mut parent, child);
    assert_eq!(parent.children.len(), 1);
    assert_eq!(parent.value("color"), Some(Value::Keyword("red".to_string())));
    tree.set_root(parent);
    assert_eq!(tree.root.children[0].node.node_type, NodeType::Comment("comment".to_string()));
}

#[test]
fn file_images_decode_by_their_extension() {
    let img = load_image_from_file_bytes(PNG_1X1.to_vec(), "dot.png".to_string()).unwrap();
    assert_eq!((img.width, img.height), (1, 1));
    assert_eq!(img.pixels, vec![0, 0, 0, 0]);
    assert_eq!(img.path, "dot.png");
    assert_eq!(load_image_from_file_bytes(PNG_1X1.to_vec(), "dot.txt".to_string()).unwrap_err(), ImageDecodeError);
    assert_eq!(load_image_from_file_bytes(PNG_1X1.to_vec(), "dot.jpg".to_string()).unwrap_err(), ImageDecodeError);
    assert_eq!(load_image_from_file_bytes(b"not a png".to_vec(), "dot.png".to_string()).unwrap_err(), ImageDecodeError);
}

#[test]
fn colour_tables_read_from_json() {
    let t = named_colors_from_json(br##"{"red": "#ff0000", "count": 3, "aqua": "#00ffff"}"##).unwrap();
    assert_eq!(t.get("red"), Some(Color { r: 255, g: 0, b: 0, a: 255 }));
    assert_eq!(t.get("aqua"), Some(Color { r: 0, g: 255, b: 255, a: 255 }));
    assert_eq!(t.get("count"), None);
    let empty = named_colors_from_json(b"[1, 2]").unwrap();
    assert_eq!(empty.get("red"), None);
    assert_eq!(named_colors_from_json(b"{not json").unwrap_err(), ColorTableError::NotJson);
    assert_eq!(
        named_colors_from_json(br#"{"bad": "zz"}"#).unwrap_err(),
        ColorTableError::BadColor(BadColor { name: "bad".to_string() })
    );
}

#[test]
fn only_string_members_are_kept() {
    let ms = vec![
        ("a".to_string(), Some("1".to_string())),
        ("b".to_string(), None),
        ("c".to_string(), Some("3".to_string())),
    ];
    assert_eq!(string_members(&ms), vec![("a".to_string(), "1".to_string()), ("c".to_string(), "3".to_string())]);
}

#[test]
fn attribute_maps_count_names_and_compare_as_maps() {
    let mut a = AttrMap::new();
    a.insert("x".to_string(), "1".to_string());
    a.insert("y".to_string(), "2".to_string());
    a.insert("x".to_string(), "3".to_string());
    assert_eq!(a.len(), 2);
    assert_eq!(a.get("x"), Some(&"3".to_string()));
    let mut b = AttrMap::new();
    b.insert("y".to_string(), "2".to_string());
    b.insert("x".to_string(), "3".to_string());
    assert!(a == b);
    let mut c = AttrMap::new();
    c.insert("y".to_string(), "2".to_string());
    c.insert("x".to_string(), "1".to_string());
    assert!(a != c);
    let mut d = AttrMap::new();
    d.insert("y".to_string(), "2".to_string());
    assert!(a != d);
    assert_eq!(AttrMap::new().len(), 0);
}

#[test]
fn both_document_readers_agree() {
    let v = b"<html><body class='a'><p id=x>hi</p></body></html>".to_vec();
    assert_eq!(load_doc_from_buffer(v.clone()), load_doc_from_bytestring(v.as_slice()));
}
