use rust_minibrowser::css::rules::parse_stylesheet_from_bytestring;
use rust_minibrowser::dom::parser::load_doc_from_bytestring;
use rust_minibrowser::fonts::{font_face_requests, FontFace, UnreadableSource};
use rust_minibrowser::net::sheets::{
    imports_are_readable, imports_of, inline_style_text, linked_stylesheet_href, StylesheetSet,
};
use rust_minibrowser::net::urls::{calculate_url_from_doc, image_source, ImageSource, ImageSourceError, UrlParseError};

#[test]
fn urls_resolve_against_the_document() {
    let doc = load_doc_from_bytestring(b"<html></html>");
    assert_eq!(calculate_url_from_doc(&doc, "tufte.css"), Ok("https://www.mozilla.org/tufte.css".to_string()));
    assert_eq!(
        calculate_url_from_doc(&doc, "/a/../b.png"),
        Ok("https://www.mozilla.org/b.png".to_string())
    );
    assert_eq!(
        calculate_url_from_doc(&doc, "http://example.com/x"),
        Ok("http://example.com/x".to_string())
    );
    let mut bad = load_doc_from_bytestring(b"<html></html>");
    bad.base_url = "not a url".to_string();
    assert_eq!(
        calculate_url_from_doc(&bad, "x.css"),
        Err(UrlParseError::RelativeUrlWithoutBase)
    );
    assert_eq!(calculate_url_from_doc(&doc, "http://[::1"), Err(UrlParseError::InvalidIpv6Address));
    assert_eq!(calculate_url_from_doc(&doc, "http://a.com:99999/"), Err(UrlParseError::InvalidPort));
}

#[test]
fn imports_in_order() {
    let ss = parse_stylesheet_from_bytestring(
        b"@import url(http://a.com/one.css);@import url(http://b.com/two.css);p { color: red; }",
    );
    assert!(imports_are_readable(&ss));
    assert_eq!(imports_of(&ss), vec!["http://a.com/one.css".to_string(), "http://b.com/two.css".to_string()]);
    // an `@import` after white space is read as a plain at-rule, which imports nothing
    let spaced = parse_stylesheet_from_bytestring(b"@import url(http://a.com/one.css);\n@import url(http://b.com/two.css);");
    assert_eq!(imports_of(&spaced), vec!["http://a.com/one.css".to_string()]);
    let plain = parse_stylesheet_from_bytestring(b"p { color: red; }");
    assert!(imports_of(&plain).is_empty());
}

#[test]
fn linked_and_inline_sheets() {
    let doc = load_doc_from_bytestring(
        br#"<html><head><link rel="stylesheet" href="tufte.css"/><style>p { color: red; }</style></head></html>"#,
    );
    assert_eq!(linked_stylesheet_href(&doc), Some("tufte.css".to_string()));
    assert_eq!(inline_style_text(&doc), Some("p { color: red; }".to_string()));
    let other = load_doc_from_bytestring(br#"<html><link rel="icon" href="x.ico"/><style></style></html>"#);
    assert_eq!(linked_stylesheet_href(&other), None);
    assert_eq!(inline_style_text(&other), None);
}

#[test]
fn font_faces_with_truetype_sources() {
    let mut ss = parse_stylesheet_from_bytestring(
        b"@font-face { font-family: \"et-book\"; src: url(\"et-book/roman.eot\"); src: url(\"et-book/roman.TTF\"); font-weight: normal; }\n@font-face { font-family: \"x\"; src: url(\"x.woff\"); font-weight: bold; }",
    );
    ss.base_url = "https://example.com/css/".to_string();
    assert_eq!(
        font_face_requests(&ss),
        Ok(vec![FontFace {
            family: "et-book".to_string(),
            url: "https://example.com/css/et-book/roman.TTF".to_string(),
            weight: 400,
        }])
    );
    let broken = parse_stylesheet_from_bytestring(b"@font-face { src: foo(); }");
    assert_eq!(font_face_requests(&broken), Err(UnreadableSource));
}

#[test]
fn sheets_accumulate() {
    let mut set = StylesheetSet::new();
    set.append(parse_stylesheet_from_bytestring(b"a { b: c; }"));
    set.append(parse_stylesheet_from_bytestring(b""));
    assert_eq!(set.stylesheets.len(), 2);
    assert_eq!(set.stylesheets[0].rules.len(), 1);
}

#[test]
fn images_come_from_disk_or_the_network() {
    let doc = load_doc_from_bytestring(b"<html></html>");
    assert_eq!(image_source(&doc, "a.png"), Ok(ImageSource::Net("https://www.mozilla.org/a.png".to_string())));
    let mut local = load_doc_from_bytestring(b"<html></html>");
    local.base_url = "file:///tmp/pages/p.html".to_string();
    assert_eq!(image_source(&local, "img/dot.png"), Ok(ImageSource::File("/tmp/pages/img/dot.png".to_string())));
    let mut bad = load_doc_from_bytestring(b"<html></html>");
    bad.base_url = "not a url".to_string();
    assert_eq!(
        image_source(&bad, "x.png"),
        Err(ImageSourceError::Unresolved(UrlParseError::RelativeUrlWithoutBase))
    );
}
