use rust_minibrowser::css::lexical::{hexcolor, identifier, keyword, length_unit, number, string_literal, unit};
use rust_minibrowser::css::model::{
    star, AncestorSelector, AtRule, ColorProps, Declaration, Decimal, FunCallValue, Rule, RuleType,
    Selector, SimpleSelector, Stylesheet, Unit, Value,
};
use rust_minibrowser::css::rules::{
    at_rule, comment, import_rule, parse_stylesheet_from_buffer, read_stylesheet, rule, selector,
};
use rust_minibrowser::css::values::{array_value, declaration, funcall, list_array_value, one_value, value};
use rust_minibrowser::text::Outcome;

fn ok<T>(o: Outcome<T>) -> Result<T, ()> {
    match o {
        Outcome::Done(v, _) => Ok(v),
        _ => Err(()),
    }
}

fn dec(text: &str) -> Decimal {
    let (neg, rest) = match text.strip_prefix('-') {
        Some(r) => (true, r),
        None => (false, text),
    };
    let (i, f) = match rest.find('.') {
        Some(k) => (&rest[..k], &rest[k + 1..]),
        None => (rest, ""),
    };
    let ints: Vec<u8> = i.bytes().map(|b| b - b'0').collect();
    let fracs: Vec<u8> = f.bytes().map(|b| b - b'0').collect();
    Decimal::new(neg, &ints, &fracs)
}

fn length(text: &str, u: Unit) -> Value {
    Value::Length(dec(text), u)
}

fn kw(s: &str) -> Value {
    Value::Keyword(s.to_string())
}

fn hex(s: &str) -> Value {
    Value::HexColor(s.to_string())
}

fn tag(s: &str) -> Selector {
    Selector::Simple(SimpleSelector { tag_name: Some(s.to_string()), id: None, class: vec![] })
}

fn decl(name: &str, value: Value) -> Declaration {
    Declaration { name: name.to_string(), value }
}

fn fun(name: &str, arguments: Vec<Value>) -> Value {
    Value::FunCall(FunCallValue { name: name.to_string(), arguments })
}

fn sheet(rules: Vec<RuleType>) -> Stylesheet {
    Stylesheet { rules, parent: None, base_url: "https://www.mozilla.com/".to_string() }
}

fn array2(s: &[u8]) -> Result<Value, ()> {
    ok(array_value(s, 0, 1))
}

fn array3(s: &[u8]) -> Result<Value, ()> {
    ok(array_value(s, 0, 2))
}

#[test]
fn test_string_literal() {
    assert_eq!(ok(string_literal(br#""foo""#, 0)), Ok(Value::StringLiteral(String::from("foo"))));
}

#[test]
fn test_selectors() {
    assert_eq!(ok(selector(b"div", 0)), Ok(tag("div")));
    assert_eq!(ok(selector(b"h3", 0)), Ok(tag("h3")));
    assert_eq!(
        ok(selector(b".cool", 0)),
        Ok(Selector::Simple(SimpleSelector { tag_name: None, id: None, class: vec![String::from("cool")] }))
    );
}

#[test]
fn test_ancestor_selector() {
    assert_eq!(
        ok(selector(b"a b", 0)),
        Ok(Selector::Ancestor(AncestorSelector { ancestor: Box::new(tag("a")), child: Box::new(tag("b")) }))
    );
}

#[test]
fn test_all_selector() {
    let result = ok(selector(br#"*"#, 0));
    println!("{:?}", result);
    assert_eq!(tag("*"), result.unwrap())
}

#[test]
fn test_identifier() {
    let input = br"bar";
    println!("{:?}", identifier(input, 0));
}

#[test]
fn test_unit() {
    assert_eq!(ok(unit(b"px", 0)), Ok(Unit::Px));
    assert_eq!(ok(unit(b"em", 0)), Ok(Unit::Em));
}

#[test]
fn test_length_units() {
    assert_eq!(ok(length_unit(br"3px", 0)), Ok(length("3.0", Unit::Px)));
    assert_eq!(ok(length_unit(br"3em", 0)), Ok(length("3.0", Unit::Em)));
    assert_eq!(ok(length_unit(br"0.3em", 0)), Ok(length("0.3", Unit::Em)));
    assert_eq!(ok(length_unit(br".3em", 0)), Ok(length("0.3", Unit::Em)));
}

#[test]
fn test_funcall_value() {
    assert_eq!(ok(funcall(br"foo()", 0)), Ok(fun("foo", vec![])));
    assert_eq!(ok(funcall(br"foo(keyword, keyword)", 0)), Ok(fun("foo", vec![kw("keyword"), kw("keyword")])));
    assert_eq!(ok(funcall(br"foo(#fffff8,#fffff8)", 0)), Ok(fun("foo", vec![hex("#fffff8"), hex("#fffff8")])));
    assert_eq!(ok(funcall(br" foo ( #fffff8 , #fffff8 ) ", 0)), Ok(fun("foo", vec![hex("#fffff8"), hex("#fffff8")])));
    assert_eq!(
        ok(funcall(br" linear-gradient ( #fffff8 , #fffff8 ) ", 0)),
        Ok(fun("linear-gradient", vec![hex("#fffff8"), hex("#fffff8")]))
    );
    assert_eq!(
        ok(declaration(br"foo:linear-gradient(#fffff8,#fffff8);", 0)),
        Ok(decl("foo", fun("linear-gradient", vec![hex("#fffff8"), hex("#fffff8")])))
    );
    assert_eq!(
        ok(declaration(br#"foo:url("https://www.google.com/");"#, 0)),
        Ok(decl("foo", fun("url", vec![Value::StringLiteral(String::from("https://www.google.com/"))])))
    );
    assert_eq!(
        ok(declaration(br"foo:url('https://www.google.com/');", 0)),
        Ok(decl("foo", fun("url", vec![Value::StringLiteral(String::from("https://www.google.com/"))])))
    );
    assert_eq!(
        ok(declaration(br"foo:url(https://www.google.com/);", 0)),
        Ok(decl("foo", fun("url", vec![Value::StringLiteral(String::from("https://www.google.com/"))])))
    );
}

#[test]
fn test_hexcolor() {
    let result = ok(hexcolor(br"#4455fF", 0));
    println!("{:?}", result);
    assert_eq!(Value::HexColor("#4455FF".to_lowercase()), result.unwrap());
    assert_eq!(Ok(Value::HexColor("#333".to_lowercase())), ok(hexcolor(br"#333", 0)));
}

#[test]
fn test_keyword() {
    println!("{:#?}", keyword(br"black", 0))
}

#[test]
fn test_keyword_dash() {
    let result = ok(keyword(b"inline-block", 0));
    println!("{:?}", result);
    assert_eq!(Value::Keyword("inline-block".to_lowercase()), result.unwrap());
}

#[test]
fn test_unicode_codepoint() {
    assert_eq!(ok(one_value(b"U+0100", 0)), Ok(Value::UnicodeCodepoint(0x100)));
    assert_eq!(ok(one_value(b" U+0100", 0)), Ok(Value::UnicodeCodepoint(0x100)));
}

#[test]
fn test_unicode_range() {
    assert_eq!(ok(one_value(b"U+0100-024F", 0)), Ok(Value::UnicodeRange(0x100, 0x24f)));
}

#[test]
fn test_list_array_values() {
    assert_eq!(array2(b"3px 4px"), Ok(Value::ArrayValue(vec![length("3", Unit::Px), length("4", Unit::Px)])));
    assert_eq!(array2(b"3em 4.0rem"), Ok(Value::ArrayValue(vec![length("3", Unit::Em), length("4", Unit::Rem)])));
    assert_eq!(array2(b"0.3em 0.4rem"), Ok(Value::ArrayValue(vec![length("0.3", Unit::Em), length("0.4", Unit::Rem)])));
    assert_eq!(array2(b".3em 0.4rem"), Ok(Value::ArrayValue(vec![length("0.3", Unit::Em), length("0.4", Unit::Rem)])));
    assert_eq!(array3(b"1px solid black"), Ok(Value::ArrayValue(vec![length("1", Unit::Px), kw("solid"), kw("black")])));
    assert_eq!(
        array3(b"1px solid #cccccc"),
        Ok(Value::ArrayValue(vec![length("1", Unit::Px), kw("solid"), hex("#cccccc")]))
    );
    assert_eq!(
        ok(value(b"1px solid #cccccc", 0)),
        Ok(Value::ArrayValue(vec![length("1", Unit::Px), kw("solid"), hex("#cccccc")]))
    );
}

#[test]
fn test_prop_def() {
    println!("{:?}", declaration(br#"border:black;"#, 0))
}

#[test]
fn test_prop_def2() {
    println!("{:?}", declaration(b"border-color:black;", 0))
}

#[test]
fn test_prop_def3() {
    println!("{:?}", declaration(b"border-width:1px;", 0))
}

#[test]
fn test_prop_def4() {
    let input = b"border-color:#ff00aa;";
    let result = ok(declaration(input, 0));
    println!("{:?}", result);
    assert_eq!(decl("border-color", Value::HexColor("#ff00aa".to_lowercase())), result.unwrap());
}

#[test]
fn test_comment() {
    assert_eq!(ok(comment(b"/* a cool comment */", 0)), Ok(RuleType::Comment(String::from(" a cool comment "))));
}

#[test]
fn test_rule() {
    println!("{:#?}", rule(b"div { border-width:1px; }", 0))
}

#[test]
fn test_stylesheet() {
    println!("{:#?}", read_stylesheet(b"div { border-width:1px; } .cool { color: red; }"))
}

#[test]
fn test_font_style() {
    println!("{:#?}", read_stylesheet(b"div { font-size: 18px; }"))
}

#[test]
fn test_import_rule() {
    let input = br#"@import url(http://fonts.googleapis.com/css?family=Lato);"#;
    let expected = RuleType::AtRule(AtRule {
        name: "import".to_string(),
        value: Some(fun("url", vec![Value::StringLiteral(String::from("http://fonts.googleapis.com/css?family=Lato"))])),
        rules: vec![],
    });
    assert_eq!(ok(import_rule(input, 0)), Ok(expected));
    let expected = RuleType::AtRule(AtRule {
        name: "import".to_string(),
        value: Some(fun("url", vec![Value::StringLiteral(String::from("http://fonts.googleapis.com/css?family=Lato"))])),
        rules: vec![],
    });
    assert_eq!(read_stylesheet(input), Ok(sheet(vec![expected])));
}

#[test]
fn test_atrules() {
    assert_eq!(
        ok(at_rule(br#"@charset "UTF-8";"#, 0)),
        Ok(RuleType::AtRule(AtRule {
            name: String::from("charset"),
            value: Some(Value::StringLiteral(String::from("UTF-8"))),
            rules: vec![]
        })),
    );
    assert_eq!(
        ok(at_rule(br#"@page { size: letter; margin: 1in;  }"#, 0)),
        Ok(RuleType::AtRule(AtRule {
            name: String::from("page"),
            value: None,
            rules: vec![RuleType::Rule(Rule {
                selectors: vec![],
                declarations: vec![
                    decl("size", kw("letter")),
                    decl("margin", Value::ArrayValue(vec![Value::Number(dec("1")), kw("in")])),
                ]
            })]
        })),
    );
    assert_eq!(
        ok(at_rule(br#"@media screen { body { margin: 3em; }}"#, 0)),
        Ok(RuleType::AtRule(AtRule { name: String::from("media"), value: None, rules: vec![] }))
    );
    assert_eq!(
        read_stylesheet(
            br#"@charset "UTF-8";
/*foo*/
@font-face {
}
"#
        ),
        Ok(sheet(vec![
            RuleType::AtRule(AtRule {
                name: "charset".to_string(),
                value: Some(Value::StringLiteral(String::from("UTF-8"))),
                rules: vec![]
            }),
            RuleType::Comment(String::from("foo")),
            RuleType::AtRule(AtRule {
                name: "font-face".to_string(),
                value: None,
                rules: vec![RuleType::Rule(Rule { selectors: vec![], declarations: vec![] })]
            })
        ]))
    );
}

#[test]
fn test_fontface() {
    assert_eq!(Ok(fun("url", vec![Value::StringLiteral(String::from("foo"))])), ok(funcall(br#"url("foo")"#, 0)));
    let eot = "et-book/et-book-roman-line-figures/et-book-roman-line-figures.eot";
    assert_eq!(
        Ok(decl("src", fun("url", vec![Value::StringLiteral(String::from(eot))]))),
        ok(declaration(br#"src: url("et-book/et-book-roman-line-figures/et-book-roman-line-figures.eot");"#, 0))
    );
    let input = br#"@font-face {
                font-family: "et-book";
                src: url("et-book/et-book-roman-line-figures/et-book-roman-line-figures.eot");
                font-weight: normal;
                font-style: normal;
                font-display: swap;
            }
            "#;
    let result = read_stylesheet(input.as_ref());
    println!("{:?}", result);
    assert_eq!(
        Ok(sheet(vec![RuleType::AtRule(AtRule {
            name: "font-face".to_string(),
            value: None,
            rules: vec![RuleType::Rule(Rule {
                selectors: vec![],
                declarations: vec![
                    decl("font-family", Value::StringLiteral(String::from("et-book"))),
                    decl("src", fun("url", vec![Value::StringLiteral(String::from(eot))])),
                    decl("font-weight", kw("normal")),
                    decl("font-style", kw("normal")),
                    decl("font-display", kw("swap")),
                ]
            })]
        })])),
        result
    );
}

#[test]
fn test_percentage() {
    assert_eq!(length("100", Unit::Per), ok(length_unit(br"100%", 0)).unwrap());
    assert_eq!(decl("width", length("100", Unit::Per)), ok(declaration(br"width:100%;", 0)).unwrap());
}

#[test]
fn test_rem() {
    assert_eq!(length("40", Unit::Rem), ok(length_unit(br"40rem", 0)).unwrap());
    assert_eq!(length("40", Unit::Rem), ok(length_unit(br"40.0rem", 0)).unwrap());
    assert_eq!(decl("width", length("99.90", Unit::Rem)), ok(declaration(br"width:99.9rem;", 0)).unwrap());
}

#[test]
fn test_multiple_selectors() {
    let answer = || {
        RuleType::Rule(Rule { selectors: vec![tag("a"), tag("b")], declarations: vec![decl("foo", kw("bar"))] })
    };
    assert_eq!(answer(), ok(rule(br"a,b { foo: bar; }", 0)).unwrap());
    assert_eq!(answer(), ok(rule(br" a , b{ foo: bar; }", 0)).unwrap());
}

#[test]
fn test_child_selector() {
    let _input = br"a > b { foo: bar; }";
}

#[test]
fn test_simple_pseudo_selector() {
    let _input = br"a:hover { foo: bar; }";
}

#[test]
fn test_not_pseudo_selector() {
    let _input = br"li:not(:first-child) { foo: bar; }";
}

#[test]
fn test_four_part_margin() {
    println!("parsed {:#?}", value(b"1px 2px 3px 4px", 0));
    let answer = decl(
        "margin",
        Value::ArrayValue(vec![length("1", Unit::Px), length("2", Unit::Px), length("3", Unit::Px), length("4", Unit::Px)]),
    );
    assert_eq!(answer, ok(declaration(b"margin: 1px 2px 3px 4px;", 0)).unwrap());
    let answer = decl(
        "margin",
        Value::ArrayValue(vec![length("1", Unit::Px), length("2", Unit::Px), length("3", Unit::Px), length("4", Unit::Em)]),
    );
    assert_eq!(answer, ok(declaration(b"margin: 1px 2px 3px 4em;", 0)).unwrap());
}

#[test]
fn test_two_part_margin() {
    println!("parsed {:#?}", array2(b"1px 2px"));
    let answer = decl("margin", Value::ArrayValue(vec![length("1", Unit::Px), length("2", Unit::Px)]));
    assert_eq!(answer, ok(declaration(b"margin: 1px 2px;", 0)).unwrap());
}

#[test]
fn test_one_part_margin() {
    let answer = decl("margin", length("1", Unit::Px));
    assert_eq!(answer, ok(declaration(b"margin: 1px;", 0)).unwrap());
}

#[test]
fn test_funcall_dec() {
    assert_eq!(
        decl("background", fun("linear-gradient", vec![hex("#fffff8"), hex("#fffff8")])),
        ok(declaration(b"background: linear-gradient(#fffff8, #fffff8);", 0)).unwrap()
    )
}

#[test]
fn test_linear_gradient() {
    assert_eq!(
        Ok(decl(
            "background",
            Value::ArrayValue(vec![
                fun("linear-gradient", vec![hex("#fffff8"), hex("#fffff8")]),
                fun("linear-gradient", vec![hex("#fffff8"), hex("#fffff8")]),
                fun("linear-gradient", vec![kw("currentColor"), kw("currentColor")]),
            ])
        )),
        ok(declaration(
            br"background: linear-gradient(#fffff8, #fffff8), linear-gradient(#fffff8, #fffff8), linear-gradient(currentColor, currentColor);",
            0
        ))
    );
}

#[test]
fn test_keyword_list() {
    println!("keyword {:#?}", keyword(b"foo", 0));
    println!("list value {:#?}", value(b"foo-bar,baz-zoo", 0));
    let answer = decl("background-repeat", Value::ArrayValue(vec![kw("no-repeat"), kw("no-repeat"), kw("repeat-x")]));
    assert_eq!(answer, ok(declaration(b"background-repeat:no-repeat,no-repeat,repeat-x;", 0)).unwrap());
    assert_eq!(answer, ok(declaration(b"background-repeat: no-repeat, no-repeat, repeat-x;", 0)).unwrap());
}

#[test]
fn mod_test_font_weight() {
    assert_eq!(ok(declaration(br#"font-weight: normal;"#, 0)), Ok(decl("font-weight", kw("normal"))));
    assert_eq!(ok(declaration(br#"font-weight: 400;"#, 0)), Ok(decl("font-weight", Value::Number(dec("400")))));
}

#[test]
fn test_list() {
    let input = b"U+0100-024F, U+0259";
    assert_eq!(
        ok(list_array_value(input, 0)),
        Ok(Value::ArrayValue(vec![Value::UnicodeRange(0x0100, 0x024f), Value::UnicodeCodepoint(0x0259)]))
    )
}

#[test]
fn test_gfonts() {
    let input = br#"
/* latin-ext */
@font-face {
  font-family: 'Lato';
  font-style: normal;
  font-weight: 400;
  src: local('Lato Regular'), local('Lato-Regular'), url(https://fonts.gstatic.com/s/lato/v16/S6uyw4BMUTPHjxAwXiWtFCfQ7A.woff2) format('woff2');
  unicode-range: U+0100-024F, U+0259, U+1E00-1EFF, U+2020, U+20A0-20AB, U+20AD-20CF, U+2113, U+2C60-2C7F, U+A720-A7FF;
}
"#;
    println!("{:#?}", read_stylesheet(input));
}

#[test]
fn star_is_only_the_asterisk() {
    assert!(star(b'*'));
    assert!(!star(b'a'));
    assert!(!star(b'.'));
}

#[test]
fn owned_buffers_parse_like_byte_strings() {
    let sheet = parse_stylesheet_from_buffer(b"a, b { foo: bar; }".to_vec());
    assert_eq!(
        sheet.rules,
        vec![RuleType::Rule(Rule { selectors: vec![tag("a"), tag("b")], declarations: vec![decl("foo", kw("bar"))] })]
    );
    assert!(sheet.parent.is_none());
    assert_eq!(sheet.base_url, "https://www.mozilla.com/");
}

#[test]
fn colour_properties_name_themselves() {
    assert_eq!(ColorProps::color.to_string(), "color");
    assert_eq!(ColorProps::border_color.to_string(), "border-color");
    assert_eq!(ColorProps::background_color.to_string(), "background-color");
}

#[test]
fn numbers_that_denote_the_same_value_are_equal() {
    assert_eq!(ok(number(b"1.50", 0)), ok(number(b"1.5", 0)));
    assert_eq!(ok(number(b"0.5", 0)), ok(number(b".5", 0)));
    assert_eq!(ok(number(b"-0", 0)), ok(number(b"0.0", 0)));
    assert_eq!(ok(number(b"-0.0", 0)), Ok(dec("0")));
    assert_ne!(ok(number(b"1.5", 0)), ok(number(b"15", 0)));
    assert_ne!(ok(number(b"-2", 0)), ok(number(b"2", 0)));
}
