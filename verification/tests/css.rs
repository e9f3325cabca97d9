use browser_engine::css::{
    parse_decimal, sort_by_specificity, specificity_less, Color, CssError, Declaration, Parser,
    Rule, Selector, SimpleSelector, Stylesheet, Unit, Value,
};

fn parse(source: &str) -> Stylesheet {
    Parser::parse(source.to_string()).expect("the style sheet parses")
}

fn simple(tag: Option<&str>, id: Option<&str>, classes: &[&str]) -> Selector {
    Selector::Simple(SimpleSelector {
        tag_name: tag.map(|s| s.to_string()),
        id: id.map(|s| s.to_string()),
        classes: classes.iter().map(|s| s.to_string()).collect(),
    })
}

fn decl(name: &str, value: Value) -> Declaration {
    Declaration { name: name.to_string(), value }
}

#[test]
fn specificity_is_id_classes_tag() {
    assert_eq!(simple(None, None, &[]).specificity(), (0, 0, 0));
    assert_eq!(simple(Some("div"), None, &[]).specificity(), (0, 0, 1));
    assert_eq!(simple(None, None, &["a", "b", "a"]).specificity(), (0, 3, 0));
    assert_eq!(simple(Some("p"), Some("x"), &["c"]).specificity(), (1, 1, 1));
}

#[test]
fn specificity_is_compared_component_by_component() {
    assert!(specificity_less((0, 9, 9), (1, 0, 0)));
    assert!(specificity_less((0, 1, 1), (0, 2, 0)));
    assert!(specificity_less((0, 1, 0), (0, 1, 1)));
    assert!(!specificity_less((1, 0, 0), (1, 0, 0)));
    assert!(!specificity_less((1, 0, 0), (0, 5, 1)));
}

#[test]
fn one_rule() {
    let sheet = parse("div { width: 100px; height: 50px; background: #ff0000; }");
    assert_eq!(
        sheet,
        Stylesheet {
            rules: vec![Rule {
                selectors: vec![simple(Some("div"), None, &[])],
                declarations: vec![
                    decl("width", Value::Length(100_000, Unit::Px)),
                    decl("height", Value::Length(50_000, Unit::Px)),
                    decl("background", Value::Color(Color { r: 255, g: 0, b: 0, a: 255 })),
                ],
            }],
        }
    );
}

#[test]
fn empty_sheet_has_no_rules() {
    assert_eq!(parse("").rules.len(), 0);
    assert_eq!(parse(" \n\t ").rules.len(), 0);
}

#[test]
fn rules_keep_source_order() {
    let sheet = parse("#x { color: #ff0000; } .c { color: #00ff00; } div { color: #0000ff; }");
    assert_eq!(sheet.rules.len(), 3);
    assert_eq!(sheet.rules[0].selectors, vec![simple(None, Some("x"), &[])]);
    assert_eq!(sheet.rules[1].selectors, vec![simple(None, None, &["c"])]);
    assert_eq!(sheet.rules[2].selectors, vec![simple(Some("div"), None, &[])]);
}

#[test]
fn selectors_are_sorted_by_descending_specificity() {
    let sheet = parse("p, .a, #x, div.b, * { }");
    assert_eq!(
        sheet.rules[0].selectors,
        vec![
            simple(None, Some("x"), &[]),
            simple(Some("div"), None, &["b"]),
            simple(None, None, &["a"]),
            simple(Some("p"), None, &[]),
            simple(None, None, &[]),
        ]
    );
}

#[test]
fn selectors_of_equal_specificity_keep_source_order() {
    let sheet = parse("b, a, .y, c, .x { }");
    assert_eq!(
        sheet.rules[0].selectors,
        vec![
            simple(None, None, &["y"]),
            simple(None, None, &["x"]),
            simple(Some("b"), None, &[]),
            simple(Some("a"), None, &[]),
            simple(Some("c"), None, &[]),
        ]
    );
}

#[test]
fn sort_by_specificity_orders_a_list() {
    let sorted = sort_by_specificity(vec![
        simple(Some("p"), None, &[]),
        simple(None, Some("i"), &[]),
        simple(Some("q"), None, &[]),
    ]);
    assert_eq!(
        sorted,
        vec![simple(None, Some("i"), &[]), simple(Some("p"), None, &[]), simple(Some("q"), None, &[])]
    );
}

#[test]
fn simple_selector_parts_in_any_order() {
    let sheet = parse(".a#x*div.b { }");
    assert_eq!(sheet.rules[0].selectors, vec![simple(Some("div"), Some("x"), &["a", "b"])]);
}

#[test]
fn later_tag_or_id_replaces_earlier_one() {
    let sheet = parse("#x#y { }");
    assert_eq!(sheet.rules[0].selectors, vec![simple(None, Some("y"), &[])]);
}

#[test]
fn values_are_keywords_lengths_and_colors() {
    let sheet = parse("a{display:block;margin:auto;width:12.5px;color:#0a1B2c;}");
    assert_eq!(
        sheet.rules[0].declarations,
        vec![
            decl("display", Value::Keyword("block".to_string())),
            decl("margin", Value::Keyword("auto".to_string())),
            decl("width", Value::Length(12_500, Unit::Px)),
            decl("color", Value::Color(Color { r: 10, g: 27, b: 44, a: 255 })),
        ]
    );
}

#[test]
fn unit_is_case_insensitive() {
    let sheet = parse("a { width: 1PX; height: 2Px; margin: 3pX; }");
    assert_eq!(
        sheet.rules[0].declarations,
        vec![
            decl("width", Value::Length(1_000, Unit::Px)),
            decl("height", Value::Length(2_000, Unit::Px)),
            decl("margin", Value::Length(3_000, Unit::Px)),
        ]
    );
}

#[test]
fn numbers_are_read_in_thousandths() {
    let digits = |s: &str| parse_decimal(&s.chars().collect());
    assert_eq!(digits("0"), Ok(0));
    assert_eq!(digits("7"), Ok(7_000));
    assert_eq!(digits("007"), Ok(7_000));
    assert_eq!(digits("1."), Ok(1_000));
    assert_eq!(digits("1.5"), Ok(1_500));
    assert_eq!(digits("0.25"), Ok(250));
    assert_eq!(digits("0.125"), Ok(125));
    assert_eq!(digits("0.1239"), Ok(123));
    assert_eq!(digits("12.0004"), Ok(12_000));
    assert_eq!(digits("9223372036854775.807"), Ok(i64::MAX));
}

#[test]
fn number_with_two_points_is_invalid() {
    let digits = |s: &str| parse_decimal(&s.chars().collect());
    assert_eq!(digits("1.2.3"), Err(CssError::InvalidNumber));
    assert_eq!(digits("1..2"), Err(CssError::InvalidNumber));
    assert_eq!(digits("99999999999999999999999.1.1"), Err(CssError::InvalidNumber));
    assert_eq!(
        Parser::parse("a { width: 1.2.3px; }".to_string()).err(),
        Some(CssError::InvalidNumber)
    );
}

#[test]
fn number_beyond_the_range_is_rejected() {
    let digits = |s: &str| parse_decimal(&s.chars().collect());
    assert_eq!(digits("9223372036854775.808"), Err(CssError::NumberTooLarge));
    assert_eq!(digits("9223372036854776"), Err(CssError::NumberTooLarge));
    assert_eq!(digits("100000000000000000000000000000"), Err(CssError::NumberTooLarge));
    assert_eq!(
        Parser::parse("a { width: 99999999999999999999px; }".to_string()).err(),
        Some(CssError::NumberTooLarge)
    );
}

#[test]
fn unknown_unit_is_rejected() {
    assert_eq!(Parser::parse("a { width: 1em; }".to_string()).err(), Some(CssError::UnknownUnit));
    assert_eq!(Parser::parse("a { width: 1; }".to_string()).err(), Some(CssError::UnknownUnit));
    assert_eq!(Parser::parse("a { width: 1pxx; }".to_string()).err(), Some(CssError::UnknownUnit));
}

#[test]
fn malformed_color_is_rejected() {
    assert_eq!(Parser::parse("a { color: #ff00; }".to_string()).err(), Some(CssError::InvalidColor));
    assert_eq!(
        Parser::parse("a { color: #gg0000; }".to_string()).err(),
        Some(CssError::InvalidColor)
    );
    assert_eq!(
        Parser::parse("a { color: #+f0000; }".to_string()).err(),
        Some(CssError::InvalidColor)
    );
    assert_eq!(Parser::parse("a { color: #ff".to_string()).err(), Some(CssError::InvalidColor));
}

#[test]
fn missing_delimiters_are_rejected() {
    assert_eq!(Parser::parse("a { color red; }".to_string()).err(), Some(CssError::MissingColon));
    assert_eq!(
        Parser::parse("a { color: red }".to_string()).err(),
        Some(CssError::MissingSemicolon)
    );
    assert_eq!(Parser::parse("a b { }".to_string()).err(), Some(CssError::InvalidSelector));
    assert_eq!(Parser::parse("a > b { }".to_string()).err(), Some(CssError::InvalidSelector));
}

#[test]
fn end_of_text_inside_a_rule_is_rejected() {
    assert_eq!(Parser::parse("a".to_string()).err(), Some(CssError::UnexpectedEof));
    assert_eq!(Parser::parse("a,".to_string()).err(), Some(CssError::UnexpectedEof));
    assert_eq!(Parser::parse("a {".to_string()).err(), Some(CssError::UnexpectedEof));
    assert_eq!(Parser::parse("a { color".to_string()).err(), Some(CssError::UnexpectedEof));
    assert_eq!(Parser::parse("a { color:".to_string()).err(), Some(CssError::UnexpectedEof));
    assert_eq!(Parser::parse("a { color: red".to_string()).err(), Some(CssError::UnexpectedEof));
    assert_eq!(Parser::parse("a { color: red;".to_string()).err(), Some(CssError::UnexpectedEof));
}

#[test]
fn values_convert_to_lengths() {
    assert_eq!(Value::Length(1_500, Unit::Px).to_px(), 1_500);
    assert_eq!(Value::Length(-20, Unit::Px).to_px(), -20);
    assert_eq!(Value::Keyword("auto".to_string()).to_px(), 0);
    assert_eq!(Value::Color(Color { r: 1, g: 2, b: 3, a: 4 }).to_px(), 0);
    assert!(Value::Keyword("auto".to_string()).is_keyword("auto"));
    assert!(!Value::Keyword("auto".to_string()).is_keyword("none"));
    assert!(!Value::Length(0, Unit::Px).is_keyword("auto"));
}

#[test]
fn color_is_written_in_hexadecimal() {
    assert_eq!(Color { r: 0, g: 0, b: 238, a: 255 }.to_hex_string(), "#0000ee");
    assert_eq!(Color { r: 255, g: 160, b: 9, a: 0 }.to_hex_string(), "#ffa009");
}

#[test]
fn value_clone_is_equal() {
    let v = Value::Keyword("block".to_string());
    assert_eq!(v.clone(), v);
}
