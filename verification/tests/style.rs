use browser_engine::css::{Color, Parser as CssParser, Stylesheet, Unit, Value};
use browser_engine::dom::Node;
use browser_engine::html::Parser as HtmlParser;
use browser_engine::style::{is_block_level, style_tree, Display, StyledNode};

fn dom(source: &str) -> Node {
    HtmlParser::parse(source.to_string()).expect("the document parses")
}

fn sheet(source: &str) -> Stylesheet {
    CssParser::parse(source.to_string()).expect("the style sheet parses")
}

fn color(r: u8, g: u8, b: u8) -> Value {
    Value::Color(Color { r, g, b, a: 255 })
}

#[test]
fn link_is_blue_by_default() {
    let root = dom("<a>x</a>");
    let css = sheet("");
    let styled = style_tree(&root, &css);
    assert_eq!(styled.value("color"), Some(color(0, 0, 0xEE)));
    assert_eq!(styled.children[0].value("color"), Some(color(0, 0, 0xEE)));
}

#[test]
fn h1_is_black_by_default() {
    let root = dom("<h1>x</h1>");
    let css = sheet("");
    let styled = style_tree(&root, &css);
    assert_eq!(styled.value("color"), Some(color(0, 0, 0)));
}

#[test]
fn rule_replaces_the_default_color() {
    let root = dom("<a>x</a>");
    let css = sheet("a { color: #112233; }");
    let styled = style_tree(&root, &css);
    assert_eq!(styled.value("color"), Some(color(0x11, 0x22, 0x33)));
}

#[test]
fn block_tags_get_display_block() {
    let root = dom("<div><span></span></div>");
    let css = sheet("");
    let styled = style_tree(&root, &css);
    assert_eq!(styled.value("display"), Some(Value::Keyword("block".to_string())));
    assert_eq!(styled.children[0].value("display"), None);
}

#[test]
fn id_beats_class_beats_tag() {
    let root = dom("<div id=\"x\" class=\"c\"></div>");
    let css = sheet("#x { color: #ff0000; } .c { color: #00ff00; } div { color: #0000ff; }");
    let styled = style_tree(&root, &css);
    assert_eq!(styled.value("color"), Some(color(0xff, 0, 0)));
}

#[test]
fn specificity_beats_source_order() {
    let root = dom("<div id=\"x\" class=\"c\"></div>");
    let css = sheet("div { color: #0000ff; } #x { color: #ff0000; } .c { color: #00ff00; }");
    let styled = style_tree(&root, &css);
    assert_eq!(styled.value("color"), Some(color(0xff, 0, 0)));
    let css = sheet(".c { color: #00ff00; } div { color: #0000ff; }");
    let styled = style_tree(&root, &css);
    assert_eq!(styled.value("color"), Some(color(0, 0xff, 0)));
}

#[test]
fn equal_specificity_resolves_in_source_order() {
    let root = dom("<div class=\"a b\"></div>");
    let css = sheet(".a { color: #111111; } .b { color: #222222; }");
    let styled = style_tree(&root, &css);
    assert_eq!(styled.value("color"), Some(color(0x22, 0x22, 0x22)));
    let css = sheet(".b { color: #222222; } .a { color: #111111; }");
    let styled = style_tree(&root, &css);
    assert_eq!(styled.value("color"), Some(color(0x11, 0x11, 0x11)));
}

#[test]
fn later_declaration_in_a_rule_wins() {
    let root = dom("<p></p>");
    let css = sheet("p { color: #111111; color: #222222; }");
    let styled = style_tree(&root, &css);
    assert_eq!(styled.value("color"), Some(color(0x22, 0x22, 0x22)));
}

#[test]
fn rule_matches_with_its_first_matching_selector() {
    // `p, .a` is sorted to `.a, p`; the element matches both, and the rule
    // counts with the specificity of `.a`, which beats `.b` by source order.
    let root = dom("<p class=\"a b\"></p>");
    let css = sheet(".b { color: #111111; } p, .a { color: #222222; }");
    let styled = style_tree(&root, &css);
    assert_eq!(styled.value("color"), Some(color(0x22, 0x22, 0x22)));
}

#[test]
fn selector_constraints_must_all_hold() {
    let root = dom("<div id=\"x\" class=\"a b\"></div>");
    let matching = ["div", "#x", ".a", ".b.a", "div#x.a.b", "*"];
    for selector in matching {
        let css = sheet(&format!("{} {{ color: #010203; }}", selector));
        assert_eq!(style_tree(&root, &css).value("color"), Some(color(1, 2, 3)), "{}", selector);
    }
    let failing = ["p", "#y", ".c", ".a.c", "p#x", "div#y", "div.c"];
    for selector in failing {
        let css = sheet(&format!("{} {{ color: #010203; }}", selector));
        assert_eq!(style_tree(&root, &css).value("color"), None, "{}", selector);
    }
}

#[test]
fn color_is_inherited() {
    let root = dom("<div><p>text</p></div>");
    let css = sheet("div { color: #123456; width: 10px; }");
    let styled = style_tree(&root, &css);
    let p = &styled.children[0];
    assert_eq!(p.value("color"), Some(color(0x12, 0x34, 0x56)));
    assert_eq!(p.children[0].value("color"), Some(color(0x12, 0x34, 0x56)));
}

#[test]
fn nothing_but_color_is_inherited() {
    let root = dom("<div><p>text</p></div>");
    let css = sheet("div { color: #123456; width: 10px; background: #ffffff; }");
    let styled = style_tree(&root, &css);
    let p = &styled.children[0];
    assert_eq!(p.value("width"), None);
    assert_eq!(p.value("background"), None);
    assert_eq!(p.children[0].value("width"), None);
}

#[test]
fn own_color_is_not_replaced_by_the_inherited_one() {
    let root = dom("<div><p>text</p></div>");
    let css = sheet("div { color: #123456; } p { color: #654321; }");
    let styled = style_tree(&root, &css);
    assert_eq!(styled.children[0].value("color"), Some(color(0x65, 0x43, 0x21)));
}

#[test]
fn text_has_no_values_of_its_own() {
    let root = dom("<div>text</div>");
    let css = sheet("div { width: 10px; }");
    let styled = style_tree(&root, &css);
    assert_eq!(styled.children[0].specified_values.len(), 0);
}

#[test]
fn styled_tree_mirrors_the_document() {
    let root = dom("<div><p>a</p><p>b</p></div>");
    let css = sheet("");
    let styled = style_tree(&root, &css);
    assert_eq!(styled.children.len(), 2);
    assert_eq!(styled.children[0].children.len(), 1);
    assert!(std::ptr::eq(styled.node, &root));
    assert!(std::ptr::eq(styled.children[1].node, &root.children[1]));
}

fn display_of(html: &str, css: &str) -> Display {
    let root = dom(html);
    let css = sheet(css);
    let styled: StyledNode = style_tree(&root, &css);
    styled.display()
}

#[test]
fn display_follows_the_keyword() {
    assert_eq!(display_of("<span></span>", "span { display: block; }"), Display::Block);
    assert_eq!(display_of("<div></div>", "div { display: none; }"), Display::Omitted);
    assert_eq!(display_of("<div></div>", "div { display: inline; }"), Display::Inline);
    assert_eq!(display_of("<div></div>", "div { display: flex; }"), Display::Inline);
}

#[test]
fn display_defaults_by_tag() {
    for tag in [
        "html", "body", "div", "p", "h1", "h2", "h3", "h4", "h5", "h6", "ul", "ol", "li",
        "header", "footer", "section", "article", "nav", "aside", "main",
    ] {
        assert_eq!(display_of(&format!("<{}></{}>", tag, tag), ""), Display::Block, "{}", tag);
        assert!(is_block_level(tag));
    }
    for tag in ["span", "a", "b", "img", "table", "DIV"] {
        assert_eq!(display_of(&format!("<{}></{}>", tag, tag), ""), Display::Inline, "{}", tag);
        assert!(!is_block_level(tag));
    }
}

#[test]
fn display_that_is_no_keyword_falls_back_to_the_tag() {
    assert_eq!(display_of("<div></div>", "div { display: 5px; }"), Display::Block);
    assert_eq!(display_of("<span></span>", "span { display: #ffffff; }"), Display::Inline);
}

#[test]
fn text_is_inline() {
    let root = dom("<div>text</div>");
    let css = sheet("");
    let styled = style_tree(&root, &css);
    assert_eq!(styled.children[0].display(), Display::Inline);
}

#[test]
fn lookup_falls_back() {
    let root = dom("<div></div>");
    let css = sheet("div { margin: 4px; margin-left: 8px; }");
    let styled = style_tree(&root, &css);
    let zero = Value::Length(0, Unit::Px);
    assert_eq!(styled.lookup("margin-left", "margin", &zero), Value::Length(8_000, Unit::Px));
    assert_eq!(styled.lookup("margin-right", "margin", &zero), Value::Length(4_000, Unit::Px));
    assert_eq!(styled.lookup("padding-left", "padding", &zero), zero);
}
