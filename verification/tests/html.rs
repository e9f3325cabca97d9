use browser_engine::dom::{ElementData, Node, NodeType};
use browser_engine::html::{HtmlError, Mismatch, Parser};

fn parse(source: &str) -> Node {
    Parser::parse(source.to_string()).expect("the document parses")
}

fn element_of(node: &Node) -> &ElementData {
    match &node.node_type {
        NodeType::Element(e) => e,
        NodeType::Text(_) => panic!("expected an element"),
    }
}

fn text_of(node: &Node) -> &str {
    match &node.node_type {
        NodeType::Text(t) => t,
        NodeType::Element(_) => panic!("expected a text"),
    }
}

#[test]
fn single_root_is_returned_as_it_is() {
    let root = parse("<div class=\"box\">hi</div>");
    let e = element_of(&root);
    assert_eq!(e.tag_name, "div");
    assert_eq!(e.get_attribute("class"), Some(&"box".to_string()));
    assert_eq!(root.children.len(), 1);
    assert_eq!(text_of(&root.children[0]), "hi");
}

#[test]
fn two_top_level_nodes_are_wrapped_in_html() {
    let root = parse("<div></div><div></div>");
    let e = element_of(&root);
    assert_eq!(e.tag_name, "html");
    assert_eq!(e.attributes.len(), 0);
    assert_eq!(root.children.len(), 2);
    assert_eq!(element_of(&root.children[0]).tag_name, "div");
    assert_eq!(element_of(&root.children[1]).tag_name, "div");
    assert!(root.children[0].children.is_empty());
    assert!(root.children[1].children.is_empty());
}

#[test]
fn empty_document_is_an_empty_html_element() {
    let root = parse("   \n ");
    assert_eq!(element_of(&root).tag_name, "html");
    assert!(root.children.is_empty());
}

#[test]
fn self_closing_element_has_no_children() {
    let root = parse("<img src=\"x\"/>");
    let e = element_of(&root);
    assert_eq!(e.tag_name, "img");
    assert_eq!(e.attributes.len(), 1);
    assert_eq!(e.get_attribute("src"), Some(&"x".to_string()));
    assert!(root.children.is_empty());
}

#[test]
fn self_closing_is_accepted_for_any_element() {
    let root = parse("<div/><p/>");
    assert_eq!(root.children.len(), 2);
    assert_eq!(element_of(&root.children[0]).tag_name, "div");
    assert_eq!(element_of(&root.children[1]).tag_name, "p");
}

#[test]
fn attribute_forms() {
    let root = parse("<input disabled type=text name='n' value=\"a b\" data = 'x' >");
    let e = element_of(&root);
    assert_eq!(e.get_attribute("disabled"), Some(&String::new()));
    assert_eq!(e.get_attribute("type"), Some(&"text".to_string()));
    assert_eq!(e.get_attribute("name"), Some(&"n".to_string()));
    assert_eq!(e.get_attribute("value"), Some(&"a b".to_string()));
    assert_eq!(e.get_attribute("data"), Some(&"x".to_string()));
    assert_eq!(e.attributes.len(), 5);
}

#[test]
fn quotes_of_a_value_must_match() {
    let root = parse("<a title=\"it's\" alt='say \"hi\"'></a>");
    let e = element_of(&root);
    assert_eq!(e.get_attribute("title"), Some(&"it's".to_string()));
    assert_eq!(e.get_attribute("alt"), Some(&"say \"hi\"".to_string()));
}

#[test]
fn unquoted_value_ends_at_white_space_gt_or_slash() {
    let root = parse("<a href=x/>");
    assert_eq!(element_of(&root).get_attribute("href"), Some(&"x".to_string()));
    assert!(root.children.is_empty());
    let root = parse("<a href=x>t</a>");
    assert_eq!(element_of(&root).get_attribute("href"), Some(&"x".to_string()));
    assert_eq!(root.children.len(), 1);
}

#[test]
fn later_attribute_replaces_earlier_one() {
    let root = parse("<a x=1 x=2></a>");
    let e = element_of(&root);
    assert_eq!(e.attributes.len(), 1);
    assert_eq!(e.get_attribute("x"), Some(&"2".to_string()));
}

#[test]
fn white_space_inside_text_is_kept() {
    let root = parse("<p>  a  b \n</p>");
    assert_eq!(text_of(&root.children[0]), "a  b \n");
}

#[test]
fn nested_elements_keep_document_order() {
    let root = parse("<ul><li>a</li><li>b</li>tail</ul>");
    assert_eq!(root.children.len(), 3);
    assert_eq!(text_of(&root.children[0].children[0]), "a");
    assert_eq!(text_of(&root.children[1].children[0]), "b");
    assert_eq!(text_of(&root.children[2]), "tail");
}

#[test]
fn comment_is_skipped() {
    let root = parse("<div><!-- note --><p>x</p></div>");
    assert_eq!(root.children.len(), 1);
    assert_eq!(element_of(&root.children[0]).tag_name, "p");
}

#[test]
fn comment_before_a_closing_tag_leaves_an_empty_text() {
    let root = parse("<div><!-- note --></div>");
    assert_eq!(root.children.len(), 1);
    assert_eq!(text_of(&root.children[0]), "");
}

#[test]
fn unterminated_comment_runs_to_the_end() {
    let root = parse("<div><!-- note");
    assert_eq!(element_of(&root).tag_name, "div");
    assert_eq!(root.children.len(), 1);
    assert_eq!(text_of(&root.children[0]), "");
}

#[test]
fn doctype_is_skipped() {
    let root = parse("<!DOCTYPE html><html><body></body></html>");
    assert_eq!(element_of(&root).tag_name, "html");
    assert_eq!(root.children.len(), 1);
    assert_eq!(element_of(&root.children[0]).tag_name, "body");
}

#[test]
fn end_of_text_closes_open_elements() {
    let root = parse("<div><p>x");
    assert_eq!(element_of(&root).tag_name, "div");
    assert_eq!(element_of(&root.children[0]).tag_name, "p");
    assert_eq!(text_of(&root.children[0].children[0]), "x");
}

#[test]
fn mismatched_closing_tag_is_accepted_and_reported() {
    let (root, warnings) =
        Parser::parse_with_warnings("<div><b>x</i></span>".to_string()).expect("parses");
    assert_eq!(element_of(&root).tag_name, "div");
    assert_eq!(element_of(&root.children[0]).tag_name, "b");
    assert_eq!(
        warnings,
        vec![
            Mismatch { expected: "b".to_string(), found: "i".to_string() },
            Mismatch { expected: "div".to_string(), found: "span".to_string() },
        ]
    );
}

#[test]
fn matching_tags_give_no_warning() {
    let (_, warnings) = Parser::parse_with_warnings("<a><b></b></a>".to_string()).expect("parses");
    assert!(warnings.is_empty());
}

#[test]
fn tag_names_are_case_sensitive() {
    let (_, warnings) = Parser::parse_with_warnings("<DIV></div>".to_string()).expect("parses");
    assert_eq!(warnings, vec![Mismatch { expected: "DIV".to_string(), found: "div".to_string() }]);
}

#[test]
fn top_level_closing_tag_ends_the_document() {
    let root = parse("<p>a</p></div><p>b</p>");
    assert_eq!(element_of(&root).tag_name, "p");
    assert_eq!(text_of(&root.children[0]), "a");
}

#[test]
fn end_of_text_inside_a_tag_is_an_error() {
    assert_eq!(Parser::parse("<div".to_string()).err(), Some(HtmlError::UnexpectedEof));
    assert_eq!(Parser::parse("<div class".to_string()).err(), Some(HtmlError::UnexpectedEof));
    assert_eq!(Parser::parse("<div class=".to_string()).err(), Some(HtmlError::UnexpectedEof));
    assert_eq!(Parser::parse("<div class=\"a".to_string()).err(), Some(HtmlError::UnexpectedEof));
    assert_eq!(Parser::parse("<div>x</div".to_string()).err(), Some(HtmlError::UnexpectedEof));
}

#[test]
fn what_is_no_attribute_is_an_error() {
    assert_eq!(Parser::parse("<div !>".to_string()).err(), Some(HtmlError::MalformedAttribute));
    assert_eq!(Parser::parse("<div / >".to_string()).err(), Some(HtmlError::MalformedAttribute));
}

#[test]
fn closing_tag_must_end_with_gt() {
    assert_eq!(Parser::parse("<div>x</div x>".to_string()).err(), Some(HtmlError::UnclosedTag));
}

#[test]
fn text_outside_ascii_is_parsed_by_character() {
    let root = parse("<p title='é'>日本語</p>");
    assert_eq!(element_of(&root).get_attribute("title"), Some(&"é".to_string()));
    assert_eq!(text_of(&root.children[0]), "日本語");
}

#[test]
fn tag_names_may_hold_letters_outside_ascii() {
    let root = parse("<größe></größe>");
    assert_eq!(element_of(&root).tag_name, "größe");
}

#[test]
fn name_ends_at_a_sign_outside_ascii() {
    assert_eq!(Parser::parse("<a€>".to_string()).err(), Some(HtmlError::MalformedAttribute));
    let root = parse("<a x=1€></a>");
    assert_eq!(element_of(&root).get_attribute("x"), Some(&"1€".to_string()));
    assert_eq!(Parser::parse("<p>x</p€>".to_string()).err(), Some(HtmlError::UnclosedTag));
}
