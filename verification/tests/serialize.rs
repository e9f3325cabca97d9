use browser_engine::dom::{AttrMap, Node, NodeType};
use browser_engine::html::Parser;
use browser_engine::serialize::{to_html, write_html};

fn same(a: &Node, b: &Node) -> bool {
    let same_type = match (&a.node_type, &b.node_type) {
        (NodeType::Text(x), NodeType::Text(y)) => x == y,
        (NodeType::Element(x), NodeType::Element(y)) => {
            x.tag_name == y.tag_name
                && x.attributes.len() == y.attributes.len()
                && (0..x.attributes.len()).all(|i| {
                    y.attributes.get(x.attributes.key_at(i)) == Some(x.attributes.value_at(i))
                })
        }
        _ => false,
    };
    same_type
        && a.children.len() == b.children.len()
        && a.children.iter().zip(&b.children).all(|(x, y)| same(x, y))
}

fn attrs(pairs: &[(&str, &str)]) -> AttrMap {
    let mut m = AttrMap::new();
    for (k, v) in pairs {
        m.insert(k.to_string(), v.to_string());
    }
    m
}

fn element(name: &str, pairs: &[(&str, &str)], children: Vec<Node>) -> Node {
    Node::element(name.to_string(), attrs(pairs), children)
}

fn text(t: &str) -> Node {
    Node::text(t.to_string())
}

#[test]
fn element_is_written_with_attributes_in_order() {
    let n = element("a", &[("href", "x y"), ("id", ""), ("title", "it's")], vec![text("go")]);
    assert_eq!(to_html(&n), "<a href=\"x y\" id=\"\" title=\"it's\">go</a>");
}

#[test]
fn tree_is_written_in_document_order() {
    let n = element(
        "div",
        &[],
        vec![
            element("p", &[("class", "c")], vec![text("one "), element("b", &[], vec![]), text("two")]),
            element("img", &[("src", "x")], vec![]),
        ],
    );
    assert_eq!(to_html(&n), "<div><p class=\"c\">one <b></b>two</p><img src=\"x\"></img></div>");
}

#[test]
fn write_html_appends() {
    let mut out = String::from("<!DOCTYPE html>");
    write_html(&text("x"), &mut out);
    write_html(&element("br", &[], vec![]), &mut out);
    assert_eq!(out, "<!DOCTYPE html>x<br></br>");
}

#[test]
fn written_tree_is_read_as_it_was() {
    let trees = vec![
        text("just text "),
        element("html", &[], vec![]),
        element("p", &[("a", "1"), ("b", "<>' /="), ("c", "")], vec![]),
        element(
            "div",
            &[("id", "x"), ("class", "a b")],
            vec![
                text("lead "),
                element("span", &[], vec![text("a")]),
                element("span", &[], vec![text("b  \n")]),
                text("- tail"),
                element("ul", &[], vec![element("li", &[], vec![]), element("li", &[], vec![text("é")])]),
            ],
        ),
        element("", &[("", "v")], vec![element("", &[], vec![])]),
    ];
    for tree in &trees {
        let html = to_html(tree);
        let (read, warnings) = Parser::parse_with_warnings(html.clone()).expect("parses");
        assert!(same(tree, &read), "{}", html);
        assert!(warnings.is_empty(), "{}", html);
        assert_eq!(to_html(&read), html);
    }
}

#[test]
fn parsed_document_is_read_again_as_it_was() {
    let source = "<html><body class=wide><h1>Title</h1><p>Some <b>bold</b> text.</p><img src='x'/></body></html>";
    let first = Parser::parse(source.to_string()).expect("parses");
    let second = Parser::parse(to_html(&first)).expect("parses");
    assert!(same(&first, &second));
}
