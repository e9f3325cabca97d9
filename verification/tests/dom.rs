use browser_engine::dom::{AttrMap, ElementData, Node, NodeType, StrMap};

fn element_of(node: &Node) -> &ElementData {
    match &node.node_type {
        NodeType::Element(e) => e,
        NodeType::Text(_) => panic!("expected an element"),
    }
}

#[test]
fn text_node_has_no_children() {
    let n = Node::text("hello".to_string());
    assert!(matches!(&n.node_type, NodeType::Text(t) if t == "hello"));
    assert!(n.children.is_empty());
}

#[test]
fn element_node_keeps_name_attributes_and_children() {
    let mut attrs = AttrMap::new();
    attrs.insert("id".to_string(), "main".to_string());
    let n = Node::element("div".to_string(), attrs, vec![Node::text("a".to_string())]);
    let e = element_of(&n);
    assert_eq!(e.tag_name, "div");
    assert_eq!(e.get_attribute("id"), Some(&"main".to_string()));
    assert_eq!(e.get_attribute("class"), None);
    assert_eq!(n.children.len(), 1);
}

#[test]
fn id_is_the_id_attribute() {
    let mut attrs = AttrMap::new();
    attrs.insert("class".to_string(), "a".to_string());
    let n = Node::element("p".to_string(), attrs, Vec::new());
    assert_eq!(element_of(&n).id(), None);
    let mut attrs = AttrMap::new();
    attrs.insert("id".to_string(), "x".to_string());
    let n = Node::element("p".to_string(), attrs, Vec::new());
    assert_eq!(element_of(&n).id(), Some(&"x".to_string()));
}

#[test]
fn classes_are_the_words_of_the_class_attribute() {
    let mut attrs = AttrMap::new();
    attrs.insert("class".to_string(), "  box \t wide\nred ".to_string());
    let n = Node::element("p".to_string(), attrs, Vec::new());
    assert_eq!(element_of(&n).classes(), vec!["box", "wide", "red"]);
}

#[test]
fn classes_without_class_attribute_are_empty() {
    let n = Node::element("p".to_string(), AttrMap::new(), Vec::new());
    assert!(element_of(&n).classes().is_empty());
    let mut attrs = AttrMap::new();
    attrs.insert("class".to_string(), "   ".to_string());
    let n = Node::element("p".to_string(), attrs, Vec::new());
    assert!(element_of(&n).classes().is_empty());
}

#[test]
fn classes_split_at_unicode_white_space() {
    let mut attrs = AttrMap::new();
    attrs.insert("class".to_string(), "a\u{a0}b\u{3000}c\u{2003}d".to_string());
    let n = Node::element("p".to_string(), attrs, Vec::new());
    assert_eq!(element_of(&n).classes(), vec!["a", "b", "c", "d"]);
}

#[test]
fn map_insert_replaces_the_value_of_a_key() {
    let mut m: StrMap<u32> = StrMap::new();
    assert_eq!(m.len(), 0);
    m.insert("a".to_string(), 1);
    m.insert("b".to_string(), 2);
    m.insert("a".to_string(), 3);
    assert_eq!(m.len(), 2);
    assert_eq!(m.get("a"), Some(&3));
    assert_eq!(m.get("b"), Some(&2));
    assert_eq!(m.get("c"), None);
    assert!(m.contains_key("b"));
    assert!(!m.contains_key("c"));
    assert_eq!(m.key_at(0), "a");
    assert_eq!(*m.value_at(0), 3);
    assert_eq!(m.key_at(1), "b");
}
