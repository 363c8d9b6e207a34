use markup::Dom;
use markup::DomError;
use markup::Node;
use markup::NodeType;

#[test]
fn new_node_defaults_to_empty_text() {
    let n = Node::new("x".to_string());
    assert_eq!(n.tag_name, "x");
    assert!(matches!(&n.node_type, NodeType::Text(t) if t.is_empty()));
    assert_eq!(n.children().len(), 0);
    assert_eq!(n.parent(), None);
    assert!(n.get_attribute("anything").is_none());
}

#[test]
fn append_text_accumulates_on_a_text_node() {
    let mut n = Node::new("x".to_string());
    n.append_text("hello").expect("append succeeds");
    n.append_text(" world").expect("append succeeds");
    match &n.node_type {
        NodeType::Text(t) => assert_eq!(t, "hello world"),
        NodeType::Element => panic!("node should still be text"),
    }
}

#[test]
fn append_text_is_blocked_on_an_element_node() {
    let mut n = Node::new("x".to_string());
    n.node_type = NodeType::Element;
    let err = n.append_text("hello").expect_err("append is blocked");
    assert!(matches!(err, DomError::BlockedAppend(_)));
    assert!(matches!(n.node_type, NodeType::Element));
}

#[test]
fn set_attribute_overwrites_in_place() {
    let mut n = Node::new("x".to_string());
    n.set_attribute("k".to_string(), "one".to_string());
    n.set_attribute("l".to_string(), "two".to_string());
    n.set_attribute("k".to_string(), "three".to_string());
    assert_eq!(n.get_attribute("k").map(|s| s.as_str()), Some("three"));
    assert_eq!(n.get_attribute("l").map(|s| s.as_str()), Some("two"));
    assert!(n.get_attribute("m").is_none());
}

#[test]
fn append_element_attaches_a_child_with_a_parent_link() {
    let mut root = Node::new("r".to_string());
    root.node_type = NodeType::Element;
    let mut dom = Dom::new(root);
    let root_id = dom.root().expect("document has a root");
    let child = Node::new("c".to_string());
    dom.append_element(root_id, child).expect("append succeeds");
    let rn = dom.node(root_id).expect("root exists");
    assert_eq!(rn.children().len(), 1);
    let child_id = rn.children()[0];
    let cn = dom.node(child_id).expect("child exists");
    assert_eq!(cn.tag_name, "c");
    assert_eq!(cn.parent(), Some(root_id));
}

#[test]
fn blocked_append_leaves_the_tree_unchanged() {
    let mut dom = Dom::new(Node::new("t".to_string()));
    let root_id = dom.root().expect("document has a root");
    let err = dom
        .append_element(root_id, Node::new("c".to_string()))
        .expect_err("append is blocked on a text node");
    assert!(matches!(err, DomError::BlockedAppend(_)));
    let rn = dom.node(root_id).expect("root exists");
    assert_eq!(rn.children().len(), 0);
    assert!(dom.node(root_id + 1).is_none());
}

#[test]
fn arena_append_text_reaches_a_parsed_node() {
    let mut dom = Dom::from_str("<t>hi</t>").expect("parse succeeds");
    let root_id = dom.root().expect("document has a root");
    dom.append_text(root_id, " there").expect("append succeeds");
    match &dom.node(root_id).expect("root exists").node_type {
        NodeType::Text(t) => assert_eq!(t, "hi there"),
        NodeType::Element => panic!("root should be text"),
    }

    let mut dom2 = Dom::from_str("<t><u/></t>").expect("parse succeeds");
    let root2 = dom2.root().expect("document has a root");
    let err = dom2.append_text(root2, "nope").expect_err("append is blocked");
    assert!(matches!(err, DomError::BlockedAppend(_)));
}

#[test]
fn attribute_query_ignores_grandchildren() {
    let dom = Dom::from_str("<a><b foo=\"bar\"><c baz=\"qux\"></c></b></a>")
        .expect("parse succeeds");
    let root_id = dom.root().expect("document has a root");
    assert_eq!(dom.get_element_by_attribute(root_id, "baz", "qux"), None);
    let found = dom
        .get_element_by_attribute(root_id, "foo", "bar")
        .expect("direct child matches");
    assert_eq!(dom.node(found).expect("match exists").tag_name, "b");
}

#[test]
fn attribute_query_returns_the_first_match_only() {
    let dom = Dom::from_str("<a><b k=\"v\"></b><c k=\"v\"></c></a>").expect("parse succeeds");
    let root_id = dom.root().expect("document has a root");
    let found = dom
        .get_element_by_attribute(root_id, "k", "v")
        .expect("a child matches");
    assert_eq!(dom.node(found).expect("match exists").tag_name, "b");
    assert_eq!(dom.get_element_by_attribute(root_id, "k", "w"), None);
}

#[test]
fn attribute_query_collects_all_matches_in_order() {
    let dom = Dom::from_str("<a><b k=\"v\"></b><c k=\"w\"></c><d k=\"v\"></d></a>")
        .expect("parse succeeds");
    let root_id = dom.root().expect("document has a root");
    let all = dom.get_elements_by_attribute(root_id, "k", "v");
    assert_eq!(all.len(), 2);
    assert_eq!(dom.node(all[0]).expect("first match").tag_name, "b");
    assert_eq!(dom.node(all[1]).expect("second match").tag_name, "d");
    assert_eq!(dom.get_elements_by_attribute(root_id, "k", "x").len(), 0);
}
