use markup::Dom;
use markup::DomError;
use markup::NodeType;
use markup::ParseError;
use markup::TokenType;
use markup::TokenizeError;

fn root_of(dom: &Dom) -> usize {
    dom.root().expect("document has a root")
}

#[test]
fn self_closed_element_with_attribute() {
    let dom = Dom::from_str("<a foo=\"bar\"/>").expect("parse succeeds");
    let root = root_of(&dom);
    let node = dom.node(root).expect("root node exists");
    assert_eq!(node.tag_name, "a");
    assert!(matches!(node.node_type, NodeType::Element));
    assert_eq!(node.children().len(), 0);
    assert_eq!(node.get_attribute("foo").map(|s| s.as_str()), Some("bar"));
    assert_eq!(node.parent(), None);

    let rendered = dom.to_string();
    let again = Dom::from_str(&rendered).expect("serialized form parses again");
    let root2 = root_of(&again);
    let node2 = again.node(root2).expect("root node exists");
    assert_eq!(node2.tag_name, "a");
    assert!(matches!(node2.node_type, NodeType::Element));
    assert_eq!(node2.children().len(), 0);
    assert_eq!(node2.get_attribute("foo").map(|s| s.as_str()), Some("bar"));
}

#[test]
fn nested_text_node() {
    let dom = Dom::from_str("<a one=\"two\"><one>one in a million</one></a>")
        .expect("parse succeeds");
    let root = root_of(&dom);
    let node = dom.node(root).expect("root node exists");
    assert_eq!(node.tag_name, "a");
    assert_eq!(node.children().len(), 1);
    let child_id = node.children()[0];
    let child = dom.node(child_id).expect("child node exists");
    assert_eq!(child.tag_name, "one");
    match &child.node_type {
        NodeType::Text(payload) => assert_eq!(payload, "one in a million"),
        NodeType::Element => panic!("child should be a text node"),
    }
    assert_eq!(child.parent(), Some(root));
}

#[test]
fn mismatched_close_reports_opening_tag() {
    let err = Dom::from_str("<a></b>").expect_err("parse fails");
    match err {
        DomError::ParseError(ParseError::UnclosedTag(name, _)) => assert_eq!(name, "a"),
        other => panic!("expected an unclosed-tag error, got {:?}", other),
    }
}

#[test]
fn unclosed_tag_fails_without_hanging() {
    let err = Dom::from_str("<a>").expect_err("parse fails");
    match err {
        DomError::ParseError(ParseError::UnclosedTag(name, _)) => assert_eq!(name, "a"),
        other => panic!("expected an unclosed-tag error, got {:?}", other),
    }
    let err = Dom::from_str("<a").expect_err("parse fails");
    assert!(matches!(
        err,
        DomError::ParseError(ParseError::UnexpectedEndOfFile)
    ));
}

#[test]
fn comment_is_entirely_absent() {
    let dom = Dom::from_str("<a><!-- ignored --></a>").expect("parse succeeds");
    let root = root_of(&dom);
    let node = dom.node(root).expect("root node exists");
    assert_eq!(node.tag_name, "a");
    assert!(matches!(node.node_type, NodeType::Element));
    assert_eq!(node.children().len(), 0);
}

#[test]
fn unclosed_literal_fails_lexing() {
    let err = Dom::from_str("<a b=\"c>").expect_err("lexing fails");
    assert!(matches!(
        err,
        DomError::TokenizeError(TokenizeError::UnclosedLiteral)
    ));
}

#[test]
fn declaration_is_discarded() {
    let dom = Dom::from_str("<!DOCTYPE html><a></a>").expect("parse succeeds");
    let root = root_of(&dom);
    let node = dom.node(root).expect("root node exists");
    assert_eq!(node.tag_name, "a");
}

#[test]
fn duplicate_attribute_key_overwrites() {
    let dom = Dom::from_str("<a k=\"one\" k=\"two\"/>").expect("parse succeeds");
    let root = root_of(&dom);
    let node = dom.node(root).expect("root node exists");
    assert_eq!(node.get_attribute("k").map(|s| s.as_str()), Some("two"));
}

#[test]
fn empty_attribute_value_is_kept() {
    let dom = Dom::from_str("<a b=\"\"/>").expect("parse succeeds");
    let root = root_of(&dom);
    let node = dom.node(root).expect("root node exists");
    assert_eq!(node.get_attribute("b").map(|s| s.as_str()), Some(""));
    assert_eq!(dom.to_string(), "<a b=''/>");
    let again = Dom::from_str(&dom.to_string()).expect("serialized form parses again");
    let root2 = root_of(&again);
    let node2 = again.node(root2).expect("root node exists");
    assert_eq!(node2.get_attribute("b").map(|s| s.as_str()), Some(""));
}

#[test]
fn bare_identifier_attribute_value() {
    let dom = Dom::from_str("<h1 five=six></h1>").expect("parse succeeds");
    let root = root_of(&dom);
    let node = dom.node(root).expect("root node exists");
    assert_eq!(node.tag_name, "h1");
    assert_eq!(node.get_attribute("five").map(|s| s.as_str()), Some("six"));
}

#[test]
fn unexpected_token_in_attributes() {
    let err = Dom::from_str("<a =\"v\"></a>").expect_err("parse fails");
    assert!(matches!(
        err,
        DomError::ParseError(ParseError::UnexpectedToken(TokenType::Equals, _))
    ));
}

#[test]
fn attribute_cut_short_is_end_of_input() {
    let err = Dom::from_str("<a b=").expect_err("parse fails");
    assert!(matches!(
        err,
        DomError::ParseError(ParseError::UnexpectedEndOfFile)
    ));
}

#[test]
fn standard_parse_trait_is_available() {
    let dom: Dom = "<a></a>".parse().expect("parse succeeds");
    let root = root_of(&dom);
    assert_eq!(dom.node(root).expect("root node exists").tag_name, "a");
}

#[test]
fn unclosed_parent_of_nested_children_is_blamed() {
    let err = Dom::from_str("<a><b></b>").expect_err("parse fails");
    match err {
        DomError::ParseError(ParseError::UnclosedTag(name, _)) => assert_eq!(name, "a"),
        other => panic!("expected an unclosed-tag error, got {:?}", other),
    }
}

#[test]
fn mixed_text_and_element_content_is_rejected() {
    let err = Dom::from_str("<a><b/>words</a>").expect_err("parse fails");
    assert!(matches!(
        err,
        DomError::ParseError(ParseError::UnexpectedToken(TokenType::Identifier, _))
    ));
}

#[test]
fn trailing_tokens_are_ignored() {
    let dom = Dom::from_str("<a></a><b></b>").expect("parse succeeds");
    let root = root_of(&dom);
    assert_eq!(dom.node(root).expect("root node exists").tag_name, "a");
}

#[test]
fn nested_elements_parse_deeply() {
    let dom = Dom::from_str("<w><x/><y><z>deep text</z></y></w>").expect("parse succeeds");
    let root = root_of(&dom);
    let w = dom.node(root).expect("root node exists");
    assert_eq!(w.tag_name, "w");
    assert_eq!(w.children().len(), 2);
    let x = dom.node(w.children()[0]).expect("first child exists");
    assert_eq!(x.tag_name, "x");
    assert_eq!(x.children().len(), 0);
    let y = dom.node(w.children()[1]).expect("second child exists");
    assert_eq!(y.tag_name, "y");
    assert_eq!(y.children().len(), 1);
    let z = dom.node(y.children()[0]).expect("grandchild exists");
    assert_eq!(z.tag_name, "z");
    match &z.node_type {
        NodeType::Text(payload) => assert_eq!(payload, "deep text"),
        NodeType::Element => panic!("expected text content"),
    }
    assert_eq!(y.parent(), Some(root));
    assert_eq!(z.parent(), Some(w.children()[1]));
}
