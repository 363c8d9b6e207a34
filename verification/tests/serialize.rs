use markup::Dom;
use markup::NodeType;

fn shape(dom: &Dom, id: usize, out: &mut Vec<(String, usize, bool)>) {
    let node = dom.node(id).expect("node exists");
    let is_element = matches!(node.node_type, NodeType::Element);
    out.push((node.tag_name.clone(), node.children().len(), is_element));
    for &c in node.children().iter() {
        shape(dom, c, out);
    }
}

fn shape_of(dom: &Dom) -> Vec<(String, usize, bool)> {
    let mut out = Vec::new();
    shape(dom, dom.root().expect("document has a root"), &mut out);
    out
}

#[test]
fn text_node_renders_with_attributes_and_payload() {
    let dom = Dom::from_str("<a foo=\"bar\">hi there</a>").expect("parse succeeds");
    assert_eq!(dom.to_string(), "<a foo='bar'>hi there</a>");
}

#[test]
fn childless_element_renders_self_closed() {
    let dom = Dom::from_str("<a foo=\"bar\"/>").expect("parse succeeds");
    assert_eq!(dom.to_string(), "<a foo='bar'/>");
    let plain = Dom::from_str("<a></a>").expect("parse succeeds");
    assert_eq!(plain.to_string(), "<a />");
}

#[test]
fn attribute_pairs_render_back_to_back_in_insertion_order() {
    let dom = Dom::from_str("<a x=\"1\" y=\"2\"/>").expect("parse succeeds");
    assert_eq!(dom.to_string(), "<a x='1'y='2'/>");
}

#[test]
fn parent_with_children_drops_its_attributes() {
    let dom = Dom::from_str("<a x=\"y\"><b/></a>").expect("parse succeeds");
    assert_eq!(dom.to_string(), "<a><b /></a>");
}

#[test]
fn round_trip_preserves_element_shape() {
    let dom = Dom::from_str("<w><x/><y><z/></y></w>").expect("parse succeeds");
    let rendered = dom.to_string();
    let again = Dom::from_str(&rendered).expect("serialized form parses again");
    assert_eq!(shape_of(&dom), shape_of(&again));
}

#[test]
fn round_trip_drops_attributes_on_non_leaf_elements_only() {
    let dom = Dom::from_str("<w keep=\"no\"><x keep=\"yes\"/></w>").expect("parse succeeds");
    let again = Dom::from_str(&dom.to_string()).expect("serialized form parses again");
    assert_eq!(shape_of(&dom), shape_of(&again));
    let root_id = again.root().expect("document has a root");
    let root = again.node(root_id).expect("root exists");
    assert!(root.get_attribute("keep").is_none());
    let leaf = again.node(root.children()[0]).expect("leaf exists");
    assert_eq!(leaf.get_attribute("keep").map(|s| s.as_str()), Some("yes"));
}
