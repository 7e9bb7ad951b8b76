use html_parser::tree::Tree;
use html_parser::tree_builder::{Document, Element, Node, Text};

fn create_element_node(tag_name: &str) -> Node {
    Node::Element(Element::new(tag_name.to_string()))
}

fn create_text_node(data: &str) -> Node {
    Node::Text(Text::new(data.to_string()))
}

#[test]
fn tree_basic() {
    let mut tree = Tree::new();

    let document = tree.create_node(Node::Document(Document::new()));
    tree.set_root(document);
    let html = tree.create_node(create_element_node("html"));
    tree.add_children(document, vec![html]);
    let head = tree.create_node(create_element_node("head"));
    let body = tree.create_node(create_element_node("body"));
    tree.add_children(html, vec![head, body]);
    let test = tree.create_node(create_text_node("Text"));
    tree.add_children(body, vec![test]);

    let mut iter = tree.into_iter();
    assert_eq!(iter.next(), Some(&Node::Document(Document::new())));
    assert_eq!(iter.get_current_depth(), 0);
    assert_eq!(iter.next(), Some(&create_element_node("html")));
    assert_eq!(iter.get_current_depth(), 1);
    assert_eq!(iter.next(), Some(&create_element_node("head")));
    assert_eq!(iter.get_current_depth(), 2);
    assert_eq!(iter.next(), Some(&create_element_node("body")));
    assert_eq!(iter.get_current_depth(), 2);
    assert_eq!(iter.next(), Some(&create_text_node("Text")));
    assert_eq!(iter.get_current_depth(), 3);
    assert_eq!(iter.next(), None);
}

#[test]
fn node_render_shapes() {
    assert_eq!(Node::Document(Document::new()).render(), "#document");
    assert_eq!(create_element_node("html").render(), "<html>");
    assert_eq!(create_text_node("Test").render(), "\"Test\"");
}

#[test]
fn replace_data_keeps_children() {
    let mut tree = Tree::new();
    let root = tree.create_node(create_element_node("body"));
    tree.set_root(root);
    let child = tree.create_node(create_text_node("a"));
    tree.add_child(root, child);
    tree.replace_data_at_index(child, create_text_node("ab"));
    assert_eq!(tree.get_node(child).data, create_text_node("ab"));
    assert_eq!(tree.get_node(root).children, vec![child]);
}
