use html_parser::tester::{TestFileError, TestReader};
use html_parser::tree::Tree;
use html_parser::tree_builder::{Document, Element, Node, Text};

fn create_element_node(tag_name: &str) -> Node {
    Node::Element(Element::new(tag_name.to_string()))
}

fn create_text_node(data: &str) -> Node {
    Node::Text(Text::new(data.to_string()))
}

const BASIC_BLOCK: &str = r#"#data
<!DOCTYPE html><html><head></head><body>Test</body></html>
#errors
(1,0): expected-doctype-but-got-chars
#document
| <html>
|   <head>
|   <body>
|     "Test"
"#;

#[test]
fn tester_basic() {
    let test_reader = TestReader::new_from_string(BASIC_BLOCK.to_owned());
    let test_case = test_reader.get().unwrap();

    let mut tree = Tree::new();
    let document = tree.create_node(Node::Document(Document::new()));
    tree.set_root(document);
    let html = tree.create_node(create_element_node("html"));
    tree.add_children(document, vec![html]);
    let head = tree.create_node(create_element_node("head"));
    let body = tree.create_node(create_element_node("body"));
    tree.add_children(html, vec![head, body]);
    let test = tree.create_node(create_text_node("Test"));
    tree.add_children(body, vec![test]);
    assert!(TestReader::assert_eq(&test_case, &tree));
}

#[test]
fn tree_to_many_nodes() {
    let test_reader = TestReader::new_from_string(BASIC_BLOCK.to_owned());
    let test_case = test_reader.get().unwrap();

    let mut tree = Tree::new();
    let document = tree.create_node(Node::Document(Document::new()));
    tree.set_root(document);
    let html = tree.create_node(create_element_node("html"));
    tree.add_children(document, vec![html]);
    let head = tree.create_node(create_element_node("head"));
    let body = tree.create_node(create_element_node("body"));
    tree.add_children(html, vec![head, body]);
    let test = tree.create_node(create_text_node("Test"));
    // one node too many
    let test2 = tree.create_node(create_text_node("Test"));
    tree.add_children(body, vec![test, test2]);
    assert!(!TestReader::assert_eq(&test_case, &tree));
}

#[test]
fn tree_not_enough_nodes() {
    let test_reader = TestReader::new_from_string(BASIC_BLOCK.to_owned());
    let test_case = test_reader.get().unwrap();

    let mut tree = Tree::new();
    let document = tree.create_node(Node::Document(Document::new()));
    tree.set_root(document);
    let html = tree.create_node(create_element_node("html"));
    tree.add_children(document, vec![html]);
    let head = tree.create_node(create_element_node("head"));
    let body = tree.create_node(create_element_node("body"));
    tree.add_children(html, vec![head, body]);
    // missing Test node
    assert!(!TestReader::assert_eq(&test_case, &tree));
}

#[test]
fn sections_are_split_by_headers() {
    let test_reader = TestReader::new_from_string(BASIC_BLOCK.to_owned());
    let test_case = test_reader.get().unwrap();
    assert_eq!(
        test_case.data,
        vec!["<!DOCTYPE html><html><head></head><body>Test</body></html>".to_owned()]
    );
    assert_eq!(
        test_case.error,
        vec!["(1,0): expected-doctype-but-got-chars".to_owned()]
    );
    assert_eq!(
        test_case.document,
        vec![
            "| <html>".to_owned(),
            "|   <head>".to_owned(),
            "|   <body>".to_owned(),
            "|     \"Test\"".to_owned(),
        ]
    );
}

#[test]
fn empty_line_ends_the_block() {
    let text = "#data\nfirst\n\n#data\nsecond\n";
    let test_case = TestReader::new_from_string(text.to_owned()).get().unwrap();
    assert_eq!(test_case.data, vec!["first".to_owned()]);
}

#[test]
fn carriage_returns_are_trimmed_from_lines() {
    let text = "#data\r\nabc\r\n";
    let test_case = TestReader::new_from_string(text.to_owned()).get().unwrap();
    assert_eq!(test_case.data, vec!["abc".to_owned()]);
}

#[test]
fn unsupported_header_is_an_error() {
    let text = "#data\nx\n#script-on\ny\n";
    let outcome = TestReader::new_from_string(text.to_owned()).get();
    match outcome {
        Err(TestFileError::UnsupportedHeader(h)) => assert_eq!(h, "#script-on"),
        _ => panic!("expected the unsupported-header error"),
    }
}
