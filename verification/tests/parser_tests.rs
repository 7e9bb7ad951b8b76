use html_parser::tokenizer::{Token, Tokenizer, TokenizerError};
use html_parser::tree_builder::{BuildError, InsertionMode, TreeBuilder, parse_document};

/// Pulls the whole stream; panics on an unsupported construct.
fn collect_tokens(input: &str) -> Vec<Token> {
    let mut tokenizer = Tokenizer::new(input);
    let mut tokens = Vec::new();
    loop {
        match tokenizer.next() {
            Ok(Some(t)) => tokens.push(t),
            Ok(None) => return tokens,
            Err(e) => panic!("tokenizer halted: {:?}", e),
        }
    }
}

/// Parses a document and returns its rendered lines.
fn rendered(input: &str) -> Vec<String> {
    let (builder, outcome) = parse_document(input);
    outcome.expect("the input should stay inside the implemented subset");
    builder.debug_print()
}

#[test]
fn scenario_full_document() {
    assert_eq!(
        rendered("<!DOCTYPE html><html><head></head><body>Test</body></html>"),
        vec![
            "#document".to_owned(),
            "| <html>".to_owned(),
            "|   <head>".to_owned(),
            "|   <body>".to_owned(),
            "|     \"Test\"".to_owned(),
        ]
    );
}

#[test]
fn scenario_meta_in_head() {
    assert_eq!(
        rendered("<!DOCTYPE html><html><head><meta></head><body>Hi</body></html>"),
        vec![
            "#document".to_owned(),
            "| <html>".to_owned(),
            "|   <head>".to_owned(),
            "|     <meta>".to_owned(),
            "|   <body>".to_owned(),
            "|     \"Hi\"".to_owned(),
        ]
    );
}

#[test]
fn scenario_synthesis_path() {
    assert_eq!(
        rendered("<!DOCTYPE html>Test"),
        vec![
            "#document".to_owned(),
            "| <html>".to_owned(),
            "|   <head>".to_owned(),
            "|   <body>".to_owned(),
            "|     \"Test\"".to_owned(),
        ]
    );
}

#[test]
fn scenario_comment_is_dropped() {
    assert_eq!(
        rendered("<!DOCTYPE html><html><head></head><body><!-- x -->A</body></html>"),
        vec![
            "#document".to_owned(),
            "| <html>".to_owned(),
            "|   <head>".to_owned(),
            "|   <body>".to_owned(),
            "|     \"A\"".to_owned(),
        ]
    );
}

#[test]
fn scenario_characters_coalesce() {
    assert_eq!(
        rendered("<!DOCTYPE html><html><head></head><body>AB</body></html>"),
        vec![
            "#document".to_owned(),
            "| <html>".to_owned(),
            "|   <head>".to_owned(),
            "|   <body>".to_owned(),
            "|     \"AB\"".to_owned(),
        ]
    );
}

#[test]
fn scenario_uppercase_tags_are_lowered() {
    assert_eq!(
        rendered("<!DOCTYPE html><HTML><HEAD></HEAD><BODY>x</BODY></HTML>"),
        vec![
            "#document".to_owned(),
            "| <html>".to_owned(),
            "|   <head>".to_owned(),
            "|   <body>".to_owned(),
            "|     \"x\"".to_owned(),
        ]
    );
}

#[test]
fn renderer_is_deterministic() {
    let input = "<!DOCTYPE html><html><head><meta></head><body>Hi</body></html>";
    assert_eq!(rendered(input), rendered(input));
}

#[test]
fn stream_is_finite_and_ends_with_one_end_of_file() {
    let tokens = collect_tokens("<!DOCTYPE html><html><head></head><body>Test</body></html>");
    assert!(matches!(tokens.last(), Some(Token::EndOfFile)));
    let eof_count = tokens
        .iter()
        .filter(|t| matches!(t, Token::EndOfFile))
        .count();
    assert_eq!(eof_count, 1);
    // and after the end, the stream yields nothing
    let mut tokenizer = Tokenizer::new("x");
    assert!(matches!(tokenizer.next(), Ok(Some(Token::Character('x')))));
    assert!(matches!(tokenizer.next(), Ok(Some(Token::EndOfFile))));
    assert!(matches!(tokenizer.next(), Ok(None)));
    assert!(matches!(tokenizer.next(), Ok(None)));
}

#[test]
fn character_tokens_carry_one_code_point_each() {
    let tokens = collect_tokens("ab");
    assert_eq!(tokens.len(), 3);
    assert_eq!(tokens[0], Token::Character('a'));
    assert_eq!(tokens[1], Token::Character('b'));
    assert_eq!(tokens[2], Token::EndOfFile);
}

#[test]
fn duplicate_attribute_keeps_the_first() {
    let tokens = collect_tokens("<p id=\"one\" id=\"two\">");
    match &tokens[0] {
        Token::StartTag(tag) => {
            assert_eq!(tag.name, "p");
            assert_eq!(tag.attributes.len(), 1);
            assert_eq!(tag.attributes[0].name, "id");
            assert_eq!(tag.attributes[0].value, "one");
        }
        other => panic!("expected a start tag, got {:?}", other),
    }
}

#[test]
fn distinct_attributes_are_all_kept() {
    let tokens = collect_tokens("<p id=\"one\" class=\"two\">");
    match &tokens[0] {
        Token::StartTag(tag) => {
            assert_eq!(tag.attributes.len(), 2);
            assert_eq!(tag.attributes[0].name, "id");
            assert_eq!(tag.attributes[0].value, "one");
            assert_eq!(tag.attributes[1].name, "class");
            assert_eq!(tag.attributes[1].value, "two");
        }
        other => panic!("expected a start tag, got {:?}", other),
    }
}

#[test]
fn doctype_name_is_read() {
    let tokens = collect_tokens("<!DOCTYPE html>");
    match &tokens[0] {
        Token::Doctype(d) => assert_eq!(d.name.as_deref(), Some("html")),
        other => panic!("expected a doctype token, got {:?}", other),
    }
}

#[test]
fn comment_token_carries_its_data() {
    let tokens = collect_tokens("<!-- x -->");
    assert_eq!(tokens[0], Token::Comment(" x ".to_owned()));
}

#[test]
fn element_nodes_carry_token_attributes() {
    let (builder, outcome) =
        parse_document("<!DOCTYPE html><html lang=\"en\"><head></head><body>x</body></html>");
    outcome.expect("the input should stay inside the implemented subset");
    let tree = builder.get_tree();
    // node 0 is the document; node 1 is the html element
    match &tree.get_node(1).data {
        html_parser::tree_builder::Node::Element(e) => {
            assert_eq!(e.tag_name, "html");
            assert_eq!(e.attributes.len(), 1);
            assert_eq!(e.attributes[0].name, "lang");
            assert_eq!(e.attributes[0].value, "en");
        }
        other => panic!("expected the html element, got {:?}", other),
    }
}

#[test]
fn doctype_uppercase_name_is_lowered() {
    let tokens = collect_tokens("<!DOCTYPE HTML>");
    match &tokens[0] {
        Token::Doctype(d) => assert_eq!(d.name.as_deref(), Some("html")),
        other => panic!("expected a doctype token, got {:?}", other),
    }
}

#[test]
fn abruptly_closed_empty_comments_recover() {
    assert_eq!(collect_tokens("<!-->")[0], Token::Comment("".to_owned()));
    assert_eq!(collect_tokens("<!--->")[0], Token::Comment("".to_owned()));
    assert_eq!(collect_tokens("<!---->")[0], Token::Comment("".to_owned()));
}

#[test]
fn dashes_inside_comment_data_are_kept() {
    assert_eq!(
        collect_tokens("<!-- a-b--c -->")[0],
        Token::Comment(" a-b--c ".to_owned())
    );
    assert_eq!(collect_tokens("<!----->")[0], Token::Comment("-".to_owned()));
}

#[test]
fn character_reference_is_unsupported() {
    let mut tokenizer = Tokenizer::new("a&amp;b");
    assert!(matches!(tokenizer.next(), Ok(Some(Token::Character('a')))));
    match tokenizer.next() {
        Err(TokenizerError::UnsupportedState { ch, .. }) => assert_eq!(ch, Some('&')),
        other => panic!("expected an unsupported-state halt, got {:?}", other),
    }
}

#[test]
fn bogus_markup_declaration_is_unsupported() {
    let mut tokenizer = Tokenizer::new("<!x>");
    match tokenizer.next() {
        Err(TokenizerError::UnsupportedMarkup) => {}
        other => panic!("expected an unsupported-markup halt, got {:?}", other),
    }
}

#[test]
fn unsupported_start_tag_in_body_halts_the_build() {
    let tokenizer = Tokenizer::new("<!DOCTYPE html><html><head></head><body><div>x</div></body></html>");
    let mut builder = TreeBuilder::new();
    match builder.build(tokenizer) {
        Err(BuildError::UnsupportedMode { mode, token }) => {
            assert_eq!(mode, InsertionMode::InBody);
            match token {
                Token::StartTag(tag) => assert_eq!(tag.name, "div"),
                other => panic!("expected the div start tag, got {:?}", other),
            }
        }
        other => panic!("expected an unsupported-mode halt, got {:?}", other),
    }
}

#[test]
fn tokenizer_halt_surfaces_from_the_build() {
    let tokenizer = Tokenizer::new("<!DOCTYPE html>a&b");
    let mut builder = TreeBuilder::new();
    assert!(matches!(
        builder.build(tokenizer),
        Err(BuildError::Tokenizer(TokenizerError::UnsupportedState { .. }))
    ));
}

#[test]
fn whitespace_before_doctype_is_ignored() {
    assert_eq!(
        rendered("  \n<!DOCTYPE html><html><head></head><body>y</body></html>"),
        vec![
            "#document".to_owned(),
            "| <html>".to_owned(),
            "|   <head>".to_owned(),
            "|   <body>".to_owned(),
            "|     \"y\"".to_owned(),
        ]
    );
}

#[test]
fn attribute_on_tag_reaches_the_token() {
    // the tree keeps only the name, but the token carries the attributes
    let tokens = collect_tokens("<html lang=\"en\">");
    match &tokens[0] {
        Token::StartTag(tag) => {
            assert_eq!(tag.name, "html");
            assert_eq!(tag.attributes[0].name, "lang");
            assert_eq!(tag.attributes[0].value, "en");
        }
        other => panic!("expected a start tag, got {:?}", other),
    }
}

#[test]
fn empty_input_parses_to_the_synthesized_skeleton() {
    assert_eq!(
        rendered(""),
        vec![
            "#document".to_owned(),
            "| <html>".to_owned(),
            "|   <head>".to_owned(),
            "|   <body>".to_owned(),
        ]
    );
}
