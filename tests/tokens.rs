use greyxml::lexer::{lex, Lexicals, Span};
use greyxml::tokenizer::{tokenize, tokenize_with_open_nodes, Tokens};

fn tokens_of(text: &str) -> Vec<Tokens> {
    let lexed = lex(text).unwrap();
    tokenize(&lexed).unwrap()
}

fn open(s: &str) -> Tokens {
    Tokens::OpenNode(s.to_string())
}

fn close(s: &str) -> Tokens {
    Tokens::CloseNode(s.to_string())
}

fn name(s: &str) -> Tokens {
    Tokens::ParameterName(s.to_string())
}

fn value(s: &str) -> Tokens {
    Tokens::ParameterValue(s.to_string())
}

fn span(row: usize, column: usize, length: usize) -> Span {
    Span { row, column, length }
}

#[test]
fn html_pair_units_and_tokens() {
    let lexed = lex("<html></html>").unwrap();
    assert_eq!(
        lexed,
        vec![
            Lexicals::OpenArrow(span(1, 1, 1)),
            Lexicals::Text("html".to_string(), span(1, 2, 4)),
            Lexicals::CloseArrow(span(1, 6, 1)),
            Lexicals::OpenArrow(span(1, 7, 1)),
            Lexicals::CloseFSlash(span(1, 8, 1)),
            Lexicals::Text("html".to_string(), span(1, 9, 4)),
            Lexicals::CloseArrow(span(1, 13, 1)),
        ]
    );
    assert_eq!(tokenize(&lexed).unwrap(), vec![open("html"), close("html")]);
}

#[test]
fn self_closing_tag_with_attribute() {
    assert_eq!(
        tokens_of("<a href=\"x\"/>"),
        vec![open("a"), name("href"), value("x"), close("a")]
    );
}

#[test]
fn xml_declaration_is_a_simple_node() {
    let lexed = lex("<?xml version=\"1.0\"?>").unwrap();
    let (tokens, open_nodes) = tokenize_with_open_nodes(&lexed);
    assert_eq!(
        tokens,
        vec![
            Tokens::SimpleNode("xml".to_string()),
            name("version"),
            value("1.0"),
        ]
    );
    assert!(open_nodes.is_empty());
}

#[test]
fn paragraph_with_text() {
    assert_eq!(
        tokens_of("<p>Hello</p>"),
        vec![open("p"), Tokens::Text("Hello".to_string()), close("p")]
    );
}

#[test]
fn unclosed_tag_leaves_stack_non_empty() {
    let lexed = lex("<img src=\"a.png\">").unwrap();
    let (tokens, open_nodes) = tokenize_with_open_nodes(&lexed);
    assert_eq!(tokens, vec![open("img"), name("src"), value("a.png")]);
    assert_eq!(open_nodes, vec!["img".to_string()]);
}

#[test]
fn boolean_attribute_shorthand() {
    assert_eq!(
        tokens_of("<tag checked>"),
        vec![open("tag"), name("checked"), value("true")]
    );
}

#[test]
fn self_close_matches_explicit_close() {
    assert_eq!(tokens_of("<br />"), tokens_of("<br></br>"));
    assert_eq!(tokens_of("<br />"), vec![open("br"), close("br")]);
    assert_eq!(
        tokens_of("<a href=\"x\"/>"),
        tokens_of("<a href=\"x\"></a>")
    );
}

#[test]
fn slash_right_after_name_self_closes() {
    assert_eq!(tokens_of("<br/>"), vec![open("br"), close("br")]);
    assert_eq!(tokens_of("<br/>"), tokens_of("<br></br>"));
    assert_eq!(
        tokens_of("<a b/>"),
        vec![open("a"), name("b"), value("true"), close("a")]
    );
}

#[test]
fn nested_tags_balance_the_stack() {
    let lexed = lex("<a><b>x</b><c/></a>").unwrap();
    let (tokens, open_nodes) = tokenize_with_open_nodes(&lexed);
    assert_eq!(
        tokens,
        vec![
            open("a"),
            open("b"),
            Tokens::Text("x".to_string()),
            close("b"),
            open("c"),
            close("c"),
            close("a"),
        ]
    );
    assert!(open_nodes.is_empty());
}

#[test]
fn text_is_trimmed_and_blank_text_dropped() {
    assert_eq!(
        tokens_of("<p>  \t hi there \n</p>"),
        vec![open("p"), Tokens::Text("hi there".to_string()), close("p")]
    );
    assert_eq!(tokens_of("<p>   </p>"), vec![open("p"), close("p")]);
}

#[test]
fn quoted_value_keeps_markup_characters() {
    assert_eq!(
        tokens_of("<a q=\"x=y/z\">"),
        vec![open("a"), name("q"), value("x=y/z")]
    );
}

#[test]
fn doctype_is_a_simple_node_left_open() {
    let lexed = lex("<!DOCTYPE html>").unwrap();
    let (tokens, open_nodes) = tokenize_with_open_nodes(&lexed);
    assert_eq!(
        tokens,
        vec![Tokens::SimpleNode("DOCTYPE".to_string()), name("html"), value("true")]
    );
    assert_eq!(open_nodes, vec!["DOCTYPE".to_string()]);
}

#[test]
fn cdata_section_text_is_kept() {
    assert_eq!(
        tokens_of("<d><![CDATA[hello]]></d>"),
        vec![
            open("d"),
            Tokens::Text("CDATA".to_string()),
            Tokens::Text("hello".to_string()),
            close("d"),
        ]
    );
}

#[test]
fn close_without_open_emits_nothing() {
    let lexed = lex("</x>").unwrap();
    let (tokens, open_nodes) = tokenize_with_open_nodes(&lexed);
    assert!(tokens.is_empty());
    assert!(open_nodes.is_empty());
    assert_eq!(tokens_of("<a></a></b>"), vec![open("a"), close("a")]);
}

#[test]
fn closes_never_outnumber_opens() {
    let tokens = tokens_of("</z><a><b/></a></a><c>");
    let mut depth: i64 = 0;
    for t in &tokens {
        match t {
            Tokens::OpenNode(_) | Tokens::SimpleNode(_) => depth += 1,
            Tokens::CloseNode(_) => depth -= 1,
            _ => {}
        }
        assert!(depth >= 0);
    }
    let lexed = lex("</z><a><b/></a></a><c>").unwrap();
    let (_, open_nodes) = tokenize_with_open_nodes(&lexed);
    assert_eq!(depth, open_nodes.len() as i64);
    assert_eq!(open_nodes, vec!["c".to_string()]);
}

#[test]
fn empty_unit_sequence_gives_no_tokens() {
    assert!(tokenize(&[]).unwrap().is_empty());
}
