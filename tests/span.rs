use greyxml::lexer::{lex, LexError, Lexicals};

type TestResult<T> = Result<T, LexError>;

fn test_span(
    lexical: &Lexicals,
    expected_row: usize,
    expected_column: usize,
    expected_length: usize,
) {
    match lexical {
        Lexicals::OpenArrow(span)
        | Lexicals::CloseArrow(span)
        | Lexicals::ImmediateClose(span)
        | Lexicals::CloseFSlash(span)
        | Lexicals::LeftSquareBracket(span)
        | Lexicals::RightSquareBracket(span)
        | Lexicals::Bang(span)
        | Lexicals::Equals(span)
        | Lexicals::DoubleQuote(span)
        | Lexicals::Question(span) => {
            assert_eq!(span.row, expected_row);
            assert_eq!(span.column, expected_column);
            assert_eq!(span.length, expected_length);
        }
        Lexicals::Text(_, span) => {
            assert_eq!(span.row, expected_row);
            assert_eq!(span.column, expected_column);
            assert_eq!(span.length, expected_length);
        }
    }
}

#[test]
fn test_simple_span() -> TestResult<()> {
    let xml = r#"<html></html>"#;
    let lexed = lex(xml)?;

    test_span(&lexed[0], 1, 1, 1);
    test_span(&lexed[1], 1, 2, 4);
    test_span(&lexed[2], 1, 6, 1);
    test_span(&lexed[3], 1, 7, 1);
    test_span(&lexed[4], 1, 8, 1);
    test_span(&lexed[5], 1, 9, 4);
    test_span(&lexed[6], 1, 13, 1);

    Ok(())
}

// Rows advance once per newline and columns restart after each one, so the
// multi-line text begins on row 3 and the closing tags stand on rows 6 and 7.
#[test]
fn test_multiline_span() -> TestResult<()> {
    let xml = r#"<html>
    <div>
        This is
        Some Multiline
        Text
    </div>
</html>"#;
    let lexed = lex(xml)?;

    test_span(&lexed[0], 1, 1, 1);
    test_span(&lexed[1], 1, 2, 4);
    test_span(&lexed[2], 1, 6, 1);
    test_span(&lexed[3], 2, 1, 4);
    test_span(&lexed[4], 2, 5, 1);
    test_span(&lexed[5], 2, 6, 3);
    test_span(&lexed[6], 2, 9, 1);
    test_span(&lexed[7], 3, 1, 56);
    test_span(&lexed[8], 6, 5, 1);
    test_span(&lexed[9], 6, 6, 1);
    test_span(&lexed[10], 6, 7, 3);
    test_span(&lexed[11], 6, 10, 1);
    test_span(&lexed[12], 7, 1, 1);
    test_span(&lexed[13], 7, 2, 1);
    test_span(&lexed[14], 7, 3, 4);
    test_span(&lexed[15], 7, 7, 1);
    assert_eq!(lexed.len(), 16);

    Ok(())
}

#[test]
fn declaration_close_covers_two_characters() {
    // `?>` does not flush the pending text, so the `a` is dropped.
    let lexed = lex("<?a?>").unwrap();
    assert_eq!(lexed.len(), 3);
    match &lexed[2] {
        Lexicals::ImmediateClose(span) => {
            assert_eq!((span.row, span.column, span.length), (1, 4, 2));
        }
        other => panic!("unexpected unit {:?}", other),
    }
}

#[test]
fn unit_after_newline_starts_a_row() {
    let lexed = lex("<a>\n  <b>").unwrap();
    // '<' of the second tag flushes the two spaces first.
    match &lexed[3] {
        Lexicals::Text(t, span) => {
            assert_eq!(t, "  ");
            assert_eq!((span.row, span.column, span.length), (2, 1, 2));
        }
        other => panic!("unexpected unit {:?}", other),
    }
    match &lexed[4] {
        Lexicals::OpenArrow(span) => assert_eq!((span.row, span.column), (2, 3)),
        other => panic!("unexpected unit {:?}", other),
    }
}

#[test]
fn empty_input_gives_no_units() {
    assert!(lex("").unwrap().is_empty());
}

#[test]
fn trailing_text_without_delimiter_is_dropped() {
    assert!(lex("plain words").unwrap().is_empty());
}

#[test]
fn consecutive_units_on_a_row_do_not_overlap() {
    let lexed = lex("<a href=\"x y\" b>text</a>").unwrap();
    let spans: Vec<_> = lexed
        .iter()
        .map(|u| match u {
            Lexicals::Text(_, s)
            | Lexicals::OpenArrow(s)
            | Lexicals::CloseArrow(s)
            | Lexicals::ImmediateClose(s)
            | Lexicals::CloseFSlash(s)
            | Lexicals::LeftSquareBracket(s)
            | Lexicals::RightSquareBracket(s)
            | Lexicals::Bang(s)
            | Lexicals::Equals(s)
            | Lexicals::DoubleQuote(s)
            | Lexicals::Question(s) => *s,
        })
        .collect();
    for w in spans.windows(2) {
        assert_eq!(w[0].row, w[1].row);
        assert!(w[1].column >= w[0].column + w[0].length);
    }
}

#[test]
fn self_closing_slash_follows_the_name() {
    let lexed = lex("<br/>").unwrap();
    assert_eq!(lexed.len(), 4);
    match &lexed[1] {
        Lexicals::Text(t, span) => {
            assert_eq!(t, "br");
            assert_eq!((span.row, span.column, span.length), (1, 2, 2));
        }
        other => panic!("unexpected unit {:?}", other),
    }
    match &lexed[2] {
        Lexicals::CloseFSlash(span) => assert_eq!((span.row, span.column), (1, 4)),
        other => panic!("unexpected unit {:?}", other),
    }
}

#[test]
fn first_row_columns_count_from_the_start() {
    let lexed = lex("ab<c>").unwrap();
    match &lexed[0] {
        Lexicals::Text(_, span) => assert_eq!((span.row, span.column, span.length), (1, 1, 2)),
        other => panic!("unexpected unit {:?}", other),
    }
    match &lexed[1] {
        Lexicals::OpenArrow(span) => assert_eq!((span.row, span.column), (1, 3)),
        other => panic!("unexpected unit {:?}", other),
    }
}

#[test]
fn text_span_ends_at_its_last_character() {
    let lexed = lex("ab\n[").unwrap();
    assert_eq!(lexed.len(), 2);
    match &lexed[0] {
        Lexicals::Text(t, span) => {
            assert_eq!(t, "ab");
            assert_eq!((span.row, span.column, span.length), (1, 1, 2));
        }
        other => panic!("unexpected unit {:?}", other),
    }
    match &lexed[1] {
        Lexicals::LeftSquareBracket(span) => {
            assert_eq!((span.row, span.column, span.length), (2, 1, 1))
        }
        other => panic!("unexpected unit {:?}", other),
    }
}

#[test]
fn one_line_text_length_is_its_character_count() {
    let lexed = lex("<p>Hello\n</p>").unwrap();
    match &lexed[3] {
        Lexicals::Text(t, span) => {
            assert_eq!(t, "Hello");
            assert_eq!((span.row, span.column, span.length), (1, 4, 5));
        }
        other => panic!("unexpected unit {:?}", other),
    }
    match &lexed[4] {
        Lexicals::OpenArrow(span) => assert_eq!((span.row, span.column), (2, 1)),
        other => panic!("unexpected unit {:?}", other),
    }
}
