use doctora::lexer::tokenize;
use doctora::token::Token;

/// Collects the tags of all lexemes of the input.
fn lex_all(input: &str) -> Vec<Token> {
    tokenize(input).iter().map(|lexeme| lexeme.token).collect()
}

/// Collects the tags of all lexemes of the input with their spans.
fn lex_with_spans(input: &str) -> Vec<(Token, std::ops::Range<usize>)> {
    tokenize(input)
        .iter()
        .map(|lexeme| (lexeme.token, lexeme.start..lexeme.end))
        .collect()
}

#[test]
fn test_heading_levels() {
    assert_eq!(lex_all("="), vec![Token::Heading1]);
    assert_eq!(lex_all("=="), vec![Token::Heading2]);
    assert_eq!(lex_all("==="), vec![Token::Heading3]);
    assert_eq!(lex_all("===="), vec![Token::Heading4]);
    assert_eq!(lex_all("====="), vec![Token::Heading5]);
    assert_eq!(lex_all("======"), vec![Token::Heading6]);
}

#[test]
fn test_heading_with_text() {
    let tokens = lex_all("= Document");
    assert_eq!(tokens, vec![Token::Heading1, Token::Word]);
}

#[test]
fn test_bold_formatting() {
    let tokens = lex_all("**bold**");
    assert_eq!(
        tokens,
        vec![Token::BoldDelimiter, Token::Word, Token::BoldDelimiter]
    );
}

#[test]
fn test_italic_formatting() {
    let tokens = lex_all("_italic_");
    assert_eq!(
        tokens,
        vec![Token::ItalicDelimiter, Token::Word, Token::ItalicDelimiter]
    );
}

#[test]
fn token_test_mixed_formatting() {
    let tokens = lex_all("This is **bold** and _italic_.");
    assert_eq!(
        tokens,
        vec![
            Token::Word, // This
            Token::Word, // is
            Token::BoldDelimiter,
            Token::Word, // bold
            Token::BoldDelimiter,
            Token::Word, // and
            Token::ItalicDelimiter,
            Token::Word, // italic
            Token::ItalicDelimiter,
            Token::Word, // .
        ]
    );
}

#[test]
fn test_newlines() {
    let tokens = lex_all("line1\nline2");
    assert_eq!(tokens, vec![Token::Word, Token::Newline, Token::Word]);
}

#[test]
fn test_blank_lines() {
    let tokens = lex_all("para1\n\npara2");
    assert_eq!(tokens, vec![Token::Word, Token::BlankLine, Token::Word]);
}

#[test]
fn test_example_document() {
    let input = "= Heading\n\nThis is **bold** and _italic_.";
    let tokens = lex_all(input);

    assert_eq!(
        tokens,
        vec![
            Token::Heading1,
            Token::Word, // Heading
            Token::BlankLine,
            Token::Word, // This
            Token::Word, // is
            Token::BoldDelimiter,
            Token::Word, // bold
            Token::BoldDelimiter,
            Token::Word, // and
            Token::ItalicDelimiter,
            Token::Word, // italic
            Token::ItalicDelimiter,
            Token::Word, // .
        ]
    );
}

#[test]
fn test_span_tracking() {
    let input = "= Title";
    let tokens = lex_with_spans(input);

    assert_eq!(tokens.len(), 2);

    // Heading should be at position 0-1
    assert_eq!(tokens[0].0, Token::Heading1);
    assert_eq!(tokens[0].1, 0..1);

    // "Title" should be at position 2-7 (after space at 1)
    assert_eq!(tokens[1].0, Token::Word);
    assert_eq!(tokens[1].1, 2..7);
}

#[test]
fn test_whitespace_skipping() {
    // Inline whitespace (spaces, tabs) should be skipped
    let tokens = lex_all("word1    word2");
    assert_eq!(tokens, vec![Token::Word, Token::Word]);

    let tokens = lex_all("word1\t\tword2");
    assert_eq!(tokens, vec![Token::Word, Token::Word]);
}

#[test]
fn token_test_multiple_headings() {
    let input = "= H1\n== H2\n=== H3";
    let tokens = lex_all(input);

    assert_eq!(
        tokens,
        vec![
            Token::Heading1,
            Token::Word, // H1
            Token::Newline,
            Token::Heading2,
            Token::Word, // H2
            Token::Newline,
            Token::Heading3,
            Token::Word, // H3
        ]
    );
}

#[test]
fn token_test_nested_formatting() {
    // Test that we can handle overlapping delimiters
    // (actual nesting semantics will be handled by parser)
    let tokens = lex_all("**bold _and italic_**");
    assert_eq!(
        tokens,
        vec![
            Token::BoldDelimiter,
            Token::Word, // bold
            Token::ItalicDelimiter,
            Token::Word, // and
            Token::Word, // italic
            Token::ItalicDelimiter,
            Token::BoldDelimiter,
        ]
    );
}

#[test]
fn test_token_description() {
    assert_eq!(Token::Heading1.description(), "level 1 heading (=)");
    assert_eq!(Token::BoldDelimiter.description(), "bold delimiter (**)");
    assert_eq!(Token::ItalicDelimiter.description(), "italic delimiter (_)");
    assert_eq!(Token::Word.description(), "word");
}

#[test]
fn test_empty_input() {
    let tokens = lex_all("");
    assert_eq!(tokens, vec![]);
}

#[test]
fn test_only_whitespace() {
    let tokens = lex_all("   \t  ");
    assert_eq!(tokens, vec![]);
}
