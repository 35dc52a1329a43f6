use doctora::lexer::{characters, tokenize, CharClass};
use doctora::token::{Lexeme, Token};

fn lexeme(token: Token, text: &str, start: usize, end: usize) -> Lexeme {
    Lexeme { token, text: text.to_string(), start, end }
}

#[test]
fn lexemes_hold_text_and_byte_offsets() {
    assert_eq!(
        tokenize("= Title\n\nsome **bold** _x_\nend"),
        vec![
            lexeme(Token::Heading1, "=", 0, 1),
            lexeme(Token::Word, "Title", 2, 7),
            lexeme(Token::BlankLine, "\n\n", 7, 9),
            lexeme(Token::Word, "some", 9, 13),
            lexeme(Token::BoldDelimiter, "**", 14, 16),
            lexeme(Token::Word, "bold", 16, 20),
            lexeme(Token::BoldDelimiter, "**", 20, 22),
            lexeme(Token::ItalicDelimiter, "_", 23, 24),
            lexeme(Token::Word, "x", 24, 25),
            lexeme(Token::ItalicDelimiter, "_", 25, 26),
            lexeme(Token::Newline, "\n", 26, 27),
            lexeme(Token::Word, "end", 27, 30),
        ]
    );
}

#[test]
fn offsets_count_bytes_not_characters() {
    assert_eq!(
        tokenize("é ∑x 𝄞 z"),
        vec![
            lexeme(Token::Word, "é", 0, 2),
            lexeme(Token::Word, "∑x", 3, 7),
            lexeme(Token::Word, "𝄞", 8, 12),
            lexeme(Token::Word, "z", 13, 14),
        ]
    );
}

#[test]
fn heading_marker_is_the_longest_that_fits() {
    assert_eq!(
        tokenize("======="),
        vec![lexeme(Token::Heading6, "======", 0, 6), lexeme(Token::Heading1, "=", 6, 7)]
    );
    assert_eq!(
        tokenize("=============="),
        vec![
            lexeme(Token::Heading6, "======", 0, 6),
            lexeme(Token::Heading6, "======", 6, 12),
            lexeme(Token::Heading2, "==", 12, 14),
        ]
    );
    assert_eq!(
        tokenize("== ="),
        vec![lexeme(Token::Heading2, "==", 0, 2), lexeme(Token::Heading1, "=", 3, 4)]
    );
}

#[test]
fn blank_line_covers_the_whole_run_of_line_breaks() {
    assert_eq!(
        tokenize("a\n\n\n\nb"),
        vec![lexeme(Token::Word, "a", 0, 1), lexeme(Token::BlankLine, "\n\n\n\n", 1, 5), lexeme(Token::Word, "b", 5, 6)]
    );
    assert_eq!(
        tokenize("\n \n"),
        vec![lexeme(Token::Newline, "\n", 0, 1), lexeme(Token::Newline, "\n", 2, 3)]
    );
    assert_eq!(
        tokenize("\n\n\t\n\n"),
        vec![lexeme(Token::BlankLine, "\n\n", 0, 2), lexeme(Token::BlankLine, "\n\n", 3, 5)]
    );
}

#[test]
fn lone_star_is_dropped() {
    assert_eq!(tokenize("a*b"), vec![lexeme(Token::Word, "a", 0, 1), lexeme(Token::Word, "b", 2, 3)]);
    assert_eq!(
        tokenize("***"),
        vec![lexeme(Token::BoldDelimiter, "**", 0, 2)]
    );
    assert_eq!(tokenize("*"), vec![]);
}

#[test]
fn other_whitespace_is_dropped_and_ends_a_word() {
    assert_eq!(
        tokenize("a\r\nb"),
        vec![lexeme(Token::Word, "a", 0, 1), lexeme(Token::Newline, "\n", 2, 3), lexeme(Token::Word, "b", 3, 4)]
    );
    assert_eq!(
        tokenize("a\u{a0}b\u{2003}c\u{3000}d\u{b}e"),
        vec![
            lexeme(Token::Word, "a", 0, 1),
            lexeme(Token::Word, "b", 3, 4),
            lexeme(Token::Word, "c", 7, 8),
            lexeme(Token::Word, "d", 11, 12),
            lexeme(Token::Word, "e", 13, 14),
        ]
    );
}

#[test]
fn delimiters_end_a_word() {
    assert_eq!(
        tokenize("a_b=c**d"),
        vec![
            lexeme(Token::Word, "a", 0, 1),
            lexeme(Token::ItalicDelimiter, "_", 1, 2),
            lexeme(Token::Word, "b", 2, 3),
            lexeme(Token::Heading1, "=", 3, 4),
            lexeme(Token::Word, "c", 4, 5),
            lexeme(Token::BoldDelimiter, "**", 5, 7),
            lexeme(Token::Word, "d", 7, 8),
        ]
    );
}

#[test]
fn punctuation_belongs_to_words() {
    assert_eq!(
        tokenize("Hello, world! (x-y) #1"),
        vec![
            lexeme(Token::Word, "Hello,", 0, 6),
            lexeme(Token::Word, "world!", 7, 13),
            lexeme(Token::Word, "(x-y)", 14, 19),
            lexeme(Token::Word, "#1", 20, 22),
        ]
    );
}

#[test]
fn characters_of_a_source() {
    assert_eq!(characters(""), vec![]);
    assert_eq!(characters("a é\n"), vec!['a', ' ', 'é', '\n']);
}

#[test]
fn classes_of_characters() {
    assert!(CharClass::Equals.test('='));
    assert!(!CharClass::Equals.test('-'));
    assert!(CharClass::LineBreak.test('\n'));
    assert!(!CharClass::LineBreak.test('\r'));
    for c in ['a', 'Z', '0', '.', '-', '#', 'é', '\u{200b}', '\u{feff}'] {
        assert!(CharClass::Word.test(c));
    }
    for c in [
        ' ', '\t', '\n', '\u{b}', '\u{c}', '\r', '\u{85}', '\u{a0}', '\u{1680}', '\u{2000}', '\u{2005}', '\u{200a}',
        '\u{2028}', '\u{2029}', '\u{202f}', '\u{205f}', '\u{3000}', '*', '_', '=',
    ] {
        assert!(!CharClass::Word.test(c));
    }
}

#[test]
fn whitespace_is_what_the_standard_library_says() {
    for code in 0u32..0x11000 {
        if let Some(c) = char::from_u32(code) {
            let special = c == '*' || c == '_' || c == '=';
            assert_eq!(CharClass::Word.test(c), !c.is_whitespace() && !special);
        }
    }
}
