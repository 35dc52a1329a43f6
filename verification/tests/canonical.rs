use doctora::ast::{Block, Document, Inline};
use doctora::canonical::{spell_out, to_source};
use doctora::lexer::tokenize;
use doctora::parse_document;
use doctora::render::render;
use doctora::token::{Lexeme, Token};

fn word(s: &str) -> Inline {
    Inline::Text(s.to_string())
}

fn heading(level: u8, title: &[&str], content: Vec<Block>) -> Block {
    Block::Section { level, title: title.iter().map(|s| word(s)).collect(), content }
}

fn lines(items: Vec<Inline>) -> Block {
    Block::Paragraph { content: items }
}

fn example() -> Document {
    Document {
        blocks: vec![
            lines(vec![word("Hello,"), Inline::Bold(vec![word("big"), Inline::Italic(vec![word("wide")])]), word("world!")]),
            heading(
                1,
                &["First", "part"],
                vec![
                    heading(2, &["Empty"], vec![]),
                    lines(vec![Inline::Italic(vec![Inline::Bold(vec![word("x")])])]),
                    lines(vec![word("é"), word("∑")]),
                    heading(3, &["Deep"], vec![lines(vec![word("down")])]),
                    heading(2, &["Up"], vec![]),
                ],
            ),
            heading(1, &["Second"], vec![]),
        ],
    }
}

#[test]
fn canonical_text_of_a_small_document() {
    let doc = Document {
        blocks: vec![heading(1, &["A", "b"], vec![lines(vec![word("x"), Inline::Bold(vec![word("y")])])])],
    };
    assert_eq!(to_source(&doc), "= A b \n x ** y ** \n\n ");
    let empty = Document { blocks: vec![heading(2, &["E"], vec![])] };
    assert_eq!(to_source(&empty), "== E \n \n\n ");
    assert_eq!(to_source(&Document { blocks: vec![] }), "");
}

#[test]
fn spelling_puts_a_space_behind_every_lexeme() {
    let lexemes = vec![
        Lexeme { token: Token::Word, text: "ab".to_string(), start: 5, end: 7 },
        Lexeme { token: Token::BlankLine, text: "\n\n\n".to_string(), start: 7, end: 10 },
        Lexeme { token: Token::ItalicDelimiter, text: "_".to_string(), start: 10, end: 11 },
    ];
    assert_eq!(spell_out(&lexemes), "ab \n\n\n _ ");
    assert_eq!(spell_out(&[]), "");
}

#[test]
fn tokenizing_the_canonical_text_reads_the_rendering() {
    let doc = example();
    let rendered: Vec<(Token, String)> = render(&doc).into_iter().map(|l| (l.token, l.text)).collect();
    let read: Vec<(Token, String)> = tokenize(&to_source(&doc)).into_iter().map(|l| (l.token, l.text)).collect();
    assert_eq!(read, rendered);
}

#[test]
fn parsing_the_canonical_text_gives_the_document_back() {
    let doc = example();
    assert_eq!(parse_document(&to_source(&doc)), Ok(example()));
}

#[test]
fn canonical_text_of_a_parsed_document_parses_to_the_same_document() {
    let sources = [
        "",
        "just words",
        "= Title\n\nThis is **bold** and _italic_.\n\n== Section\n\nMore _**nested** text_ here.\n",
        "= A\n \n\nfoo\n== B\n=== C\nx\ny\n\n\n\nz\n= D\n",
        "====== six\n===== five\n==== four\n=== three\n== two\n= one\n",
    ];
    for source in sources {
        let doc = parse_document(source).unwrap();
        let text = to_source(&doc);
        let again = parse_document(&text).unwrap();
        assert_eq!(again, doc);
        assert_eq!(to_source(&again), text);
    }
}
