use doctora::ast::{Block, Document, Inline};
use doctora::error_recovery::{decimal, ErrorRecovery, ParseError};
use doctora::grammar::MAX_INLINE_DEPTH;
use doctora::lexer::tokenize;
use doctora::outline::outline;
use doctora::parse_document;
use doctora::parser::{
    document, parse_heading_line, parse_inline_content, parse_inlines, parse_paragraph,
    parse_with_recovery, skip_blank_lines, span_ends, synchronize,
};
use doctora::parser_winnow::{lexemes_of, parse_document_winnow};
use doctora::render::render;
use doctora::token::{Lexeme, Token};

fn text(s: &str) -> Inline {
    Inline::Text(s.to_string())
}

fn bold(items: Vec<Inline>) -> Inline {
    Inline::Bold(items)
}

fn italic(items: Vec<Inline>) -> Inline {
    Inline::Italic(items)
}

fn paragraph(items: Vec<Inline>) -> Block {
    Block::Paragraph { content: items }
}

fn section(level: u8, title: &str, content: Vec<Block>) -> Block {
    Block::Section { level, title: vec![text(title)], content }
}

fn unclosed(delimiter: &str, start: usize) -> ParseError {
    ParseError::UnclosedDelimiter { delimiter: delimiter.to_string(), start }
}

fn unexpected(position: usize, expected: &str, got: &str) -> ParseError {
    ParseError::UnexpectedToken { position, expected: expected.to_string(), got: got.to_string() }
}

fn leaves(items: &[Inline], out: &mut Vec<String>) {
    for item in items {
        match item {
            Inline::Text(s) => out.push(s.clone()),
            Inline::Bold(inner) | Inline::Italic(inner) => leaves(inner, out),
        }
    }
}

fn block_leaves(blocks: &[Block], out: &mut Vec<String>) {
    for block in blocks {
        match block {
            Block::Paragraph { content } => leaves(content, out),
            Block::Section { title, content, .. } => {
                leaves(title, out);
                block_leaves(content, out);
            }
        }
    }
}

fn depth(items: &[Inline]) -> usize {
    items
        .iter()
        .map(|item| match item {
            Inline::Text(_) => 0,
            Inline::Bold(inner) | Inline::Italic(inner) => 1 + depth(inner),
        })
        .max()
        .unwrap_or(0)
}

#[test]
fn empty_input_gives_empty_document() {
    assert_eq!(parse_document(""), Ok(Document { blocks: vec![] }));
    assert_eq!(document(&[]), Ok(Document { blocks: vec![] }));
    assert_eq!(parse_document_winnow(&[]), Ok(Document { blocks: vec![] }));
}

#[test]
fn deeper_heading_nests_under_the_heading_before_it() {
    let doc = parse_document("= A\n\n== B\n").unwrap();
    assert_eq!(doc, Document { blocks: vec![section(1, "A", vec![section(2, "B", vec![])])] });
}

#[test]
fn headings_of_one_level_are_siblings() {
    let doc = parse_document("= A\n\n= B\n").unwrap();
    assert_eq!(doc, Document { blocks: vec![section(1, "A", vec![]), section(1, "B", vec![])] });
}

#[test]
fn unclosed_bold_is_reported_at_its_opening() {
    assert_eq!(parse_document("**word"), Err(vec![unclosed("bold", 0)]));
}

#[test]
fn unclosed_italic_is_reported_at_its_opening() {
    assert_eq!(parse_document("see _this"), Err(vec![unclosed("italic", 4)]));
}

#[test]
fn unclosed_inner_span_is_the_one_reported() {
    assert_eq!(parse_document("**a _b"), Err(vec![unclosed("italic", 4)]));
}

#[test]
fn heading_closes_sections_that_are_not_above_it() {
    let doc = parse_document("= A\n== B\n=== C\n== D\n= E\n").unwrap();
    assert_eq!(
        doc,
        Document {
            blocks: vec![
                section(1, "A", vec![section(2, "B", vec![section(3, "C", vec![])]), section(2, "D", vec![])]),
                section(1, "E", vec![]),
            ]
        }
    );
}

#[test]
fn shallower_heading_after_deeper_one_stands_at_the_top() {
    let doc = parse_document("== B\n= A\n").unwrap();
    assert_eq!(doc, Document { blocks: vec![section(2, "B", vec![]), section(1, "A", vec![])] });
}

#[test]
fn paragraphs_go_under_the_innermost_open_section() {
    let doc = parse_document("intro\n\n= A\n\none\n\n== B\n\ntwo\n\nthree\n\n= C\n\nfour").unwrap();
    assert_eq!(
        doc,
        Document {
            blocks: vec![
                paragraph(vec![text("intro")]),
                section(
                    1,
                    "A",
                    vec![
                        paragraph(vec![text("one")]),
                        section(2, "B", vec![paragraph(vec![text("two")]), paragraph(vec![text("three")])]),
                    ]
                ),
                section(1, "C", vec![paragraph(vec![text("four")])]),
            ]
        }
    );
}

#[test]
fn title_holds_one_text_node_for_each_word() {
    let doc = parse_document("== Getting started now\n").unwrap();
    assert_eq!(
        doc.blocks,
        vec![Block::Section {
            level: 2,
            title: vec![text("Getting"), text("started"), text("now")],
            content: vec![],
        }]
    );
}

#[test]
fn text_nodes_hold_the_words_of_the_source() {
    let doc = parse_document("= Title here\n\nThis is **bold** and _italic_.\n\n== Sub\nlast **_deep_ one**").unwrap();
    let mut found = Vec::new();
    block_leaves(&doc.blocks, &mut found);
    assert_eq!(
        found,
        vec!["Title", "here", "This", "is", "bold", "and", "italic", ".", "Sub", "last", "deep", "one"]
    );
}

#[test]
fn mixed_paragraph_has_the_expected_tree() {
    let doc = parse_document("This is **bold** and _italic_.").unwrap();
    assert_eq!(
        doc.blocks,
        vec![paragraph(vec![
            text("This"),
            text("is"),
            bold(vec![text("bold")]),
            text("and"),
            italic(vec![text("italic")]),
            text("."),
        ])]
    );
}

#[test]
fn spans_of_different_kinds_nest() {
    let doc = parse_document("**a _b **c** d_ e**").unwrap();
    assert_eq!(
        doc.blocks,
        vec![paragraph(vec![bold(vec![
            text("a"),
            italic(vec![text("b"), bold(vec![text("c")]), text("d")]),
            text("e"),
        ])])]
    );
    if let Block::Paragraph { content } = &doc.blocks[0] {
        assert_eq!(depth(content), 3);
    } else {
        panic!("expected a paragraph");
    }
}

#[test]
fn delimiter_of_the_open_kind_closes() {
    let doc = parse_document("**a** b **c**").unwrap();
    assert_eq!(doc.blocks, vec![paragraph(vec![bold(vec![text("a")]), text("b"), bold(vec![text("c")])])]);
}

#[test]
fn empty_span_is_an_unexpected_token() {
    assert_eq!(parse_document("****"), Err(vec![unexpected(2, "text", "bold delimiter (**)")]));
    assert_eq!(parse_document("a __"), Err(vec![unexpected(3, "text", "italic delimiter (_)")]));
}

fn nested_spans(levels: usize) -> Vec<Token> {
    let mut tokens = Vec::new();
    for i in 0..levels {
        tokens.push(if i % 2 == 0 { Token::BoldDelimiter } else { Token::ItalicDelimiter });
    }
    tokens.push(Token::Word);
    for i in (0..levels).rev() {
        tokens.push(if i % 2 == 0 { Token::BoldDelimiter } else { Token::ItalicDelimiter });
    }
    tokens
}

#[test]
fn spans_nest_up_to_the_limit() {
    let doc = parse_document_winnow(&nested_spans(MAX_INLINE_DEPTH)).unwrap();
    if let Block::Paragraph { content } = &doc.blocks[0] {
        assert_eq!(depth(content), MAX_INLINE_DEPTH);
    } else {
        panic!("expected a paragraph");
    }
}

#[test]
fn spans_beyond_the_limit_are_an_invalid_structure() {
    assert_eq!(MAX_INLINE_DEPTH, 64);
    assert_eq!(
        parse_document_winnow(&nested_spans(MAX_INLINE_DEPTH + 1)),
        Err(vec![ParseError::InvalidStructure { message: "inline formatting is nested too deeply".to_string() }])
    );
}

#[test]
fn heading_without_title_is_an_error() {
    assert_eq!(parse_document("= \nfoo"), Err(vec![unexpected(2, "word", "newline")]));
    assert_eq!(
        parse_document("="),
        Err(vec![ParseError::UnexpectedEOF { context: "section title".to_string() }])
    );
}

#[test]
fn heading_line_must_end_with_a_line_break() {
    assert_eq!(
        parse_document("= Title"),
        Err(vec![ParseError::UnexpectedEOF { context: "end of heading line".to_string() }])
    );
    assert_eq!(
        parse_document("= Title **x**\n"),
        Err(vec![unexpected(8, "newline or blank line", "bold delimiter (**)")])
    );
}

#[test]
fn line_break_where_a_block_should_start_is_an_error() {
    assert_eq!(parse_document("\nfoo"), Err(vec![unexpected(0, "heading or text", "newline")]));
    assert_eq!(parse_document("\n\nfoo"), Err(vec![unexpected(0, "heading or text", "blank line")]));
    assert_eq!(parse_document("foo\n \nbar"), Err(vec![unexpected(5, "heading or text", "newline")]));
}

#[test]
fn every_error_is_reported_in_order() {
    let result = parse_document("**a\n\n= \n\n_b\n\nfine\n\n= T");
    assert_eq!(
        result,
        Err(vec![
            unclosed("bold", 0),
            unexpected(7, "word", "blank line"),
            unclosed("italic", 9),
            ParseError::UnexpectedEOF { context: "end of heading line".to_string() },
        ])
    );
}

#[test]
fn recovery_keeps_the_blocks_that_could_be_read() {
    let lexemes = tokenize("first\n\n**broken\n\n= A\n\nsecond _x\nskipped\n\nthird");
    let mut recovery = ErrorRecovery::new();
    let doc = parse_with_recovery(&lexemes, &mut recovery);
    assert_eq!(
        doc,
        Document {
            blocks: vec![
                paragraph(vec![text("first")]),
                section(1, "A", vec![paragraph(vec![text("third")])]),
            ]
        }
    );
    assert!(recovery.has_errors());
    assert_eq!(recovery.errors(), &[unclosed("bold", 7), unclosed("italic", 29)][..]);
    assert_eq!(recovery.into_errors(), vec![unclosed("bold", 7), unclosed("italic", 29)]);
}

#[test]
fn recovery_appends_to_the_errors_already_recorded() {
    let mut recovery = ErrorRecovery::new();
    recovery.record_error(ParseError::InvalidStructure { message: "earlier".to_string() });
    let doc = parse_with_recovery(&tokenize("_x"), &mut recovery);
    assert_eq!(doc.blocks.len(), 0);
    assert_eq!(
        recovery.errors(),
        &[ParseError::InvalidStructure { message: "earlier".to_string() }, unclosed("italic", 0)][..]
    );
}

#[test]
fn recovery_goes_on_at_a_heading() {
    let result = parse_document("**a = T\nb");
    assert_eq!(result, Err(vec![unclosed("bold", 0)]));
    let mut recovery = ErrorRecovery::new();
    let doc = parse_with_recovery(&tokenize("**a = T\nb"), &mut recovery);
    assert_eq!(doc, Document { blocks: vec![section(1, "T", vec![paragraph(vec![text("b")])])] });
}

#[test]
fn positions_of_bare_tags_are_indices() {
    assert_eq!(
        parse_document_winnow(&[Token::Word, Token::BoldDelimiter, Token::Word]),
        Err(vec![unclosed("bold", 1)])
    );
    assert_eq!(
        parse_document_winnow(&[Token::Heading2, Token::Newline]),
        Err(vec![unexpected(1, "word", "newline")])
    );
}

#[test]
fn bare_words_have_the_text_word() {
    let doc = parse_document_winnow(&[Token::Heading3, Token::Word, Token::Newline, Token::Word]).unwrap();
    assert_eq!(doc, Document { blocks: vec![section(3, "word", vec![paragraph(vec![text("word")])])] });
    assert_eq!(
        lexemes_of(&[Token::Heading3, Token::Word]),
        vec![
            Lexeme { token: Token::Heading3, text: "===".to_string(), start: 0, end: 1 },
            Lexeme { token: Token::Word, text: "word".to_string(), start: 1, end: 2 },
        ]
    );
    assert_eq!(
        Lexeme::bare(Token::BlankLine, 7),
        Lexeme { token: Token::BlankLine, text: "\n\n".to_string(), start: 7, end: 8 }
    );
}

#[test]
fn single_line_break_ends_a_paragraph() {
    let doc = parse_document("a\nb").unwrap();
    assert_eq!(doc.blocks, vec![paragraph(vec![text("a")]), paragraph(vec![text("b")])]);
}

#[test]
fn blank_line_behind_a_heading_line_closes_the_section() {
    let doc = parse_document("= A\n \n\nfoo").unwrap();
    assert_eq!(doc.blocks, vec![section(1, "A", vec![]), paragraph(vec![text("foo")])]);
    let doc = parse_document("= A\n\nfoo").unwrap();
    assert_eq!(doc.blocks, vec![section(1, "A", vec![paragraph(vec![text("foo")])])]);
}

#[test]
fn heading_in_a_line_ends_the_paragraph() {
    let doc = parse_document("word = Title\n").unwrap();
    assert_eq!(doc.blocks, vec![paragraph(vec![text("word")]), section(1, "Title", vec![])]);
}

#[test]
fn inline_parser_stops_at_the_first_token_that_is_not_inline() {
    let lexemes = tokenize("a **b**\nc");
    let (items, next) = parse_inlines(&lexemes, 0).unwrap();
    assert_eq!(items, vec![text("a"), bold(vec![text("b")])]);
    assert_eq!(next, 4);
    let (items, next) = parse_inlines(&lexemes, 4).unwrap();
    assert_eq!(items, vec![]);
    assert_eq!(next, 4);
    assert_eq!(parse_inlines(&lexemes, 1), Ok((vec![bold(vec![text("b")])], 4)));
    assert_eq!(parse_inlines(&lexemes, 3), Err((unclosed("bold", 5), 4)));
}

fn sample() -> Document {
    Document {
        blocks: vec![
            paragraph(vec![text("intro"), bold(vec![text("b"), italic(vec![text("i")])])]),
            paragraph(vec![italic(vec![text("x")])]),
            section(
                1,
                "One",
                vec![
                    paragraph(vec![text("p")]),
                    section(3, "Three", vec![]),
                    paragraph(vec![text("after"), text("empty")]),
                    section(2, "Two", vec![section(4, "Four", vec![paragraph(vec![text("q")])])]),
                    section(2, "Again", vec![]),
                ],
            ),
            section(1, "Last", vec![]),
            section(5, "Deeper", vec![]),
        ],
    }
}

#[test]
fn parsing_the_rendering_gives_the_document_back() {
    let doc = sample();
    let lexemes = render(&doc);
    assert_eq!(document(&lexemes), Ok(sample()));
    let empty = Document { blocks: vec![] };
    assert_eq!(render(&empty), vec![]);
    assert_eq!(document(&render(&empty)), Ok(Document { blocks: vec![] }));
}

#[test]
fn rendering_is_canonical() {
    let doc = Document {
        blocks: vec![section(2, "T", vec![paragraph(vec![bold(vec![text("b")])])]), section(1, "E", vec![])],
    };
    let tokens: Vec<Token> = render(&doc).iter().map(|lexeme| lexeme.token).collect();
    assert_eq!(
        tokens,
        vec![
            Token::Heading2,
            Token::Word,
            Token::Newline,
            Token::BoldDelimiter,
            Token::Word,
            Token::BoldDelimiter,
            Token::BlankLine,
            Token::Heading1,
            Token::Word,
            Token::Newline,
            Token::BlankLine,
        ]
    );
    let texts: Vec<String> = render(&doc).iter().map(|lexeme| lexeme.text.clone()).collect();
    assert_eq!(texts, vec!["==", "T", "\n", "**", "b", "**", "\n\n", "=", "E", "\n", "\n\n"]);
}

#[test]
fn rendering_a_parsed_document_parses_to_the_same_document() {
    let source = "= A\n \n\nfoo **bar _baz_**\n\n== B\nx\n\ny\n=== C\n== D\n\n= E\n";
    let doc = parse_document(source).unwrap();
    let again = document(&render(&doc)).unwrap();
    assert_eq!(again, doc);
    assert_eq!(render(&again), render(&doc));
}

#[test]
fn numbers_are_written_in_decimal() {
    assert_eq!(decimal(0), "0");
    assert_eq!(decimal(7), "7");
    assert_eq!(decimal(10), "10");
    assert_eq!(decimal(42), "42");
    assert_eq!(decimal(1234567890), "1234567890");
    assert_eq!(decimal(usize::MAX), usize::MAX.to_string());
}

#[test]
fn messages_of_the_errors() {
    assert_eq!(
        unexpected(12, "word", "newline").to_string(),
        "Unexpected token at position 12: expected word, got newline"
    );
    assert_eq!(unclosed("bold", 0).to_string(), "Unclosed bold delimiter starting at position 0");
    assert_eq!(
        ParseError::InvalidStructure { message: "inline formatting is nested too deeply".to_string() }.to_string(),
        "Invalid structure: inline formatting is nested too deeply"
    );
    assert_eq!(
        ParseError::UnexpectedEOF { context: "section title".to_string() }.to_string(),
        "Unexpected end of input: section title"
    );
}

#[test]
fn descriptions_and_spellings_of_all_tokens() {
    let all = [
        (Token::Heading1, "level 1 heading (=)", "=", Some(1)),
        (Token::Heading2, "level 2 heading (==)", "==", Some(2)),
        (Token::Heading3, "level 3 heading (===)", "===", Some(3)),
        (Token::Heading4, "level 4 heading (====)", "====", Some(4)),
        (Token::Heading5, "level 5 heading (=====)", "=====", Some(5)),
        (Token::Heading6, "level 6 heading (======)", "======", Some(6)),
        (Token::BoldDelimiter, "bold delimiter (**)", "**", None),
        (Token::ItalicDelimiter, "italic delimiter (_)", "_", None),
        (Token::Newline, "newline", "\n", None),
        (Token::BlankLine, "blank line", "\n\n", None),
        (Token::Word, "word", "word", None),
    ];
    for (token, description, spelling, level) in all {
        assert_eq!(token.description(), description);
        assert_eq!(token.canonical(), spelling);
        assert_eq!(token.heading_level(), level);
    }
}

#[test]
fn inline_content_takes_the_whole_stretch() {
    assert_eq!(
        parse_inline_content(&tokenize("a **b _c_**")),
        Ok(vec![text("a"), bold(vec![text("b"), italic(vec![text("c")])])])
    );
    assert_eq!(parse_inline_content(&[]), Ok(vec![]));
    assert_eq!(
        parse_inline_content(&tokenize("a\nb")),
        Err(unexpected(1, "text or delimiter", "newline"))
    );
    assert_eq!(
        parse_inline_content(&tokenize("a = b")),
        Err(unexpected(2, "text or delimiter", "level 1 heading (=)"))
    );
    assert_eq!(parse_inline_content(&tokenize("a **b")), Err(unclosed("bold", 2)));
}

#[test]
fn paragraph_takes_one_line_break() {
    let lexemes = tokenize("a b\n\nc\nd");
    assert_eq!(parse_paragraph(&lexemes, 0), Ok((paragraph(vec![text("a"), text("b")]), 2)));
    assert_eq!(parse_paragraph(&lexemes, 3), Ok((paragraph(vec![text("c")]), 5)));
    assert_eq!(parse_paragraph(&lexemes, 5), Ok((paragraph(vec![text("d")]), 6)));
    assert_eq!(parse_paragraph(&tokenize("_a"), 0), Err((unclosed("italic", 0), 2)));
}

#[test]
fn no_paragraph_starts_where_no_inline_token_stands() {
    let lexemes = tokenize("a\n\n\n= T\nb\n");
    assert_eq!(parse_paragraph(&lexemes, 1), Err((unexpected(1, "text", "blank line"), 1)));
    assert_eq!(parse_paragraph(&lexemes, 2), Err((unexpected(4, "text", "level 1 heading (=)"), 2)));
    assert_eq!(parse_paragraph(&lexemes, 4), Err((unexpected(7, "text", "newline"), 4)));
    assert_eq!(parse_paragraph(&lexemes, 6), Err((unexpected(9, "text", "newline"), 6)));
    assert_eq!(
        parse_paragraph(&lexemes, 7),
        Err((ParseError::UnexpectedEOF { context: "text".to_string() }, 7))
    );
    assert_eq!(
        parse_paragraph(&[], 0),
        Err((ParseError::UnexpectedEOF { context: "text".to_string() }, 0))
    );
    assert_eq!(parse_paragraph(&lexemes, 5), Ok((paragraph(vec![text("b")]), 7)));
}

#[test]
fn span_inside_a_span_of_its_own_kind() {
    let tags = [
        Token::BoldDelimiter,
        Token::BoldDelimiter,
        Token::Word,
        Token::BoldDelimiter,
        Token::BoldDelimiter,
    ];
    let doc = parse_document_winnow(&tags).unwrap();
    assert_eq!(doc.blocks, vec![paragraph(vec![bold(vec![bold(vec![text("word")])])])]);
    if let Block::Paragraph { content } = &doc.blocks[0] {
        assert_eq!(depth(content), 2);
    } else {
        panic!("expected a paragraph");
    }
    let doc = parse_document("__x__").unwrap();
    assert_eq!(doc.blocks, vec![paragraph(vec![italic(vec![italic(vec![text("x")])])])]);
    let doc = parse_document("**a ** ** b ** ****").unwrap();
    assert_eq!(
        doc.blocks,
        vec![paragraph(vec![bold(vec![text("a"), bold(vec![bold(vec![text("b")])])])])]
    );
    let doc = parse_document("_ **a **b** ** _").unwrap();
    assert_eq!(
        doc.blocks,
        vec![paragraph(vec![italic(vec![bold(vec![text("a"), bold(vec![text("b")])])])])]
    );
}

#[test]
fn delimiter_closes_where_it_starts_no_span() {
    let doc = parse_document("**a** **b** **c** _d_ _e_").unwrap();
    assert_eq!(
        doc.blocks,
        vec![paragraph(vec![
            bold(vec![text("a")]),
            bold(vec![text("b")]),
            bold(vec![text("c")]),
            italic(vec![text("d")]),
            italic(vec![text("e")]),
        ])]
    );
    assert_eq!(parse_document("** **x** y**"), Err(vec![unexpected(3, "text", "bold delimiter (**)")]));
}

#[test]
fn span_ends_say_where_a_span_can_be_parsed() {
    let lexemes = tokenize("** ** x ** ** y **z** _");
    assert_eq!(span_ends(&lexemes), vec![5, 4, 0, 0, 0, 0, 9, 0, 0, 0]);
    assert_eq!(span_ends(&tokenize("a\n= b")), vec![0, 0, 0, 0]);
    assert_eq!(span_ends(&[]), Vec::<usize>::new());
}

#[test]
fn many_spans_in_one_paragraph_parse_in_one_pass() {
    let source = "**a** _b_ ".repeat(5000);
    let doc = parse_document(&source).unwrap();
    if let Block::Paragraph { content } = &doc.blocks[0] {
        assert_eq!(content.len(), 10000);
        assert_eq!(depth(content), 1);
    } else {
        panic!("expected a paragraph");
    }
}

#[test]
fn heading_line_gives_title_and_place() {
    let lexemes = tokenize("== Two words\nrest");
    assert_eq!(parse_heading_line(&lexemes, 0), Ok((vec![text("Two"), text("words")], 4)));
    let lexemes = tokenize("== Two\n\nrest");
    assert_eq!(parse_heading_line(&lexemes, 0), Ok((vec![text("Two")], 3)));
    let lexemes = tokenize("= = x");
    assert_eq!(parse_heading_line(&lexemes, 0), Err((unexpected(2, "word", "level 1 heading (=)"), 1)));
}

#[test]
fn no_heading_line_starts_where_no_marker_stands() {
    let lexemes = tokenize("one two\n= T\n");
    assert_eq!(parse_heading_line(&lexemes, 0), Err((unexpected(0, "heading", "word"), 0)));
    assert_eq!(parse_heading_line(&lexemes, 2), Err((unexpected(7, "heading", "newline"), 2)));
    assert_eq!(parse_heading_line(&lexemes, 3), Ok((vec![text("T")], 6)));
}

#[test]
fn synchronizing_goes_to_a_heading_or_behind_blank_lines() {
    let lexemes = tokenize("a b\nc\n\n \n\nd = e\n");
    assert_eq!(synchronize(&lexemes, 0), 6);
    assert_eq!(synchronize(&lexemes, 4), 6);
    assert_eq!(synchronize(&lexemes, 6), 7);
    assert_eq!(synchronize(&lexemes, 7), 7);
    assert_eq!(synchronize(&lexemes, 8), 10);
    assert_eq!(synchronize(&lexemes, 10), 10);
    assert_eq!(skip_blank_lines(&lexemes, 4), 6);
    assert_eq!(skip_blank_lines(&lexemes, 3), 3);
    assert_eq!(skip_blank_lines(&lexemes, 10), 10);
}

#[test]
fn copies_are_equal_to_what_they_copy() {
    let doc = sample();
    assert_eq!(doc.clone(), sample());
    let error = unexpected(3, "word", "newline");
    assert_eq!(error.clone(), error);
    let lexeme = Lexeme::bare(Token::Word, 2);
    assert_eq!(lexeme.clone(), lexeme);
}

#[test]
fn outline_has_one_line_for_each_node() {
    let doc = parse_document("= Title here\n\nsome **bold _both_** text\n\n== Empty\n").unwrap();
    assert_eq!(
        outline(&doc),
        vec![
            "Block 0: Section (level 1)",
            "  Title: 2 items",
            "    Inline 0: Text(\"Title\")",
            "    Inline 1: Text(\"here\")",
            "  Content: 2 nested blocks",
            "    Block 0: Paragraph",
            "      Inline nodes: 3 items",
            "        Inline 0: Text(\"some\")",
            "        Inline 1: Bold",
            "          Inline 0: Text(\"bold\")",
            "          Inline 1: Italic",
            "            Inline 0: Text(\"both\")",
            "        Inline 2: Text(\"text\")",
            "    Block 1: Section (level 2)",
            "      Title: 1 items",
            "        Inline 0: Text(\"Empty\")",
            "      Content: (empty)",
        ]
    );
    assert_eq!(outline(&Document { blocks: vec![] }), Vec::<String>::new());
}

#[test]
fn outline_counts_beyond_nine() {
    let items: Vec<Inline> = (0..12).map(|i| text(&i.to_string())).collect();
    let lines = outline(&Document { blocks: vec![paragraph(items)] });
    assert_eq!(lines.len(), 14);
    assert_eq!(lines[1], "  Inline nodes: 12 items");
    assert_eq!(lines[12], "    Inline 10: Text(\"10\")");
    assert_eq!(lines[13], "    Inline 11: Text(\"11\")");
}

#[test]
fn outline_escapes_quotes_and_backslashes() {
    let doc = parse_document("say \"hi\" a\\b").unwrap();
    assert_eq!(
        outline(&doc),
        vec![
            "Block 0: Paragraph",
            "  Inline nodes: 3 items",
            "    Inline 0: Text(\"say\")",
            "    Inline 1: Text(\"\\\"hi\\\"\")",
            "    Inline 2: Text(\"a\\\\b\")",
        ]
    );
}

#[test]
fn every_node_holds_the_words_of_its_own_stretch() {
    let source = "one **two** three\nfour\n\n= Title words\n_five_ six\n\n== Sub title here\nseven";
    let doc = parse_document(source).unwrap();
    let mut found: Vec<Vec<String>> = Vec::new();
    fn walk(blocks: &[Block], found: &mut Vec<Vec<String>>) {
        for block in blocks {
            match block {
                Block::Paragraph { content } => {
                    let mut words = Vec::new();
                    leaves(content, &mut words);
                    found.push(words);
                }
                Block::Section { title, content, .. } => {
                    let mut words = Vec::new();
                    leaves(title, &mut words);
                    found.push(words);
                    walk(content, found);
                }
            }
        }
    }
    walk(&doc.blocks, &mut found);
    assert_eq!(
        found,
        vec![
            vec!["one", "two", "three"],
            vec!["four"],
            vec!["Title", "words"],
            vec!["five", "six"],
            vec!["Sub", "title", "here"],
            vec!["seven"],
        ]
    );
    let lexemes = tokenize(source);
    assert_eq!(
        parse_paragraph(&lexemes, 0),
        Ok((paragraph(vec![text("one"), bold(vec![text("two")]), text("three")]), 6))
    );
    assert_eq!(parse_paragraph(&lexemes, 6), Ok((paragraph(vec![text("four")]), 7)));
    assert_eq!(parse_heading_line(&lexemes, 8), Ok((vec![text("Title"), text("words")], 12)));
}
