use doctora::ast::{Block, Inline};
use doctora::parser_winnow::parse_document_winnow;
use doctora::token::Token;

#[test]
fn parser_winnow_test_empty_document() {
    let tokens = vec![];
    let result = parse_document_winnow(&tokens);
    assert!(result.is_ok());
    let doc = result.unwrap();
    assert_eq!(doc.blocks.len(), 0);
}

#[test]
fn parser_winnow_test_simple_paragraph() {
    // "word word"
    let tokens = vec![Token::Word, Token::Word];
    let result = parse_document_winnow(&tokens);
    assert!(result.is_ok());

    let doc = result.unwrap();
    assert_eq!(doc.blocks.len(), 1);

    if let Block::Paragraph { content } = &doc.blocks[0] {
        assert_eq!(content.len(), 2);
        assert!(content[0].is_text());
        assert!(content[1].is_text());
    } else {
        panic!("Expected Paragraph");
    }
}

#[test]
fn parser_winnow_test_bold_text() {
    // "**word**"
    let tokens = vec![Token::BoldDelimiter, Token::Word, Token::BoldDelimiter];
    let result = parse_document_winnow(&tokens);
    assert!(result.is_ok());

    let doc = result.unwrap();
    assert_eq!(doc.blocks.len(), 1);

    if let Block::Paragraph { content } = &doc.blocks[0] {
        assert_eq!(content.len(), 1);
        assert!(content[0].is_bold());
    } else {
        panic!("Expected Paragraph");
    }
}

#[test]
fn parser_winnow_test_italic_text() {
    // "_word_"
    let tokens = vec![Token::ItalicDelimiter, Token::Word, Token::ItalicDelimiter];
    let result = parse_document_winnow(&tokens);
    assert!(result.is_ok());

    let doc = result.unwrap();
    assert_eq!(doc.blocks.len(), 1);

    if let Block::Paragraph { content } = &doc.blocks[0] {
        assert_eq!(content.len(), 1);
        assert!(content[0].is_italic());
    } else {
        panic!("Expected Paragraph");
    }
}

#[test]
fn parser_winnow_test_mixed_formatting() {
    // "word **word** word _word_"
    let tokens = vec![
        Token::Word,
        Token::BoldDelimiter,
        Token::Word,
        Token::BoldDelimiter,
        Token::Word,
        Token::ItalicDelimiter,
        Token::Word,
        Token::ItalicDelimiter,
    ];
    let result = parse_document_winnow(&tokens);
    assert!(result.is_ok());

    let doc = result.unwrap();
    assert_eq!(doc.blocks.len(), 1);

    if let Block::Paragraph { content } = &doc.blocks[0] {
        assert_eq!(content.len(), 4);
        assert!(content[0].is_text());
        assert!(content[1].is_bold());
        assert!(content[2].is_text());
        assert!(content[3].is_italic());
    } else {
        panic!("Expected Paragraph");
    }
}

#[test]
fn parser_winnow_test_simple_heading() {
    // "= Title\n"
    let tokens = vec![Token::Heading1, Token::Word, Token::Newline];
    let result = parse_document_winnow(&tokens);
    assert!(result.is_ok());

    let doc = result.unwrap();
    assert_eq!(doc.blocks.len(), 1);

    if let Block::Section { level, content, .. } = &doc.blocks[0] {
        assert_eq!(*level, 1);
        assert_eq!(content.len(), 0);
    } else {
        panic!("Expected Section");
    }
}

#[test]
fn parser_winnow_test_section_with_paragraph() {
    // "= Title\n\nword word"
    let tokens = vec![
        Token::Heading1,
        Token::Word,
        Token::BlankLine,
        Token::Word,
        Token::Word,
    ];
    let result = parse_document_winnow(&tokens);
    assert!(result.is_ok());

    let doc = result.unwrap();
    assert_eq!(doc.blocks.len(), 1);

    if let Block::Section { level, content, .. } = &doc.blocks[0] {
        assert_eq!(*level, 1);
        assert_eq!(content.len(), 1);

        // Check nested paragraph
        if let Block::Paragraph { content: para_content } = &content[0] {
            assert_eq!(para_content.len(), 2);
        } else {
            panic!("Expected nested Paragraph");
        }
    } else {
        panic!("Expected Section");
    }
}

#[test]
fn parser_winnow_test_multiple_blocks() {
    // "word\n\nword"
    let tokens = vec![Token::Word, Token::BlankLine, Token::Word];
    let result = parse_document_winnow(&tokens);
    assert!(result.is_ok());

    let doc = result.unwrap();
    assert_eq!(doc.blocks.len(), 2);

    assert!(matches!(doc.blocks[0], Block::Paragraph { .. }));
    assert!(matches!(doc.blocks[1], Block::Paragraph { .. }));
}

#[test]
fn parser_winnow_test_nested_sections() {
    // "= H1\n\n== H2\n"
    let tokens = vec![
        Token::Heading1,
        Token::Word,
        Token::BlankLine,
        Token::Heading2,
        Token::Word,
        Token::Newline,
    ];
    let result = parse_document_winnow(&tokens);
    assert!(result.is_ok());

    let doc = result.unwrap();
    assert_eq!(doc.blocks.len(), 1);

    if let Block::Section { level, content, .. } = &doc.blocks[0] {
        assert_eq!(*level, 1);
        assert_eq!(content.len(), 1);

        // Check nested section
        if let Block::Section {
            level: nested_level,
            ..
        } = &content[0]
        {
            assert_eq!(*nested_level, 2);
        } else {
            panic!("Expected nested Section");
        }
    } else {
        panic!("Expected Section");
    }
}

#[test]
fn parser_winnow_test_complex_document() {
    // "= Title\n\nword **bold** _italic_\n\n== Section\n\nword"
    let tokens = vec![
        Token::Heading1,
        Token::Word,
        Token::BlankLine,
        Token::Word,
        Token::BoldDelimiter,
        Token::Word,
        Token::BoldDelimiter,
        Token::ItalicDelimiter,
        Token::Word,
        Token::ItalicDelimiter,
        Token::BlankLine,
        Token::Heading2,
        Token::Word,
        Token::BlankLine,
        Token::Word,
    ];
    let result = parse_document_winnow(&tokens);
    assert!(result.is_ok());

    let doc = result.unwrap();
    assert_eq!(doc.blocks.len(), 1);

    if let Block::Section { level, content, .. } = &doc.blocks[0] {
        assert_eq!(*level, 1);
        assert_eq!(content.len(), 2); // paragraph + nested section

        // First nested block should be paragraph
        assert!(matches!(content[0], Block::Paragraph { .. }));

        // Second nested block should be section
        if let Block::Section {
            level: nested_level,
            content: nested_content,
            ..
        } = &content[1]
        {
            assert_eq!(*nested_level, 2);
            assert_eq!(nested_content.len(), 1); // one paragraph in subsection
        } else {
            panic!("Expected nested Section");
        }
    } else {
        panic!("Expected Section");
    }
}

#[test]
fn parser_winnow_test_nested_formatting() {
    // "**word _italic_**"
    let tokens = vec![
        Token::BoldDelimiter,
        Token::Word,
        Token::ItalicDelimiter,
        Token::Word,
        Token::ItalicDelimiter,
        Token::BoldDelimiter,
    ];
    let result = parse_document_winnow(&tokens);
    assert!(result.is_ok());

    let doc = result.unwrap();
    assert_eq!(doc.blocks.len(), 1);

    if let Block::Paragraph { content } = &doc.blocks[0] {
        assert_eq!(content.len(), 1);

        // Should have bold with nested content
        if let Inline::Bold(bold_content) = &content[0] {
            assert_eq!(bold_content.len(), 2); // text + italic
            assert!(bold_content[0].is_text());
            assert!(bold_content[1].is_italic());
        } else {
            panic!("Expected Bold");
        }
    } else {
        panic!("Expected Paragraph");
    }
}

#[test]
fn parser_winnow_test_paragraph_with_newline() {
    // "word word\n"
    let tokens = vec![Token::Word, Token::Word, Token::Newline];
    let result = parse_document_winnow(&tokens);
    assert!(result.is_ok());

    let doc = result.unwrap();
    assert_eq!(doc.blocks.len(), 1);
}

#[test]
fn parser_winnow_test_multiple_headings() {
    // "= H1\n== H2\n=== H3\n"
    let tokens = vec![
        Token::Heading1,
        Token::Word,
        Token::Newline,
        Token::Heading2,
        Token::Word,
        Token::Newline,
        Token::Heading3,
        Token::Word,
        Token::Newline,
    ];
    let result = parse_document_winnow(&tokens);
    assert!(result.is_ok());

    let doc = result.unwrap();
    // H1 contains H2, H2 contains H3 (nested structure)
    assert_eq!(doc.blocks.len(), 1);

    if let Block::Section { level, content, .. } = &doc.blocks[0] {
        assert_eq!(*level, 1);
        assert!(content.len() > 0);
    } else {
        panic!("Expected Section");
    }
}
