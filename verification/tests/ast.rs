use doctora::ast::{Block, Document, Inline};

#[test]
fn test_document_creation() {
    let doc = Document::new();
    assert_eq!(doc.blocks.len(), 0);

    let doc = Document::with_blocks(vec![Block::Paragraph {
        content: vec![Inline::Text("Test".to_string())],
    }]);
    assert_eq!(doc.blocks.len(), 1);
}

#[test]
fn test_document_default() {
    let doc = Document::default();
    assert_eq!(doc.blocks.len(), 0);
}

#[test]
fn test_block_paragraph() {
    let para = Block::Paragraph {
        content: vec![Inline::Text("Test".to_string())],
    };

    if let Block::Paragraph { content } = para {
        assert_eq!(content.len(), 1);
    } else {
        panic!("Expected Paragraph");
    }
}

#[test]
fn test_block_section() {
    let section = Block::Section {
        level: 1,
        title: vec![Inline::Text("Title".to_string())],
        content: vec![],
    };

    if let Block::Section { level, title, content } = section {
        assert_eq!(level, 1);
        assert_eq!(title, vec![Inline::Text("Title".to_string())]);
        assert_eq!(content.len(), 0);
    } else {
        panic!("Expected Section");
    }
}

#[test]
fn test_nested_section() {
    let section = Block::Section {
        level: 1,
        title: vec![Inline::Text("Main".to_string())],
        content: vec![
            Block::Paragraph {
                content: vec![Inline::Text("Para".to_string())],
            },
            Block::Section {
                level: 2,
                title: vec![Inline::Text("Sub".to_string())],
                content: vec![],
            },
        ],
    };

    if let Block::Section { level, content, .. } = section {
        assert_eq!(level, 1);
        assert_eq!(content.len(), 2);
    } else {
        panic!("Expected Section");
    }
}

#[test]
fn test_inline_text() {
    let text = Inline::Text("Hello".to_string());
    assert!(text.is_text());
    assert!(!text.is_bold());
    assert!(!text.is_italic());
    assert_eq!(text.as_text(), Some("Hello"));
}

#[test]
fn test_inline_bold() {
    let bold = Inline::Bold(vec![Inline::Text("Bold".to_string())]);
    assert!(!bold.is_text());
    assert!(bold.is_bold());
    assert!(!bold.is_italic());
    assert_eq!(bold.as_text(), None);
}

#[test]
fn test_inline_italic() {
    let italic = Inline::Italic(vec![Inline::Text("Italic".to_string())]);
    assert!(!italic.is_text());
    assert!(!italic.is_bold());
    assert!(italic.is_italic());
}

#[test]
fn test_nested_inline() {
    let nested = Inline::Bold(vec![
        Inline::Text("Bold ".to_string()),
        Inline::Italic(vec![Inline::Text("and italic".to_string())]),
    ]);

    if let Inline::Bold(content) = nested {
        assert_eq!(content.len(), 2);
        assert!(content[0].is_text());
        assert!(content[1].is_italic());
    } else {
        panic!("Expected Bold");
    }
}

#[test]
fn test_complex_paragraph() {
    let para = Block::Paragraph {
        content: vec![
            Inline::Text("This is ".to_string()),
            Inline::Bold(vec![Inline::Text("bold".to_string())]),
            Inline::Text(" and ".to_string()),
            Inline::Italic(vec![Inline::Text("italic".to_string())]),
            Inline::Text(".".to_string()),
        ],
    };

    if let Block::Paragraph { content } = para {
        assert_eq!(content.len(), 5);
    } else {
        panic!("Expected Paragraph");
    }
}
