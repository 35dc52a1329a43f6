//! The document tree.
//!
//! A [`Document`] owns a sequence of [`Block`]s. A block is a section, with a
//! level, a title and the blocks nested under it, or a paragraph of
//! [`Inline`] nodes. An inline node is a run of text, or a bold or italic span
//! around further inline nodes.
//!
//! The contracts speak of the tree through its views, [`DocumentView`],
//! [`BlockView`] and [`InlineView`], which hold sequences in place of vectors
//! and strings.

use vstd::prelude::*;

verus! {

/// What an inline node is in contracts.
pub enum InlineView {
    /// Plain text.
    Text(Seq<char>),
    /// A bold span and what it wraps.
    Bold(Seq<InlineView>),
    /// An italic span and what it wraps.
    Italic(Seq<InlineView>),
}

/// What a block is in contracts.
#[allow(inconsistent_fields)]
pub enum BlockView {
    /// A heading with the blocks nested under it.
    Section { level: nat, title: Seq<InlineView>, content: Seq<BlockView> },
    /// A paragraph.
    Paragraph { content: Seq<InlineView> },
}

/// What a document is in contracts.
pub struct DocumentView {
    /// The top-level blocks.
    pub blocks: Seq<BlockView>,
}

/// Inline-level node: text and formatting within a paragraph or a title.
#[derive(Debug, PartialEq)]
pub enum Inline {
    /// Plain text content.
    Text(String),
    /// Bold formatting (`**`) around the nodes it holds.
    Bold(Vec<Inline>),
    /// Italic formatting (`_`) around the nodes it holds.
    Italic(Vec<Inline>),
}

/// Block-level node.
#[allow(inconsistent_fields)]
#[derive(Debug, PartialEq)]
pub enum Block {
    /// Section: a heading with nested content.
    Section {
        /// Heading level, 1 to 6, where 1 is the top level.
        level: u8,
        /// The title, as inline nodes.
        title: Vec<Inline>,
        /// Nested blocks: paragraphs and subsections.
        content: Vec<Block>,
    },
    /// Paragraph: text with inline formatting.
    Paragraph {
        /// Inline content.
        content: Vec<Inline>,
    },
}

/// Root node: the whole parsed document.
#[derive(Debug, PartialEq)]
pub struct Document {
    /// Top-level blocks in the document.
    pub blocks: Vec<Block>,
}

/// The views of a sequence of inline nodes, in order.
pub open spec fn inline_views(nodes: Seq<Inline>) -> Seq<InlineView>
    decreases nodes, 0nat,
{
    Seq::new(
        nodes.len(),
        |i: int|
            if 0 <= i < nodes.len() {
                nodes[i].view()
            } else {
                InlineView::Text(Seq::empty())
            },
    )
}

impl View for Inline {
    type V = InlineView;

    open spec fn view(&self) -> InlineView
        decreases self, 1nat,
    {
        match self {
            Inline::Text(text) => InlineView::Text(text@),
            Inline::Bold(nodes) => InlineView::Bold(inline_views(nodes@)),
            Inline::Italic(nodes) => InlineView::Italic(inline_views(nodes@)),
        }
    }
}

/// The views of a sequence of blocks, in order.
pub open spec fn block_views(blocks: Seq<Block>) -> Seq<BlockView>
    decreases blocks, 0nat,
{
    Seq::new(
        blocks.len(),
        |i: int|
            if 0 <= i < blocks.len() {
                blocks[i].view()
            } else {
                BlockView::Paragraph { content: Seq::empty() }
            },
    )
}

impl View for Block {
    type V = BlockView;

    open spec fn view(&self) -> BlockView
        decreases self, 1nat,
    {
        match self {
            Block::Section { level, title, content } => BlockView::Section {
                level: *level as nat,
                title: inline_views(title@),
                content: block_views(content@),
            },
            Block::Paragraph { content } => BlockView::Paragraph { content: inline_views(content@) },
        }
    }
}

impl View for Document {
    type V = DocumentView;

    open spec fn view(&self) -> DocumentView {
        DocumentView { blocks: block_views(self.blocks@) }
    }
}

impl Clone for Inline {
    /// Copies the node and everything under it.
    fn clone(&self) -> (copy: Inline)
        ensures
            copy@ == self@,
        decreases self,
    {
        match self {
            Inline::Text(text) => Inline::Text(text.clone()),
            Inline::Bold(nodes) => Inline::Bold(clone_inlines(nodes)),
            Inline::Italic(nodes) => Inline::Italic(clone_inlines(nodes)),
        }
    }
}

fn clone_inlines(nodes: &Vec<Inline>) -> (copy: Vec<Inline>)
    ensures
        inline_views(copy@) == inline_views(nodes@),
    decreases nodes,
{
    let mut copy: Vec<Inline> = Vec::new();
    let mut index: usize = 0;
    while index < nodes.len()
        invariant
            index <= nodes.len(),
            copy.len() == index,
            forall|i: int| 0 <= i < index ==> (#[trigger] copy@[i])@ == nodes@[i]@,
        decreases nodes.len() - index,
    {
        copy.push(nodes[index].clone());
        index = index + 1;
    }
    assert(inline_views(copy@) =~= inline_views(nodes@));
    copy
}

impl Clone for Block {
    /// Copies the block and everything under it.
    fn clone(&self) -> (copy: Block)
        ensures
            copy@ == self@,
        decreases self,
    {
        match self {
            Block::Section { level, title, content } => Block::Section {
                level: *level,
                title: clone_inlines(title),
                content: clone_blocks(content),
            },
            Block::Paragraph { content } => Block::Paragraph { content: clone_inlines(content) },
        }
    }
}

fn clone_blocks(blocks: &Vec<Block>) -> (copy: Vec<Block>)
    ensures
        block_views(copy@) == block_views(blocks@),
    decreases blocks,
{
    let mut copy: Vec<Block> = Vec::new();
    let mut index: usize = 0;
    while index < blocks.len()
        invariant
            index <= blocks.len(),
            copy.len() == index,
            forall|i: int| 0 <= i < index ==> (#[trigger] copy@[i])@ == blocks@[i]@,
        decreases blocks.len() - index,
    {
        copy.push(blocks[index].clone());
        index = index + 1;
    }
    assert(block_views(copy@) =~= block_views(blocks@));
    copy
}

impl Clone for Document {
    /// Copies the document and everything under it.
    fn clone(&self) -> (copy: Document)
        ensures
            copy@ == self@,
    {
        Document { blocks: clone_blocks(&self.blocks) }
    }
}

impl Document {
    /// Creates a new empty document.
    pub fn new() -> (doc: Document)
        ensures
            doc@.blocks == Seq::<BlockView>::empty(),
            doc.blocks@ == Seq::<Block>::empty(),
    {
        let doc = Document { blocks: Vec::new() };
        assert(doc@.blocks =~= Seq::<BlockView>::empty());
        doc
    }

    /// Creates a document with the given blocks.
    pub fn with_blocks(blocks: Vec<Block>) -> (doc: Document)
        ensures
            doc.blocks == blocks,
            doc@.blocks == block_views(blocks@),
    {
        Document { blocks }
    }
}

impl Default for Document {
    fn default() -> (doc: Document)
        ensures
            doc@.blocks == Seq::<BlockView>::empty(),
            doc.blocks@ == Seq::<Block>::empty(),
    {
        Document::new()
    }
}

impl Inline {
    /// Checks if this inline node is text.
    pub fn is_text(&self) -> (b: bool)
        ensures
            b == (self@ is Text),
    {
        match self {
            Inline::Text(_) => true,
            _ => false,
        }
    }

    /// Checks if this inline node is bold.
    pub fn is_bold(&self) -> (b: bool)
        ensures
            b == (self@ is Bold),
    {
        match self {
            Inline::Bold(_) => true,
            _ => false,
        }
    }

    /// Checks if this inline node is italic.
    pub fn is_italic(&self) -> (b: bool)
        ensures
            b == (self@ is Italic),
    {
        match self {
            Inline::Italic(_) => true,
            _ => false,
        }
    }

    /// Extracts the text content if this is a text node.
    pub fn as_text(&self) -> (text: Option<&str>)
        ensures
            match self@ {
                InlineView::Text(chars) => text matches Some(s) && s@ == chars,
                _ => text is None,
            },
    {
        match self {
            Inline::Text(s) => Some(s.as_str()),
            _ => None,
        }
    }
}

} // verus!
