//! The canonical rendering of a document tree as lexemes.
//!
//! A text node is rendered as a word, a span as its delimiter, what it wraps,
//! and its delimiter again. A paragraph is rendered as its nodes and a blank
//! line; a section as its marker, the words of its title, a line break, and
//! the blocks under it, or a blank line where there are none.

use vstd::prelude::*;
use crate::ast::{
    block_views, inline_views, Block, BlockView, Document, DocumentView, Inline, InlineView,
};
use crate::lexer::{heading, heading_token};
use crate::token::{lexeme_views, Lexeme, LexemeView, Token};

verus! {

/// The rendered lexeme with tag `token` and text `text`. A rendered lexeme has
/// no place in a source: its offsets are 0.
pub open spec fn rendered(token: Token, text: Seq<char>) -> LexemeView {
    LexemeView { token, text, start: 0, end: 0 }
}

/// The rendered lexeme of a marker, delimiter or line break.
pub open spec fn render_token(token: Token) -> LexemeView {
    rendered(token, token.canonical_text())
}

/// The canonical rendering of an inline node.
pub open spec fn render_inline(node: InlineView) -> Seq<LexemeView>
    decreases node, 1nat,
{
    match node {
        InlineView::Text(text) => seq![rendered(Token::Word, text)],
        InlineView::Bold(items) => seq![render_token(Token::BoldDelimiter)] + render_inlines(items)
            + seq![render_token(Token::BoldDelimiter)],
        InlineView::Italic(items) => seq![render_token(Token::ItalicDelimiter)] + render_inlines(items)
            + seq![render_token(Token::ItalicDelimiter)],
    }
}

/// The canonical rendering of a sequence of inline nodes.
pub open spec fn render_inlines(items: Seq<InlineView>) -> Seq<LexemeView>
    decreases items, 0nat,
{
    if items.len() == 0 {
        Seq::empty()
    } else {
        render_inlines(items.drop_last()) + render_inline(items.last())
    }
}

/// The canonical rendering of a heading line.
pub open spec fn render_heading(level: nat, title: Seq<InlineView>) -> Seq<LexemeView> {
    seq![render_token(heading_token(level as int))] + render_inlines(title) + seq![render_token(Token::Newline)]
}

/// The canonical rendering of a block.
pub open spec fn render_block(block: BlockView) -> Seq<LexemeView>
    decreases block, 1nat,
{
    match block {
        BlockView::Paragraph { content } => render_inlines(content) + seq![render_token(Token::BlankLine)],
        BlockView::Section { level, title, content } => render_heading(level, title) + (if content.len() == 0 {
            seq![render_token(Token::BlankLine)]
        } else {
            render_blocks(content)
        }),
    }
}

/// The canonical rendering of a sequence of blocks.
pub open spec fn render_blocks(blocks: Seq<BlockView>) -> Seq<LexemeView>
    decreases blocks, 0nat,
{
    if blocks.len() == 0 {
        Seq::empty()
    } else {
        render_blocks(blocks.drop_last()) + render_block(blocks.last())
    }
}

/// The canonical rendering of a document.
pub open spec fn render_document(doc: DocumentView) -> Seq<LexemeView> {
    render_blocks(doc.blocks)
}

fn rendered_lexeme(token: Token) -> (lexeme: Lexeme)
    ensures
        lexeme@ == render_token(token),
{
    Lexeme { token, text: String::from_str(token.canonical()), start: 0, end: 0 }
}

proof fn lemma_views_push(lexemes: Seq<Lexeme>, lexeme: Lexeme)
    ensures
        lexeme_views(lexemes.push(lexeme)) == lexeme_views(lexemes) + seq![lexeme@],
{
    assert(lexeme_views(lexemes.push(lexeme)) =~= lexeme_views(lexemes) + seq![lexeme@]);
}

proof fn lemma_render_inlines_take(items: Seq<InlineView>, n: int)
    requires
        0 <= n < items.len(),
    ensures
        render_inlines(items.take(n + 1)) == render_inlines(items.take(n)) + render_inline(items[n]),
{
    assert(items.take(n + 1).drop_last() =~= items.take(n));
}

proof fn lemma_render_blocks_take(blocks: Seq<BlockView>, n: int)
    requires
        0 <= n < blocks.len(),
    ensures
        render_blocks(blocks.take(n + 1)) == render_blocks(blocks.take(n)) + render_block(blocks[n]),
{
    assert(blocks.take(n + 1).drop_last() =~= blocks.take(n));
}

fn render_inline_into(node: &Inline, out: &mut Vec<Lexeme>)
    ensures
        lexeme_views(final(out)@) == lexeme_views(old(out)@) + render_inline(node@),
    decreases node, 1nat,
{
    let ghost before = lexeme_views(out@);
    match node {
        Inline::Text(text) => {
            let lexeme = Lexeme { token: Token::Word, text: text.clone(), start: 0, end: 0 };
            proof {
                lemma_views_push(out@, lexeme);
            }
            out.push(lexeme);
        },
        Inline::Bold(items) => {
            let open = rendered_lexeme(Token::BoldDelimiter);
            proof {
                lemma_views_push(out@, open);
            }
            out.push(open);
            render_inlines_into(items, out);
            let close = rendered_lexeme(Token::BoldDelimiter);
            proof {
                lemma_views_push(out@, close);
            }
            out.push(close);
            assert(lexeme_views(out@) =~= before + render_inline(node@));
        },
        Inline::Italic(items) => {
            let open = rendered_lexeme(Token::ItalicDelimiter);
            proof {
                lemma_views_push(out@, open);
            }
            out.push(open);
            render_inlines_into(items, out);
            let close = rendered_lexeme(Token::ItalicDelimiter);
            proof {
                lemma_views_push(out@, close);
            }
            out.push(close);
            assert(lexeme_views(out@) =~= before + render_inline(node@));
        },
    }
}

fn render_inlines_into(items: &Vec<Inline>, out: &mut Vec<Lexeme>)
    ensures
        lexeme_views(final(out)@) == lexeme_views(old(out)@) + render_inlines(inline_views(items@)),
    decreases items, 0nat,
{
    let ghost before = lexeme_views(out@);
    let ghost views = inline_views(items@);
    let mut index: usize = 0;
    assert(before + render_inlines(views.take(0)) =~= before);
    while index < items.len()
        invariant
            index <= items.len(),
            views == inline_views(items@),
            lexeme_views(out@) == before + render_inlines(views.take(index as int)),
        decreases items.len() - index,
    {
        let ghost so_far = lexeme_views(out@);
        render_inline_into(&items[index], out);
        proof {
            lemma_render_inlines_take(views, index as int);
            assert(so_far + render_inline(views[index as int]) =~= before + render_inlines(
                views.take(index as int + 1),
            ));
        }
        index = index + 1;
    }
    assert(views.take(items.len() as int) =~= views);
}

fn render_block_into(block: &Block, out: &mut Vec<Lexeme>)
    ensures
        lexeme_views(final(out)@) == lexeme_views(old(out)@) + render_block(block@),
    decreases block, 1nat,
{
    let ghost before = lexeme_views(out@);
    match block {
        Block::Paragraph { content } => {
            render_inlines_into(content, out);
            let blank = rendered_lexeme(Token::BlankLine);
            proof {
                lemma_views_push(out@, blank);
            }
            out.push(blank);
            assert(lexeme_views(out@) =~= before + render_block(block@));
        },
        Block::Section { level, title, content } => {
            let marker = rendered_lexeme(heading(*level as usize));
            proof {
                lemma_views_push(out@, marker);
            }
            out.push(marker);
            render_inlines_into(title, out);
            let line = rendered_lexeme(Token::Newline);
            proof {
                lemma_views_push(out@, line);
            }
            out.push(line);
            assert(lexeme_views(out@) =~= before + render_heading(*level as nat, inline_views(title@)));
            if content.len() == 0 {
                let blank = rendered_lexeme(Token::BlankLine);
                proof {
                    lemma_views_push(out@, blank);
                }
                out.push(blank);
            } else {
                render_blocks_into(content, out);
            }
            assert(lexeme_views(out@) =~= before + render_block(block@));
        },
    }
}

fn render_blocks_into(blocks: &Vec<Block>, out: &mut Vec<Lexeme>)
    ensures
        lexeme_views(final(out)@) == lexeme_views(old(out)@) + render_blocks(block_views(blocks@)),
    decreases blocks, 0nat,
{
    let ghost before = lexeme_views(out@);
    let ghost views = block_views(blocks@);
    let mut index: usize = 0;
    assert(before + render_blocks(views.take(0)) =~= before);
    while index < blocks.len()
        invariant
            index <= blocks.len(),
            views == block_views(blocks@),
            lexeme_views(out@) == before + render_blocks(views.take(index as int)),
        decreases blocks.len() - index,
    {
        let ghost so_far = lexeme_views(out@);
        render_block_into(&blocks[index], out);
        proof {
            lemma_render_blocks_take(views, index as int);
            assert(so_far + render_block(views[index as int]) =~= before + render_blocks(views.take(index as int + 1)));
        }
        index = index + 1;
    }
    assert(views.take(blocks.len() as int) =~= views);
}

/// Renders a document as lexemes, in the canonical way of
/// [`render_document`].
///
/// Parsing the lexemes gives the document back if the document is
/// well-formed
/// ([`lemma_parse_rendered_document`](crate::roundtrip::lemma_parse_rendered_document)).
pub fn render(doc: &Document) -> (lexemes: Vec<Lexeme>)
    ensures
        lexeme_views(lexemes@) == render_document(doc@),
{
    let mut lexemes: Vec<Lexeme> = Vec::new();
    assert(lexeme_views(lexemes@) =~= Seq::<LexemeView>::empty());
    render_blocks_into(&doc.blocks, &mut lexemes);
    assert(Seq::<LexemeView>::empty() + render_document(doc@) =~= render_document(doc@));
    lexemes
}

} // verus!
