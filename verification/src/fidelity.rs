//! No word is lost, none is made up, and none changes its place: the texts of
//! the text nodes of a parsed document, read from its first block to its last,
//! are the texts of the words among the lexemes, in their order.

use vstd::prelude::*;
use crate::ast::{BlockView, DocumentView, InlineView};
use crate::grammar::{
    block_step, delimiter_of, heading_line, inline_step, lemma_block_step_advances,
    lemma_paragraph_advances, lemma_scan_inlines_bounds, lemma_skip_blank_bounds,
    lemma_words_end_bounds, paragraph, parse_result, scan_blocks, scan_inlines, skip_blank,
    title_nodes, BlockState, InlineState, OpenSection, OpenSpan,
};
use crate::invariants::{lemma_block_step_keeps_errors, lemma_scan_blocks_keeps_errors};
use crate::token::{LexemeView, Token};

verus! {

/// The texts of the text nodes in and under `node`, in order.
pub open spec fn inline_texts(node: InlineView) -> Seq<Seq<char>>
    decreases node, 1nat,
{
    match node {
        InlineView::Text(text) => seq![text],
        InlineView::Bold(items) => inlines_texts(items),
        InlineView::Italic(items) => inlines_texts(items),
    }
}

/// The texts of the text nodes in and under `items`, in order.
pub open spec fn inlines_texts(items: Seq<InlineView>) -> Seq<Seq<char>>
    decreases items, 0nat,
{
    if items.len() == 0 {
        Seq::empty()
    } else {
        inlines_texts(items.drop_last()) + inline_texts(items.last())
    }
}

/// The texts of the text nodes of a block, in order: for a section, those of
/// its title, then those of the blocks under it.
pub open spec fn block_texts(block: BlockView) -> Seq<Seq<char>>
    decreases block, 1nat,
{
    match block {
        BlockView::Paragraph { content } => inlines_texts(content),
        BlockView::Section { title, content, .. } => inlines_texts(title) + blocks_texts(content),
    }
}

/// The texts of the text nodes of a sequence of blocks, in order.
pub open spec fn blocks_texts(blocks: Seq<BlockView>) -> Seq<Seq<char>>
    decreases blocks, 0nat,
{
    if blocks.len() == 0 {
        Seq::empty()
    } else {
        blocks_texts(blocks.drop_last()) + block_texts(blocks.last())
    }
}

/// The texts of the text nodes of a document, in order.
pub open spec fn document_texts(doc: DocumentView) -> Seq<Seq<char>> {
    blocks_texts(doc.blocks)
}

/// The texts of the words among the lexemes from `from` up to `to`, in order.
pub open spec fn word_texts(lexemes: Seq<LexemeView>, from: int, to: int) -> Seq<Seq<char>>
    decreases to - from,
{
    if from >= to {
        Seq::empty()
    } else if lexemes[from].token == Token::Word {
        seq![lexemes[from].text] + word_texts(lexemes, from + 1, to)
    } else {
        word_texts(lexemes, from + 1, to)
    }
}

/// The texts of the text nodes held by the open spans, in order.
pub open spec fn spans_texts(open: Seq<OpenSpan>) -> Seq<Seq<char>>
    decreases open.len(),
{
    if open.len() == 0 {
        Seq::empty()
    } else {
        spans_texts(open.drop_last()) + inlines_texts(open.last().items)
    }
}

/// The texts of the text nodes held by a state of the inline scan, in order.
pub open spec fn inline_state_texts(state: InlineState) -> Seq<Seq<char>> {
    inlines_texts(state.items) + spans_texts(state.open)
}

/// The texts of the text nodes held by the open sections, in order.
pub open spec fn sections_texts(open: Seq<OpenSection>) -> Seq<Seq<char>>
    decreases open.len(),
{
    if open.len() == 0 {
        Seq::empty()
    } else {
        sections_texts(open.drop_last()) + block_texts(open.last().block())
    }
}

/// The texts of the text nodes held by a state of the block scan, in order.
pub open spec fn block_state_texts(state: BlockState) -> Seq<Seq<char>> {
    blocks_texts(state.blocks) + sections_texts(state.open)
}

/// The words of two stretches that meet are the words of the two together.
pub proof fn lemma_word_texts_join(lexemes: Seq<LexemeView>, from: int, mid: int, to: int)
    requires
        from <= mid <= to,
    ensures
        word_texts(lexemes, from, to) == word_texts(lexemes, from, mid) + word_texts(lexemes, mid, to),
    decreases mid - from,
{
    if from < mid {
        lemma_word_texts_join(lexemes, from + 1, mid, to);
        assert(word_texts(lexemes, from, to) =~= word_texts(lexemes, from, mid) + word_texts(lexemes, mid, to));
    } else {
        assert(word_texts(lexemes, from, to) =~= word_texts(lexemes, from, mid) + word_texts(lexemes, mid, to));
    }
}

/// A stretch without words has no word texts.
pub proof fn lemma_word_texts_none(lexemes: Seq<LexemeView>, from: int, to: int)
    requires
        forall|i: int| from <= i < to ==> (#[trigger] lexemes[i]).token != Token::Word,
    ensures
        word_texts(lexemes, from, to) == Seq::<Seq<char>>::empty(),
    decreases to - from,
{
    if from < to {
        assert(lexemes[from].token != Token::Word);
        lemma_word_texts_none(lexemes, from + 1, to);
    }
}

proof fn lemma_inlines_texts_push(items: Seq<InlineView>, node: InlineView)
    ensures
        inlines_texts(items.push(node)) == inlines_texts(items) + inline_texts(node),
{
    assert(items.push(node).drop_last() =~= items);
}

proof fn lemma_blocks_texts_push(blocks: Seq<BlockView>, block: BlockView)
    ensures
        blocks_texts(blocks.push(block)) == blocks_texts(blocks) + block_texts(block),
{
    assert(blocks.push(block).drop_last() =~= blocks);
}

proof fn lemma_push_node_texts(state: InlineState, node: InlineView)
    ensures
        inline_state_texts(state.push_node(node)) == inline_state_texts(state) + inline_texts(node),
{
    let next = state.push_node(node);
    if state.open.len() == 0 {
        lemma_inlines_texts_push(state.items, node);
        assert(spans_texts(state.open) =~= Seq::<Seq<char>>::empty());
        assert(inline_state_texts(next) =~= inline_state_texts(state) + inline_texts(node));
    } else {
        let last = state.open.last();
        lemma_inlines_texts_push(last.items, node);
        assert(next.open.drop_last() =~= state.open.drop_last());
        assert(inline_state_texts(next) =~= inline_state_texts(state) + inline_texts(node));
    }
}

proof fn lemma_open_span_texts(state: InlineState, kind: crate::grammar::Delimiter, start: int)
    ensures
        inline_state_texts(state.open_span(kind, start)) == inline_state_texts(state),
{
    let next = state.open_span(kind, start);
    assert(next.open.drop_last() =~= state.open);
    assert(inlines_texts(next.open.last().items) =~= Seq::<Seq<char>>::empty());
    assert(inline_state_texts(next) =~= inline_state_texts(state));
}

proof fn lemma_close_span_texts(state: InlineState)
    requires
        state.open.len() > 0,
    ensures
        inline_state_texts(state.close_span()) == inline_state_texts(state),
{
    let last = state.open.last();
    let rest = InlineState { items: state.items, open: state.open.drop_last() };
    let node = last.kind.wrap(last.items);
    assert(inline_texts(node) == inlines_texts(last.items)) by {
        match last.kind {
            crate::grammar::Delimiter::Bold => {},
            crate::grammar::Delimiter::Italic => {},
        }
    }
    lemma_push_node_texts(rest, node);
    assert(inline_state_texts(rest) + inlines_texts(last.items) =~= inline_state_texts(state));
}

/// A step of the inline scan adds the text of a word, and nothing else.
pub proof fn lemma_inline_step_texts(lexemes: Seq<LexemeView>, pos: int, state: InlineState)
    requires
        0 <= pos < lexemes.len(),
        lexemes[pos].token.is_inline(),
    ensures
        inline_step(lexemes, pos, state) matches Ok(next) ==> inline_state_texts(next) == inline_state_texts(state)
            + word_texts(lexemes, pos, pos + 1),
{
    let lexeme = lexemes[pos];
    assert(word_texts(lexemes, pos + 1, pos + 1) =~= Seq::<Seq<char>>::empty());
    match delimiter_of(lexeme.token) {
        None => {
            lemma_push_node_texts(state, InlineView::Text(lexeme.text));
            assert(word_texts(lexemes, pos, pos + 1) =~= seq![lexeme.text]);
        },
        Some(kind) => {
            assert(word_texts(lexemes, pos, pos + 1) =~= Seq::<Seq<char>>::empty());
            if crate::grammar::closes(lexemes, pos, state, kind) {
                lemma_close_span_texts(state);
            } else {
                lemma_open_span_texts(state, kind, lexeme.start);
            }
            assert(inline_state_texts(state) + Seq::<Seq<char>>::empty() =~= inline_state_texts(state));
        },
    }
}

/// The nodes that the inline scan ends in hold the texts that its state held
/// and those of the words it read, in order.
pub proof fn lemma_scan_inlines_texts(lexemes: Seq<LexemeView>, pos: int, state: InlineState)
    requires
        0 <= pos <= lexemes.len(),
    ensures
        scan_inlines(lexemes, pos, state) matches Ok((items, next)) ==> inlines_texts(items) == inline_state_texts(
            state,
        ) + word_texts(lexemes, pos, next),
    decreases lexemes.len() - pos,
{
    if pos < lexemes.len() && lexemes[pos].token.is_inline() {
        lemma_inline_step_texts(lexemes, pos, state);
        match inline_step(lexemes, pos, state) {
            Ok(stepped) => {
                lemma_scan_inlines_texts(lexemes, pos + 1, stepped);
                lemma_scan_inlines_bounds(lexemes, pos + 1, stepped);
                match scan_inlines(lexemes, pos, state) {
                    Ok((items, next)) => {
                        lemma_word_texts_join(lexemes, pos, pos + 1, next);
                        assert(inline_state_texts(state) + word_texts(lexemes, pos, pos + 1) + word_texts(
                            lexemes,
                            pos + 1,
                            next,
                        ) =~= inline_state_texts(state) + word_texts(lexemes, pos, next));
                    },
                    Err(_) => {},
                }
            },
            Err(_) => {},
        }
    } else if state.open.len() == 0 {
        assert(spans_texts(state.open) =~= Seq::<Seq<char>>::empty());
        assert(word_texts(lexemes, pos, pos) =~= Seq::<Seq<char>>::empty());
        assert(inlines_texts(state.items) =~= inline_state_texts(state) + word_texts(lexemes, pos, pos));
    }
}

/// The text nodes of a paragraph hold the texts of the words among its
/// lexemes, in order.
pub proof fn lemma_paragraph_texts(lexemes: Seq<LexemeView>, pos: int)
    requires
        0 <= pos <= lexemes.len(),
    ensures
        paragraph(lexemes, pos) matches Ok((block, next)) ==> block_texts(block) == word_texts(lexemes, pos, next),
{
    let start = InlineState::empty();
    lemma_scan_inlines_texts(lexemes, pos, start);
    lemma_scan_inlines_bounds(lexemes, pos, start);
    assert(inline_state_texts(start) =~= Seq::<Seq<char>>::empty()) by {
        assert(spans_texts(Seq::<OpenSpan>::empty()) =~= Seq::<Seq<char>>::empty());
    }
    match scan_inlines(lexemes, pos, start) {
        Ok((items, end)) => {
            let next = crate::grammar::skip_newline(lexemes, end);
            assert(Seq::<Seq<char>>::empty() + word_texts(lexemes, pos, end) =~= word_texts(lexemes, pos, end));
            lemma_word_texts_join(lexemes, pos, end, next);
            assert(word_texts(lexemes, end, next) =~= Seq::<Seq<char>>::empty()) by {
                if next > end {
                    assert(word_texts(lexemes, end + 1, next) =~= Seq::<Seq<char>>::empty());
                }
            }
            assert(word_texts(lexemes, pos, end) + Seq::<Seq<char>>::empty() =~= word_texts(lexemes, pos, end));
        },
        Err(_) => {},
    }
}

/// The text nodes of the title of a heading line hold the texts of the words
/// of the line, in order.
pub proof fn lemma_heading_line_texts(lexemes: Seq<LexemeView>, pos: int)
    requires
        0 <= pos < lexemes.len(),
    ensures
        heading_line(lexemes, pos) matches Ok((title, next)) ==> inlines_texts(title) == word_texts(
            lexemes,
            pos + 1,
            next - 1,
        ),
{
    lemma_words_end_bounds(lexemes, pos + 1);
    match heading_line(lexemes, pos) {
        Ok((_, next)) => lemma_title_texts(lexemes, pos + 1, next - 1),
        Err(_) => {},
    }
}

/// The text nodes of a title hold the texts of its words, in order.
pub proof fn lemma_title_texts(lexemes: Seq<LexemeView>, from: int, to: int)
    requires
        0 <= from <= to <= lexemes.len(),
        forall|i: int| from <= i < to ==> (#[trigger] lexemes[i]).token == Token::Word,
    ensures
        inlines_texts(title_nodes(lexemes, from, to)) == word_texts(lexemes, from, to),
    decreases to - from,
{
    let title = title_nodes(lexemes, from, to);
    if from < to {
        lemma_title_texts(lexemes, from, to - 1);
        assert(title.drop_last() =~= title_nodes(lexemes, from, to - 1));
        assert(title.last() == InlineView::Text(lexemes[to - 1].text));
        lemma_word_texts_join(lexemes, from, to - 1, to);
        assert(lexemes[to - 1].token == Token::Word);
        assert(word_texts(lexemes, to, to) =~= Seq::<Seq<char>>::empty());
        assert(word_texts(lexemes, to - 1, to) =~= seq![lexemes[to - 1].text]);
        assert(inlines_texts(title) == inlines_texts(title.drop_last()) + inline_texts(title.last()));
        assert(inline_texts(title.last()) =~= seq![lexemes[to - 1].text]);
    } else {
        assert(title =~= Seq::<InlineView>::empty());
        assert(inlines_texts(title) =~= Seq::<Seq<char>>::empty());
        assert(word_texts(lexemes, from, to) =~= Seq::<Seq<char>>::empty());
    }
}

proof fn lemma_attach_texts(state: BlockState, block: BlockView)
    ensures
        block_state_texts(state.attach(block)) == block_state_texts(state) + block_texts(block),
{
    let next = state.attach(block);
    if state.open.len() == 0 {
        lemma_blocks_texts_push(state.blocks, block);
        assert(sections_texts(state.open) =~= Seq::<Seq<char>>::empty());
        assert(block_state_texts(next) =~= block_state_texts(state) + block_texts(block));
    } else {
        let last = state.open.last();
        lemma_blocks_texts_push(last.content, block);
        assert(next.open.drop_last() =~= state.open.drop_last());
        assert(block_state_texts(next) =~= block_state_texts(state) + block_texts(block));
    }
}

proof fn lemma_close_top_texts(state: BlockState)
    requires
        state.open.len() > 0,
    ensures
        block_state_texts(state.close_top()) == block_state_texts(state),
{
    let rest = BlockState { open: state.open.drop_last(), ..state };
    lemma_attach_texts(rest, state.open.last().block());
    assert(block_state_texts(rest) + block_texts(state.open.last().block()) =~= block_state_texts(state));
}

proof fn lemma_close_to_texts(state: BlockState, level: nat)
    ensures
        block_state_texts(state.close_to(level)) == block_state_texts(state),
    decreases state.open.len(),
{
    if state.open.len() > 0 && state.open.last().level >= level {
        lemma_close_top_texts(state);
        lemma_close_to_texts(state.close_top(), level);
    }
}

proof fn lemma_open_section_texts(state: BlockState, level: nat, title: Seq<InlineView>)
    ensures
        block_state_texts(state.open_section(level, title)) == block_state_texts(state) + inlines_texts(title),
{
    let next = state.open_section(level, title);
    assert(next.open.drop_last() =~= state.open);
    assert(blocks_texts(Seq::<BlockView>::empty()) =~= Seq::<Seq<char>>::empty());
    assert(block_texts(next.open.last().block()) =~= inlines_texts(title));
    assert(block_state_texts(next) =~= block_state_texts(state) + inlines_texts(title));
}

/// From `pos` up to where [`skip_blank`] ends stand blank lines only.
pub proof fn lemma_skip_blank_passes(lexemes: Seq<LexemeView>, pos: int)
    requires
        0 <= pos <= lexemes.len(),
    ensures
        forall|i: int| pos <= i < skip_blank(lexemes, pos) ==> (#[trigger] lexemes[i]).token == Token::BlankLine,
    decreases lexemes.len() - pos,
{
    if pos < lexemes.len() && lexemes[pos].token == Token::BlankLine {
        lemma_skip_blank_passes(lexemes, pos + 1);
    }
}

/// A step of the block scan that records no error adds the texts of the words
/// it passes, and nothing else.
pub proof fn lemma_block_step_texts(lexemes: Seq<LexemeView>, pos: int, state: BlockState)
    requires
        0 <= pos < lexemes.len(),
    ensures
        block_step(lexemes, pos, state).0.errors.len() == state.errors.len() ==> block_state_texts(
            block_step(lexemes, pos, state).0,
        ) == block_state_texts(state) + word_texts(lexemes, pos, block_step(lexemes, pos, state).1),
{
    let token = lexemes[pos].token;
    let (next_state, next) = block_step(lexemes, pos, state);
    let none = Seq::<Seq<char>>::empty();
    crate::invariants::lemma_block_step_keeps_errors(lexemes, pos, state);
    lemma_close_to_texts(state, token.level());
    lemma_close_to_texts(state, 0);
    if next_state.errors.len() == state.errors.len() {
        if token.is_heading() {
            let closed = state.close_to(token.level());
            assert(closed.errors.len() == state.errors.len()) by {
                lemma_close_to_errors_len(state, token.level());
            }
            match heading_line(lexemes, pos) {
                Ok((title, behind)) => {
                    let first = pos + 1;
                    let end = behind - 1;
                    lemma_words_end_bounds(lexemes, first);
                    lemma_open_section_texts(closed, token.level(), title);
                    lemma_title_texts(lexemes, first, end);
                    lemma_word_texts_join(lexemes, pos, first, behind);
                    lemma_word_texts_join(lexemes, first, end, behind);
                    assert(word_texts(lexemes, pos, first) =~= none) by {
                        assert(word_texts(lexemes, first, first) =~= none);
                    }
                    assert(word_texts(lexemes, end, behind) =~= none) by {
                        assert(word_texts(lexemes, behind, behind) =~= none);
                    }
                    assert(word_texts(lexemes, pos, behind) =~= word_texts(lexemes, first, end));
                },
                Err(_) => {},
            }
        } else if token.is_inline() {
            lemma_paragraph_advances(lexemes, pos);
            match paragraph(lexemes, pos) {
                Ok((block, behind)) => {
                    let end = scan_inlines(lexemes, pos, InlineState::empty())->Ok_0.1;
                    lemma_scan_inlines_texts(lexemes, pos, InlineState::empty());
                    lemma_scan_inlines_bounds(lexemes, pos, InlineState::empty());
                    lemma_attach_texts(state, block);
                    lemma_skip_blank_bounds(lexemes, behind);
                    lemma_skip_blank_passes(lexemes, behind);
                    assert(inline_state_texts(InlineState::empty()) =~= none) by {
                        assert(spans_texts(Seq::<OpenSpan>::empty()) =~= none);
                    }
                    assert(block_texts(block) =~= word_texts(lexemes, pos, end));
                    lemma_word_texts_none(lexemes, end, next);
                    lemma_word_texts_join(lexemes, pos, end, next);
                    assert(word_texts(lexemes, pos, next) =~= word_texts(lexemes, pos, end));
                },
                Err(_) => {},
            }
        } else if token == Token::BlankLine && state.open.len() > 0 {
            lemma_close_top_texts(state);
            lemma_skip_blank_bounds(lexemes, pos);
            lemma_skip_blank_passes(lexemes, pos);
            lemma_word_texts_none(lexemes, pos, next);
            assert(block_state_texts(state) + none =~= block_state_texts(state));
        } else {
            lemma_close_to_errors_len(state, 0);
        }
    }
}

proof fn lemma_close_to_errors_len(state: BlockState, level: nat)
    ensures
        state.close_to(level).errors == state.errors,
    decreases state.open.len(),
{
    if state.open.len() > 0 && state.open.last().level >= level {
        lemma_close_to_errors_len(state.close_top(), level);
    }
}

/// If the block scan ends without an error, the blocks it ends in hold the
/// texts that its state held and those of the words from `pos` on, in order.
pub proof fn lemma_scan_blocks_texts(lexemes: Seq<LexemeView>, pos: int, state: BlockState)
    requires
        0 <= pos <= lexemes.len(),
    ensures
        scan_blocks(lexemes, pos, state).errors.len() == 0 ==> block_state_texts(scan_blocks(lexemes, pos, state))
            == block_state_texts(state) + word_texts(lexemes, pos, lexemes.len() as int),
        scan_blocks(lexemes, pos, state).open.len() == 0,
    decreases lexemes.len() - pos,
{
    let end = lexemes.len() as int;
    if pos < lexemes.len() {
        lemma_block_step_advances(lexemes, pos, state);
        lemma_block_step_keeps_errors(lexemes, pos, state);
        lemma_block_step_texts(lexemes, pos, state);
        let (next_state, next) = block_step(lexemes, pos, state);
        lemma_scan_blocks_texts(lexemes, next, next_state);
        lemma_scan_blocks_keeps_errors(lexemes, next, next_state);
        if scan_blocks(lexemes, pos, state).errors.len() == 0 {
            lemma_word_texts_join(lexemes, pos, next, end);
            assert(block_state_texts(state) + word_texts(lexemes, pos, next) + word_texts(lexemes, next, end)
                =~= block_state_texts(state) + word_texts(lexemes, pos, end));
        }
    } else {
        lemma_close_to_texts(state, 0);
        lemma_close_all(state);
        assert(word_texts(lexemes, pos, end) =~= Seq::<Seq<char>>::empty());
        assert(block_state_texts(state) + Seq::<Seq<char>>::empty() =~= block_state_texts(state));
    }
}

proof fn lemma_close_all(state: BlockState)
    ensures
        state.close_to(0).open.len() == 0,
    decreases state.open.len(),
{
    if state.open.len() > 0 {
        lemma_close_all(state.close_top());
    }
}

/// The text nodes of a parsed document hold the texts of the words among the
/// lexemes: all of them, each once, in their order.
pub proof fn lemma_parsed_document_texts(lexemes: Seq<LexemeView>)
    ensures
        parse_result(lexemes) matches Ok(doc) ==> document_texts(doc) == word_texts(lexemes, 0, lexemes.len() as int),
{
    let start = BlockState::empty();
    let none = Seq::<Seq<char>>::empty();
    lemma_scan_blocks_texts(lexemes, 0, start);
    assert(block_state_texts(start) =~= none) by {
        assert(sections_texts(start.open) =~= none);
        assert(blocks_texts(start.blocks) =~= none);
    }
    let end = scan_blocks(lexemes, 0, start);
    assert(sections_texts(end.open) =~= none);
    assert(blocks_texts(end.blocks) + none =~= blocks_texts(end.blocks));
    assert(none + word_texts(lexemes, 0, lexemes.len() as int) =~= word_texts(lexemes, 0, lexemes.len() as int));
}

} // verus!
