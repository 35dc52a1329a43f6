//! What holds of every tree that a parse gives.
//!
//! The scans of [`crate::grammar`] keep their states sound, and so the blocks
//! they end in are sound in the sense of
//! [`document_sound`](crate::wellformed::document_sound): section levels lie
//! between 1 and 6 and grow from a section to the sections under it, titles
//! and paragraphs hold at least one node, and a span wraps at least one node.
//! As long as no error is met the states are well-formed as well, and so a
//! document that a parse gives is well-formed in the sense of
//! [`document_wf`](crate::wellformed::document_wf).

use vstd::prelude::*;
use crate::ast::{BlockView, InlineView};
use crate::error_recovery::ParseErrorView;
use crate::grammar::{
    block_step, heading_line, inline_step, lemma_block_step_advances, lemma_paragraph_advances,
    lemma_skip_blank_bounds, lemma_words_end_bounds, paragraph, parse_result, scan_blocks,
    scan_inlines, BlockState, Delimiter, InlineState, OpenSection, OpenSpan, MAX_INLINE_DEPTH,
};
use crate::token::{LexemeView, Token};
use crate::wellformed::{
    block_sound, block_wf, blocks_sound, blocks_wf, closed_by, document_wf, has_content,
    inline_sound, inlines_sound, lemma_block_wf_sound, may_follow, paragraph_content, settled,
    title_wf,
};

verus! {

/// Whether the open spans can be closed into sound nodes: what each holds so
/// far is sound, and no more than [`MAX_INLINE_DEPTH`] are open.
pub open spec fn spans_wf(open: Seq<OpenSpan>) -> bool {
    &&& open.len() <= MAX_INLINE_DEPTH
    &&& forall|k: int|
        0 <= k < open.len() ==> inlines_sound((#[trigger] open[k]).items, (MAX_INLINE_DEPTH - (k + 1)) as nat)
}

/// Whether a state of the inline scan holds sound nodes only.
pub open spec fn inline_state_wf(state: InlineState) -> bool {
    inlines_sound(state.items, MAX_INLINE_DEPTH as nat) && spans_wf(state.open)
}

/// Whether a state of the inline scan holds anything.
pub open spec fn inline_state_filled(state: InlineState) -> bool {
    state.items.len() > 0 || state.open.len() > 0
}

proof fn lemma_inlines_sound_push(items: Seq<InlineView>, node: InlineView, room: nat)
    requires
        inlines_sound(items, room),
        inline_sound(node, room),
    ensures
        inlines_sound(items.push(node), room),
{
    assert(items.push(node).drop_last() =~= items);
}

proof fn lemma_push_node_wf(state: InlineState, node: InlineView)
    requires
        inline_state_wf(state),
        inline_sound(node, state.room()),
    ensures
        inline_state_wf(state.push_node(node)),
        inline_state_filled(state.push_node(node)),
{
    let next = state.push_node(node);
    if state.open.len() == 0 {
        lemma_inlines_sound_push(state.items, node, MAX_INLINE_DEPTH as nat);
    } else {
        let last = state.open.last();
        let top = state.open.len() - 1;
        assert(state.open[top] == last);
        lemma_inlines_sound_push(last.items, node, (MAX_INLINE_DEPTH - (top + 1)) as nat);
        assert forall|k: int| 0 <= k < next.open.len() implies inlines_sound(
            (#[trigger] next.open[k]).items,
            (MAX_INLINE_DEPTH - (k + 1)) as nat,
        ) by {
            if k < top {
                assert(next.open[k] == state.open[k]);
            }
        }
    }
}

proof fn lemma_spans_wf_drop_last(open: Seq<OpenSpan>)
    requires
        spans_wf(open),
        open.len() > 0,
    ensures
        spans_wf(open.drop_last()),
        inlines_sound(open.last().items, (MAX_INLINE_DEPTH - open.len()) as nat),
{
    let rest = open.drop_last();
    let top = open.len() - 1;
    assert(open[top] == open.last());
    assert forall|k: int| 0 <= k < rest.len() implies inlines_sound(
        (#[trigger] rest[k]).items,
        (MAX_INLINE_DEPTH - (k + 1)) as nat,
    ) by {
        assert(rest[k] == open[k]);
    }
}

proof fn lemma_close_span_wf(state: InlineState)
    requires
        inline_state_wf(state),
        state.open.len() > 0,
        state.open.last().items.len() > 0,
    ensures
        inline_state_wf(state.close_span()),
        inline_state_filled(state.close_span()),
{
    let last = state.open.last();
    let top = state.open.len() - 1;
    let rest = InlineState { items: state.items, open: state.open.drop_last() };
    let node = last.kind.wrap(last.items);
    lemma_spans_wf_drop_last(state.open);
    assert(rest.room() == (MAX_INLINE_DEPTH - top) as nat);
    assert(inline_sound(node, rest.room())) by {
        match last.kind {
            Delimiter::Bold => {},
            Delimiter::Italic => {},
        }
    }
    lemma_push_node_wf(rest, node);
}

proof fn lemma_open_span_wf(state: InlineState, kind: Delimiter, start: int)
    requires
        inline_state_wf(state),
        state.open.len() < MAX_INLINE_DEPTH,
    ensures
        inline_state_wf(state.open_span(kind, start)),
        inline_state_filled(state.open_span(kind, start)),
{
    let next = state.open_span(kind, start);
    let top = state.open.len() as int;
    assert(next.open[top] == OpenSpan { kind, start, items: Seq::empty() });
    assert(inlines_sound(Seq::<InlineView>::empty(), (MAX_INLINE_DEPTH - (top + 1)) as nat));
    assert forall|k: int| 0 <= k < next.open.len() implies inlines_sound(
        (#[trigger] next.open[k]).items,
        (MAX_INLINE_DEPTH - (k + 1)) as nat,
    ) by {
        if k < top {
            assert(next.open[k] == state.open[k]);
        }
    }
}

/// A step of the inline scan keeps the state sound, and leaves something in
/// it.
pub proof fn lemma_inline_step_wf(lexemes: Seq<LexemeView>, pos: int, state: InlineState)
    requires
        0 <= pos < lexemes.len(),
        lexemes[pos].token.is_inline(),
        inline_state_wf(state),
    ensures
        inline_step(lexemes, pos, state) matches Ok(next) ==> inline_state_wf(next) && inline_state_filled(next),
{
    let lexeme = lexemes[pos];
    match crate::grammar::delimiter_of(lexeme.token) {
        None => {
            lemma_push_node_wf(state, InlineView::Text(lexeme.text));
        },
        Some(kind) => {
            if crate::grammar::closes(lexemes, pos, state, kind) {
                if state.open.last().items.len() > 0 {
                    lemma_close_span_wf(state);
                }
            } else if state.open.len() < MAX_INLINE_DEPTH {
                lemma_open_span_wf(state, kind, lexeme.start);
            }
        },
    }
}

/// The nodes that the inline scan ends in are sound; there is at least one if
/// the state it started from held anything or an inline token stood at its
/// start.
pub proof fn lemma_scan_inlines_wf(lexemes: Seq<LexemeView>, pos: int, state: InlineState)
    requires
        0 <= pos <= lexemes.len(),
        inline_state_wf(state),
    ensures
        scan_inlines(lexemes, pos, state) matches Ok((items, _)) ==> {
            &&& inlines_sound(items, MAX_INLINE_DEPTH as nat)
            &&& (inline_state_filled(state) || (pos < lexemes.len() && lexemes[pos].token.is_inline()) ==> items.len()
                > 0)
        },
    decreases lexemes.len() - pos,
{
    if pos < lexemes.len() && lexemes[pos].token.is_inline() {
        lemma_inline_step_wf(lexemes, pos, state);
        match inline_step(lexemes, pos, state) {
            Ok(next) => lemma_scan_inlines_wf(lexemes, pos + 1, next),
            Err(_) => {},
        }
    }
}

/// A paragraph that is read without an error is well-formed: it holds one or
/// more nodes, they are sound, and a span stands directly inside a span of
/// its own kind only as the last node of that span.
pub proof fn lemma_paragraph_wf(lexemes: Seq<LexemeView>, pos: int, above: nat)
    requires
        0 <= pos <= lexemes.len(),
    ensures
        paragraph(lexemes, pos) matches Ok((block, _)) ==> block_wf(block, above) && !has_content(block)
            && block is Paragraph && paragraph_content(block).len() > 0,
{
    if pos < lexemes.len() && lexemes[pos].token.is_inline() {
        let start = InlineState::empty();
        assert(inlines_sound(start.items, MAX_INLINE_DEPTH as nat));
        lemma_scan_inlines_wf(lexemes, pos, start);
        crate::plain::lemma_paragraph_plain(lexemes, pos);
    }
}

/// The title of a heading line that is read without an error is well-formed.
pub proof fn lemma_heading_line_wf(lexemes: Seq<LexemeView>, pos: int)
    requires
        0 <= pos < lexemes.len(),
    ensures
        heading_line(lexemes, pos) matches Ok((title, _)) ==> title_wf(title),
{
    lemma_words_end_bounds(lexemes, pos + 1);
}

/// The blocks of the innermost open section; the top-level blocks if no
/// section is open.
pub open spec fn innermost_blocks(state: BlockState) -> Seq<BlockView> {
    if state.open.len() == 0 {
        state.blocks
    } else {
        state.open.last().content
    }
}

/// The level of the innermost open section; 0 if no section is open.
pub open spec fn innermost_level(state: BlockState) -> nat {
    if state.open.len() == 0 {
        0
    } else {
        state.open.last().level
    }
}

/// Whether every open section can be closed into a well-formed block: the
/// blocks read so far are well-formed where they stand, the levels of the
/// open sections grow from the outermost to the innermost, and each open
/// section may follow the blocks that stand in front of it.
pub open spec fn block_state_wf(state: BlockState) -> bool {
    &&& blocks_wf(state.blocks, 0)
    &&& forall|k: int|
        0 <= k < state.open.len() ==> {
            let section = #[trigger] state.open[k];
            &&& 1 <= section.level <= 6
            &&& title_wf(section.title)
            &&& blocks_wf(section.content, section.level)
        }
    &&& forall|j: int, k: int|
        0 <= j && j + 1 == k && k < state.open.len() ==> {
            &&& (#[trigger] state.open[j]).level < (#[trigger] state.open[k]).level
            &&& closed_by(state.open[j].content, state.open[k].level)
        }
    &&& state.open.len() > 0 ==> closed_by(state.blocks, state.open[0].level)
}

/// The condition under which the block scan, at `pos`, is on its way to a
/// well-formed document: as long as no error is recorded, the state is
/// well-formed, nothing stays open behind the blocks of the innermost open
/// section, and a blank line at `pos` finds that section without blocks.
pub open spec fn on_course(lexemes: Seq<LexemeView>, pos: int, state: BlockState) -> bool {
    state.errors.len() == 0 ==> {
        &&& block_state_wf(state)
        &&& settled(innermost_blocks(state))
        &&& (0 <= pos < lexemes.len() && lexemes[pos].token == Token::BlankLine && state.open.len() > 0
            ==> state.open.last().content.len() == 0)
    }
}

proof fn lemma_blocks_wf_push(blocks: Seq<BlockView>, block: BlockView, above: nat)
    requires
        blocks_wf(blocks, above),
        block_wf(block, above),
        blocks.len() > 0 ==> may_follow(blocks.last(), block),
    ensures
        blocks_wf(blocks.push(block), above),
{
    assert(blocks.push(block).drop_last() =~= blocks);
}

proof fn lemma_attach_wf(state: BlockState, block: BlockView)
    requires
        block_state_wf(state),
        block_wf(block, innermost_level(state)),
        innermost_blocks(state).len() > 0 ==> may_follow(innermost_blocks(state).last(), block),
    ensures
        block_state_wf(state.attach(block)),
        state.attach(block).open.len() == state.open.len(),
        innermost_blocks(state.attach(block)) == innermost_blocks(state).push(block),
        innermost_level(state.attach(block)) == innermost_level(state),
        state.attach(block).errors == state.errors,
{
    let next = state.attach(block);
    let top = state.open.len() as int;
    if top == 0 {
        lemma_blocks_wf_push(state.blocks, block, 0);
    } else {
        let last = state.open.last();
        assert(state.open[top - 1] == last);
        lemma_blocks_wf_push(last.content, block, last.level);
        assert forall|k: int| 0 <= k < next.open.len() implies {
            let section = #[trigger] next.open[k];
            &&& 1 <= section.level <= 6
            &&& title_wf(section.title)
            &&& blocks_wf(section.content, section.level)
        } by {
            if k < top - 1 {
                assert(next.open[k] == state.open[k]);
            }
        }
        assert forall|j: int, k: int| 0 <= j && j + 1 == k && k < next.open.len() implies {
            &&& (#[trigger] next.open[j]).level < (#[trigger] next.open[k]).level
            &&& closed_by(next.open[j].content, next.open[k].level)
        } by {
            assert(next.open[j] == state.open[j]);
            assert(next.open[k].level == state.open[k].level);
        }
        if top > 1 {
            assert(next.open[0] == state.open[0]);
        } else {
            assert(next.open[0].level == state.open[0].level);
        }
    }
}

proof fn lemma_block_state_wf_drop_last(state: BlockState)
    requires
        block_state_wf(state),
        state.open.len() > 0,
    ensures
        block_state_wf(BlockState { open: state.open.drop_last(), ..state }),
        block_wf(state.open.last().block(), innermost_level(BlockState { open: state.open.drop_last(), ..state })),
        closed_by(innermost_blocks(BlockState { open: state.open.drop_last(), ..state }), state.open.last().level),
{
    let top = state.open.len() - 1;
    let last = state.open.last();
    let rest = BlockState { open: state.open.drop_last(), ..state };
    assert(state.open[top] == last);
    assert forall|k: int| 0 <= k < rest.open.len() implies {
        let section = #[trigger] rest.open[k];
        &&& 1 <= section.level <= 6
        &&& title_wf(section.title)
        &&& blocks_wf(section.content, section.level)
    } by {
        assert(rest.open[k] == state.open[k]);
    }
    assert forall|j: int, k: int| 0 <= j && j + 1 == k && k < rest.open.len() implies {
        &&& (#[trigger] rest.open[j]).level < (#[trigger] rest.open[k]).level
        &&& closed_by(rest.open[j].content, rest.open[k].level)
    } by {
        assert(rest.open[j] == state.open[j]);
        assert(rest.open[k] == state.open[k]);
    }
    if top > 0 {
        assert(rest.open[0] == state.open[0]);
        assert(rest.open.last() == state.open[top - 1]);
        assert(state.open[top - 1].level < state.open[top].level);
        assert(closed_by(state.open[top - 1].content, state.open[top].level));
    }
}

proof fn lemma_close_top_wf(state: BlockState)
    requires
        block_state_wf(state),
        state.open.len() > 0,
    ensures
        block_state_wf(state.close_top()),
        state.close_top().open.len() == state.open.len() - 1,
        state.close_top().errors == state.errors,
        innermost_blocks(state.close_top()).len() > 0,
        innermost_blocks(state.close_top()).last() == state.open.last().block(),
        innermost_level(state.close_top()) < state.open.last().level,
{
    let last = state.open.last();
    let rest = BlockState { open: state.open.drop_last(), ..state };
    lemma_block_state_wf_drop_last(state);
    lemma_attach_wf(rest, last.block());
}

/// Closing down to a level keeps the state well-formed, and leaves a state in
/// which a section of that level can be opened.
pub proof fn lemma_close_to_wf(state: BlockState, level: nat)
    requires
        block_state_wf(state),
        closed_by(innermost_blocks(state), level),
    ensures
        block_state_wf(state.close_to(level)),
        state.close_to(level).errors == state.errors,
        closed_by(innermost_blocks(state.close_to(level)), level),
        innermost_level(state.close_to(level)) < level || level == 0,
        level == 0 ==> state.close_to(level).open.len() == 0,
    decreases state.open.len(),
{
    if state.open.len() > 0 && state.open.last().level >= level {
        lemma_close_top_wf(state);
        lemma_close_to_wf(state.close_top(), level);
    }
}

proof fn lemma_open_section_wf(state: BlockState, level: nat, title: Seq<InlineView>)
    requires
        block_state_wf(state),
        innermost_level(state) < level <= 6,
        title_wf(title),
        closed_by(innermost_blocks(state), level),
    ensures
        block_state_wf(state.open_section(level, title)),
        innermost_blocks(state.open_section(level, title)) == Seq::<BlockView>::empty(),
{
    let next = state.open_section(level, title);
    let top = state.open.len() as int;
    assert(next.open[top] == OpenSection { level, title, content: Seq::empty() });
    assert(blocks_wf(Seq::<BlockView>::empty(), level));
    assert forall|k: int| 0 <= k < next.open.len() implies {
        let section = #[trigger] next.open[k];
        &&& 1 <= section.level <= 6
        &&& title_wf(section.title)
        &&& blocks_wf(section.content, section.level)
    } by {
        if k < top {
            assert(next.open[k] == state.open[k]);
        }
    }
    assert forall|j: int, k: int| 0 <= j && j + 1 == k && k < next.open.len() implies {
        &&& (#[trigger] next.open[j]).level < (#[trigger] next.open[k]).level
        &&& closed_by(next.open[j].content, next.open[k].level)
    } by {
        assert(next.open[j] == state.open[j]);
        if k < top {
            assert(next.open[k] == state.open[k]);
        } else {
            assert(state.open[j] == state.open.last());
        }
    }
    if top > 0 {
        assert(next.open[0] == state.open[0]);
    }
}

/// The errors of a state stay in the state that a step of the block scan gives.
pub proof fn lemma_block_step_keeps_errors(lexemes: Seq<LexemeView>, pos: int, state: BlockState)
    requires
        0 <= pos < lexemes.len(),
    ensures
        block_step(lexemes, pos, state).0.errors.len() >= state.errors.len(),
{
    let token = lexemes[pos].token;
    lemma_errors_kept_by_close_to(state, token.level());
    lemma_errors_kept_by_close_to(state, 0);
}

proof fn lemma_errors_kept_by_close_to(state: BlockState, level: nat)
    ensures
        state.close_to(level).errors == state.errors,
    decreases state.open.len(),
{
    if state.open.len() > 0 && state.open.last().level >= level {
        lemma_errors_kept_by_close_to(state.close_top(), level);
    }
}

/// The errors of a state stay in the state that the block scan ends in.
pub proof fn lemma_scan_blocks_keeps_errors(lexemes: Seq<LexemeView>, pos: int, state: BlockState)
    ensures
        scan_blocks(lexemes, pos, state).errors.len() >= state.errors.len(),
    decreases lexemes.len() - pos,
{
    if 0 <= pos < lexemes.len() {
        lemma_block_step_advances(lexemes, pos, state);
        lemma_block_step_keeps_errors(lexemes, pos, state);
        let (next_state, next) = block_step(lexemes, pos, state);
        lemma_scan_blocks_keeps_errors(lexemes, next, next_state);
    } else {
        lemma_errors_kept_by_close_to(state, 0);
    }
}

/// A step of the block scan keeps the scan on course.
pub proof fn lemma_block_step_on_course(lexemes: Seq<LexemeView>, pos: int, state: BlockState)
    requires
        0 <= pos < lexemes.len(),
        on_course(lexemes, pos, state),
    ensures
        on_course(lexemes, block_step(lexemes, pos, state).1, block_step(lexemes, pos, state).0),
{
    let token = lexemes[pos].token;
    let (next_state, next) = block_step(lexemes, pos, state);
    lemma_block_step_keeps_errors(lexemes, pos, state);
    if next_state.errors.len() == 0 {
        if token.is_heading() {
            let level = token.level();
            lemma_close_to_wf(state, level);
            lemma_heading_line_wf(lexemes, pos);
            let closed = state.close_to(level);
            match heading_line(lexemes, pos) {
                Ok((title, _)) => {
                    lemma_open_section_wf(closed, level, title);
                },
                Err(_) => {},
            }
        } else if token.is_inline() {
            lemma_paragraph_wf(lexemes, pos, innermost_level(state));
            lemma_paragraph_advances(lexemes, pos);
            match paragraph(lexemes, pos) {
                Ok((block, behind)) => {
                    lemma_attach_wf(state, block);
                    lemma_skip_blank_bounds(lexemes, behind);
                },
                Err(_) => {},
            }
        } else if token == Token::BlankLine && state.open.len() > 0 {
            lemma_close_top_wf(state);
            lemma_skip_blank_bounds(lexemes, pos);
            assert(state.open.last().content.len() == 0);
            assert(!has_content(state.open.last().block()));
        }
    }
}

/// The block scan, once on course, ends in well-formed blocks if it ends
/// without an error.
pub proof fn lemma_scan_blocks_wf(lexemes: Seq<LexemeView>, pos: int, state: BlockState)
    requires
        on_course(lexemes, pos, state),
    ensures
        scan_blocks(lexemes, pos, state).errors.len() == 0 ==> blocks_wf(scan_blocks(lexemes, pos, state).blocks, 0),
    decreases lexemes.len() - pos,
{
    if 0 <= pos < lexemes.len() {
        lemma_block_step_advances(lexemes, pos, state);
        lemma_block_step_on_course(lexemes, pos, state);
        let (next_state, next) = block_step(lexemes, pos, state);
        lemma_scan_blocks_wf(lexemes, next, next_state);
    } else {
        lemma_errors_kept_by_close_to(state, 0);
        if state.errors.len() == 0 {
            lemma_close_to_wf(state, 0);
        }
    }
}

/// Whether every open section can be closed into a sound block: the blocks
/// read so far are sound where they stand, and the levels of the open
/// sections grow from the outermost to the innermost.
pub open spec fn block_state_sound(state: BlockState) -> bool {
    &&& blocks_sound(state.blocks, 0)
    &&& forall|k: int|
        0 <= k < state.open.len() ==> {
            let section = #[trigger] state.open[k];
            &&& 1 <= section.level <= 6
            &&& title_wf(section.title)
            &&& blocks_sound(section.content, section.level)
        }
    &&& forall|j: int, k: int|
        0 <= j && j + 1 == k && k < state.open.len() ==> (#[trigger] state.open[j]).level < (
        #[trigger] state.open[k]).level
}

proof fn lemma_blocks_sound_push(blocks: Seq<BlockView>, block: BlockView, above: nat)
    requires
        blocks_sound(blocks, above),
        block_sound(block, above),
    ensures
        blocks_sound(blocks.push(block), above),
{
    assert(blocks.push(block).drop_last() =~= blocks);
}

proof fn lemma_attach_sound(state: BlockState, block: BlockView)
    requires
        block_state_sound(state),
        block_sound(block, innermost_level(state)),
    ensures
        block_state_sound(state.attach(block)),
        state.attach(block).open.len() == state.open.len(),
        innermost_level(state.attach(block)) == innermost_level(state),
{
    let next = state.attach(block);
    let top = state.open.len() as int;
    if top == 0 {
        lemma_blocks_sound_push(state.blocks, block, 0);
    } else {
        let last = state.open.last();
        assert(state.open[top - 1] == last);
        lemma_blocks_sound_push(last.content, block, last.level);
        assert forall|k: int| 0 <= k < next.open.len() implies {
            let section = #[trigger] next.open[k];
            &&& 1 <= section.level <= 6
            &&& title_wf(section.title)
            &&& blocks_sound(section.content, section.level)
        } by {
            if k < top - 1 {
                assert(next.open[k] == state.open[k]);
            }
        }
        assert forall|j: int, k: int|
            0 <= j && j + 1 == k && k < next.open.len() implies (#[trigger] next.open[j]).level < (
            #[trigger] next.open[k]).level by {
            assert(next.open[j].level == state.open[j].level);
            assert(next.open[k].level == state.open[k].level);
        }
    }
}

proof fn lemma_close_top_sound(state: BlockState)
    requires
        block_state_sound(state),
        state.open.len() > 0,
    ensures
        block_state_sound(state.close_top()),
        state.close_top().open.len() == state.open.len() - 1,
        innermost_level(state.close_top()) < state.open.last().level,
{
    let top = state.open.len() - 1;
    let last = state.open.last();
    let rest = BlockState { open: state.open.drop_last(), ..state };
    assert(state.open[top] == last);
    assert forall|k: int| 0 <= k < rest.open.len() implies {
        let section = #[trigger] rest.open[k];
        &&& 1 <= section.level <= 6
        &&& title_wf(section.title)
        &&& blocks_sound(section.content, section.level)
    } by {
        assert(rest.open[k] == state.open[k]);
    }
    assert forall|j: int, k: int| 0 <= j && j + 1 == k && k < rest.open.len() implies (#[trigger] rest.open[j]).level
        < (#[trigger] rest.open[k]).level by {
        assert(rest.open[j] == state.open[j]);
        assert(rest.open[k] == state.open[k]);
    }
    if top > 0 {
        assert(rest.open.last() == state.open[top - 1]);
        assert(state.open[top - 1].level < state.open[top].level);
    }
    lemma_attach_sound(rest, last.block());
}

proof fn lemma_close_to_sound(state: BlockState, level: nat)
    requires
        block_state_sound(state),
    ensures
        block_state_sound(state.close_to(level)),
        innermost_level(state.close_to(level)) < level || level == 0,
        level == 0 ==> state.close_to(level).open.len() == 0,
    decreases state.open.len(),
{
    if state.open.len() > 0 && state.open.last().level >= level {
        lemma_close_top_sound(state);
        lemma_close_to_sound(state.close_top(), level);
    }
}

proof fn lemma_open_section_sound(state: BlockState, level: nat, title: Seq<InlineView>)
    requires
        block_state_sound(state),
        innermost_level(state) < level <= 6,
        title_wf(title),
    ensures
        block_state_sound(state.open_section(level, title)),
{
    let next = state.open_section(level, title);
    let top = state.open.len() as int;
    assert(next.open[top] == OpenSection { level, title, content: Seq::empty() });
    assert(blocks_sound(Seq::<BlockView>::empty(), level));
    assert forall|k: int| 0 <= k < next.open.len() implies {
        let section = #[trigger] next.open[k];
        &&& 1 <= section.level <= 6
        &&& title_wf(section.title)
        &&& blocks_sound(section.content, section.level)
    } by {
        if k < top {
            assert(next.open[k] == state.open[k]);
        }
    }
    assert forall|j: int, k: int| 0 <= j && j + 1 == k && k < next.open.len() implies (#[trigger] next.open[j]).level
        < (#[trigger] next.open[k]).level by {
        assert(next.open[j] == state.open[j]);
        if k < top {
            assert(next.open[k] == state.open[k]);
        } else {
            assert(state.open[j] == state.open.last());
        }
    }
}

proof fn lemma_record_sound(state: BlockState, error: ParseErrorView)
    requires
        block_state_sound(state),
    ensures
        block_state_sound(state.record(error)),
{
    let next = state.record(error);
    assert(next.open == state.open);
}

/// A step of the block scan keeps the state sound.
pub proof fn lemma_block_step_sound(lexemes: Seq<LexemeView>, pos: int, state: BlockState)
    requires
        0 <= pos < lexemes.len(),
        block_state_sound(state),
    ensures
        block_state_sound(block_step(lexemes, pos, state).0),
{
    let token = lexemes[pos].token;
    if token.is_heading() {
        let level = token.level();
        lemma_close_to_sound(state, level);
        lemma_heading_line_wf(lexemes, pos);
        let closed = state.close_to(level);
        match heading_line(lexemes, pos) {
            Ok((title, _)) => lemma_open_section_sound(closed, level, title),
            Err(failure) => lemma_record_sound(closed, failure.error),
        }
    } else if token.is_inline() {
        lemma_paragraph_wf(lexemes, pos, innermost_level(state));
        match paragraph(lexemes, pos) {
            Ok((block, _)) => {
                lemma_block_wf_sound(block, innermost_level(state));
                lemma_attach_sound(state, block);
            },
            Err(failure) => lemma_record_sound(state, failure.error),
        }
    } else if token == Token::BlankLine && state.open.len() > 0 {
        lemma_close_top_sound(state);
    } else {
        lemma_close_to_sound(state, 0);
        lemma_record_sound(state.close_to(0), crate::grammar::unexpected_token(lexemes[pos], "heading or text"@));
    }
}

/// The block scan, from a sound state, ends in sound blocks.
pub proof fn lemma_scan_blocks_sound(lexemes: Seq<LexemeView>, pos: int, state: BlockState)
    requires
        block_state_sound(state),
    ensures
        blocks_sound(scan_blocks(lexemes, pos, state).blocks, 0),
    decreases lexemes.len() - pos,
{
    if 0 <= pos < lexemes.len() {
        lemma_block_step_advances(lexemes, pos, state);
        lemma_block_step_sound(lexemes, pos, state);
        let (next_state, next) = block_step(lexemes, pos, state);
        lemma_scan_blocks_sound(lexemes, next, next_state);
    } else {
        lemma_close_to_sound(state, 0);
    }
}

/// The blocks that a parse gives are sound, whether or not it met errors.
pub proof fn lemma_parse_outcome_sound(lexemes: Seq<LexemeView>)
    ensures
        blocks_sound(crate::grammar::parse_outcome(lexemes).blocks, 0),
{
    let start = BlockState::empty();
    assert(blocks_sound(start.blocks, 0));
    lemma_scan_blocks_sound(lexemes, 0, start);
}

/// A document that results from a parse is well-formed.
pub proof fn lemma_parsed_document_wf(lexemes: Seq<LexemeView>)
    ensures
        parse_result(lexemes) matches Ok(doc) ==> document_wf(doc),
{
    let start = BlockState::empty();
    assert(blocks_wf(start.blocks, 0));
    assert(on_course(lexemes, 0, start));
    lemma_scan_blocks_wf(lexemes, 0, start);
}

} // verus!
