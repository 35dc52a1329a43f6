//! Every node of a parsed document is what was read at its place.
//!
//! A paragraph of a document that a parse gives is the paragraph that the
//! paragraph parser reads at the place where the paragraph starts, and its
//! text nodes hold the texts of the words of its stretch of the lexemes. A
//! section has the title that its heading line holds, and the text nodes of
//! the title hold the texts of the words between the heading marker and the
//! end of the heading line. The blocks stand in the document in the order of
//! their stretches, each starting where the one in front of it ends.

use vstd::prelude::*;
use crate::ast::{BlockView, DocumentView, InlineView};
use crate::fidelity::{inlines_texts, lemma_heading_line_texts, lemma_paragraph_texts, word_texts};
use crate::grammar::{
    block_step, heading_line, lemma_block_step_advances, lemma_heading_line_advances,
    lemma_paragraph_advances, lemma_skip_blank_bounds, paragraph, parse_result, scan_blocks,
    skip_blank, BlockState, OpenSection,
};
use crate::invariants::{lemma_block_step_keeps_errors, lemma_scan_blocks_keeps_errors};
use crate::token::{LexemeView, Token};

verus! {

/// The place behind the paragraph that starts at `from` and the line break
/// behind it; `from` where no paragraph can be read.
pub open spec fn paragraph_end(lexemes: Seq<LexemeView>, from: int) -> int {
    match paragraph(lexemes, from) {
        Ok((_, next)) => next,
        Err(_) => from,
    }
}

/// The place behind the heading line that starts at `from`; `from` where no
/// heading line can be read.
pub open spec fn heading_end(lexemes: Seq<LexemeView>, from: int) -> int {
    match heading_line(lexemes, from) {
        Ok((_, next)) => next,
        Err(_) => from,
    }
}

/// The place behind the stretch of `block`, which starts at `from`: behind
/// the paragraph, or behind the blocks under the section, and behind the
/// blank lines that follow.
pub open spec fn block_end(lexemes: Seq<LexemeView>, from: int, block: BlockView) -> int
    decreases block, 1nat,
{
    match block {
        BlockView::Paragraph { .. } => skip_blank(lexemes, paragraph_end(lexemes, from)),
        BlockView::Section { content, .. } => skip_blank(
            lexemes,
            blocks_end(lexemes, heading_end(lexemes, from), content),
        ),
    }
}

/// The place behind the stretches of `blocks`, the first of which starts at
/// `from` and each further one where the one in front of it ends.
pub open spec fn blocks_end(lexemes: Seq<LexemeView>, from: int, blocks: Seq<BlockView>) -> int
    decreases blocks, 0nat,
{
    if blocks.len() == 0 {
        from
    } else {
        block_end(lexemes, blocks_end(lexemes, from, blocks.drop_last()), blocks.last())
    }
}

/// Whether `block` is what was read at `from`.
///
/// - A paragraph is the paragraph that the grammar reads at `from`, and its
///   text nodes hold the texts of the words of its stretch.
/// - A section has the level of the heading marker at `from` and the title
///   of the heading line there; the text nodes of the title hold the texts of
///   the words between the marker and the end of the line; and the blocks
///   under the section are what was read behind the heading line.
pub open spec fn block_read(lexemes: Seq<LexemeView>, from: int, block: BlockView) -> bool
    decreases block, 1nat,
{
    match block {
        BlockView::Paragraph { content } => {
            &&& paragraph(lexemes, from) == Ok::<(BlockView, int), crate::grammar::Failure>(
                (block, paragraph_end(lexemes, from)),
            )
            &&& inlines_texts(content) == word_texts(lexemes, from, paragraph_end(lexemes, from))
        },
        BlockView::Section { level, title, content } => {
            &&& 0 <= from < lexemes.len()
            &&& lexemes[from].token.level() == level
            &&& heading_line(lexemes, from) == Ok::<(Seq<InlineView>, int), crate::grammar::Failure>(
                (title, heading_end(lexemes, from)),
            )
            &&& inlines_texts(title) == word_texts(lexemes, from + 1, heading_end(lexemes, from) - 1)
            &&& blocks_read(lexemes, heading_end(lexemes, from), content)
        },
    }
}

/// Whether `blocks` are what was read from `from` on, one behind the other.
pub open spec fn blocks_read(lexemes: Seq<LexemeView>, from: int, blocks: Seq<BlockView>) -> bool
    decreases blocks, 0nat,
{
    blocks.len() == 0 || (blocks_read(lexemes, from, blocks.drop_last()) && block_read(
        lexemes,
        blocks_end(lexemes, from, blocks.drop_last()),
        blocks.last(),
    ))
}

/// Whether the blocks of a document are what was read from the lexemes.
pub open spec fn document_read(lexemes: Seq<LexemeView>, doc: DocumentView) -> bool {
    blocks_read(lexemes, 0, doc.blocks)
}

/// What the proof notes of an open section.
pub struct SectionMark {
    /// The place of the heading marker.
    pub marker: int,
    /// The place behind the heading line.
    pub behind: int,
    /// The place up to which the blocks under the section have been read.
    pub reach: int,
}

/// Whether a mark says what is true of an open section.
pub open spec fn section_mark_holds(lexemes: Seq<LexemeView>, section: OpenSection, mark: SectionMark) -> bool {
    &&& 0 <= mark.marker < mark.behind <= mark.reach <= lexemes.len()
    &&& lexemes[mark.marker].token.level() == section.level
    &&& heading_line(lexemes, mark.marker) == Ok::<(Seq<InlineView>, int), crate::grammar::Failure>(
        (section.title, mark.behind),
    )
    &&& inlines_texts(section.title) == word_texts(lexemes, mark.marker + 1, mark.behind - 1)
    &&& blocks_read(lexemes, mark.behind, section.content)
    &&& blocks_end(lexemes, mark.behind, section.content) == mark.reach
}

/// The place up to which the top-level blocks have been read.
pub open spec fn top_reach(pos: int, marks: Seq<SectionMark>) -> int {
    if marks.len() == 0 {
        pos
    } else {
        marks[0].marker
    }
}

/// Whether the marks say what is true of a state at the place `pos`, as long
/// as the state holds no error.
pub open spec fn reads_hold(lexemes: Seq<LexemeView>, pos: int, state: BlockState, marks: Seq<SectionMark>) -> bool {
    state.errors.len() == 0 ==> {
        &&& marks.len() == state.open.len()
        &&& 0 <= pos <= lexemes.len()
        &&& blocks_read(lexemes, 0, state.blocks)
        &&& blocks_end(lexemes, 0, state.blocks) == top_reach(pos, marks)
        &&& forall|k: int|
            0 <= k < marks.len() ==> section_mark_holds(lexemes, state.open[k], #[trigger] marks[k])
        &&& forall|j: int, k: int|
            0 <= j && j + 1 == k && k < marks.len() ==> (#[trigger] marks[j]).reach == (#[trigger] marks[k]).marker
        &&& marks.len() > 0 ==> marks.last().reach == pos
    }
}

proof fn lemma_blocks_read_push(lexemes: Seq<LexemeView>, from: int, blocks: Seq<BlockView>, block: BlockView)
    requires
        blocks_read(lexemes, from, blocks),
        block_read(lexemes, blocks_end(lexemes, from, blocks), block),
    ensures
        blocks_read(lexemes, from, blocks.push(block)),
        blocks_end(lexemes, from, blocks.push(block)) == block_end(lexemes, blocks_end(lexemes, from, blocks), block),
{
    assert(blocks.push(block).drop_last() =~= blocks);
}

/// Attaching a block that was read at the place of the scan keeps the marks
/// true, at the place behind the block.
proof fn lemma_attach_reads(
    lexemes: Seq<LexemeView>,
    pos: int,
    state: BlockState,
    marks: Seq<SectionMark>,
    block: BlockView,
) -> (moved: Seq<SectionMark>)
    requires
        reads_hold(lexemes, pos, state, marks),
        state.errors.len() == 0,
        block_read(lexemes, pos, block),
        pos <= block_end(lexemes, pos, block) <= lexemes.len(),
    ensures
        reads_hold(lexemes, block_end(lexemes, pos, block), state.attach(block), moved),
        moved.len() == marks.len(),
{
    let next = state.attach(block);
    let behind = block_end(lexemes, pos, block);
    if marks.len() == 0 {
        lemma_blocks_read_push(lexemes, 0, state.blocks, block);
        marks
    } else {
        let top = marks.len() - 1;
        let mark = marks[top];
        let section = state.open[top];
        assert(section_mark_holds(lexemes, section, mark));
        lemma_blocks_read_push(lexemes, mark.behind, section.content, block);
        let moved = marks.drop_last().push(SectionMark { reach: behind, ..mark });
        assert(next.open[top].content == section.content.push(block));
        assert(section_mark_holds(lexemes, next.open[top], moved[top]));
        assert forall|k: int| 0 <= k < moved.len() implies section_mark_holds(
            lexemes,
            next.open[k],
            #[trigger] moved[k],
        ) by {
            if k < top {
                assert(moved[k] == marks[k]);
                assert(next.open[k] == state.open[k]);
                assert(section_mark_holds(lexemes, state.open[k], marks[k]));
            }
        }
        assert forall|j: int, k: int| 0 <= j && j + 1 == k && k < moved.len() implies (#[trigger] moved[j]).reach == (
        #[trigger] moved[k]).marker by {
            assert(moved[j] == marks[j]);
            assert(moved[k].marker == marks[k].marker);
        }
        assert(moved[0].marker == marks[0].marker);
        moved
    }
}

/// Closing the innermost open section keeps the marks true, at the place
/// behind the blank lines that stand at the place of the scan.
proof fn lemma_close_top_reads(lexemes: Seq<LexemeView>, pos: int, state: BlockState, marks: Seq<SectionMark>) -> (less:
    Seq<SectionMark>)
    requires
        reads_hold(lexemes, pos, state, marks),
        state.errors.len() == 0,
        state.open.len() > 0,
    ensures
        reads_hold(lexemes, skip_blank(lexemes, pos), state.close_top(), less),
        less.len() == marks.len() - 1,
{
    let top = marks.len() - 1;
    let mark = marks[top];
    let section = state.open[top];
    let block = section.block();
    let rest_state = BlockState { open: state.open.drop_last(), ..state };
    let rest = marks.drop_last();
    assert(state.open.last() == section);
    assert(section_mark_holds(lexemes, section, mark));
    lemma_skip_blank_bounds(lexemes, pos);
    assert(block_read(lexemes, mark.marker, block));
    assert(block_end(lexemes, mark.marker, block) == skip_blank(lexemes, pos));
    assert(reads_hold(lexemes, mark.marker, rest_state, rest)) by {
        assert forall|k: int| 0 <= k < rest.len() implies section_mark_holds(
            lexemes,
            rest_state.open[k],
            #[trigger] rest[k],
        ) by {
            assert(rest[k] == marks[k]);
            assert(rest_state.open[k] == state.open[k]);
            assert(section_mark_holds(lexemes, state.open[k], marks[k]));
        }
        assert forall|j: int, k: int| 0 <= j && j + 1 == k && k < rest.len() implies (#[trigger] rest[j]).reach == (
        #[trigger] rest[k]).marker by {
            assert(rest[j] == marks[j]);
            assert(rest[k] == marks[k]);
        }
        if rest.len() > 0 {
            assert(rest.last() == marks[top - 1]);
            assert(marks[top - 1].reach == marks[top].marker);
            assert(rest[0] == marks[0]);
        }
    }
    lemma_attach_reads(lexemes, mark.marker, rest_state, rest, block)
}

/// Closing down to a level at a place where no blank line stands keeps the
/// marks true.
proof fn lemma_close_to_reads(
    lexemes: Seq<LexemeView>,
    pos: int,
    state: BlockState,
    marks: Seq<SectionMark>,
    level: nat,
) -> (less: Seq<SectionMark>)
    requires
        reads_hold(lexemes, pos, state, marks),
        state.errors.len() == 0,
        0 <= pos <= lexemes.len(),
        pos < lexemes.len() ==> lexemes[pos].token != Token::BlankLine,
    ensures
        reads_hold(lexemes, pos, state.close_to(level), less),
        state.close_to(level).errors.len() == 0,
    decreases state.open.len(),
{
    if state.open.len() > 0 && state.open.last().level >= level {
        let less = lemma_close_top_reads(lexemes, pos, state, marks);
        assert(skip_blank(lexemes, pos) == pos);
        lemma_close_to_reads(lexemes, pos, state.close_top(), less, level)
    } else {
        marks
    }
}

/// Opening a section whose heading line was read at the place of the scan
/// keeps the marks true, at the place behind the heading line.
proof fn lemma_open_section_reads(
    lexemes: Seq<LexemeView>,
    pos: int,
    state: BlockState,
    marks: Seq<SectionMark>,
    title: Seq<InlineView>,
    next: int,
) -> (more: Seq<SectionMark>)
    requires
        reads_hold(lexemes, pos, state, marks),
        state.errors.len() == 0,
        0 <= pos < lexemes.len(),
        lexemes[pos].token.is_heading(),
        heading_line(lexemes, pos) == Ok::<(Seq<InlineView>, int), crate::grammar::Failure>((title, next)),
    ensures
        reads_hold(lexemes, next, state.open_section(lexemes[pos].token.level(), title), more),
{
    let level = lexemes[pos].token.level();
    let opened = state.open_section(level, title);
    let top = marks.len() as int;
    lemma_heading_line_advances(lexemes, pos);
    lemma_heading_line_texts(lexemes, pos);
    let more = marks.push(SectionMark { marker: pos, behind: next, reach: next });
    assert(opened.open[top] == OpenSection { level, title, content: Seq::empty() });
    assert(blocks_read(lexemes, next, Seq::<BlockView>::empty()));
    assert(section_mark_holds(lexemes, opened.open[top], more[top]));
    assert forall|k: int| 0 <= k < more.len() implies section_mark_holds(
        lexemes,
        opened.open[k],
        #[trigger] more[k],
    ) by {
        if k < top {
            assert(more[k] == marks[k]);
            assert(opened.open[k] == state.open[k]);
            assert(section_mark_holds(lexemes, state.open[k], marks[k]));
        }
    }
    assert forall|j: int, k: int| 0 <= j && j + 1 == k && k < more.len() implies (#[trigger] more[j]).reach == (
    #[trigger] more[k]).marker by {
        assert(more[j] == marks[j]);
        if k < top {
            assert(more[k] == marks[k]);
        } else {
            assert(marks[j] == marks.last());
        }
    }
    if top > 0 {
        assert(more[0] == marks[0]);
    }
    more
}

/// A step of the block scan keeps the marks true.
proof fn lemma_block_step_reads(
    lexemes: Seq<LexemeView>,
    pos: int,
    state: BlockState,
    marks: Seq<SectionMark>,
) -> (next: Seq<SectionMark>)
    requires
        0 <= pos < lexemes.len(),
        reads_hold(lexemes, pos, state, marks),
    ensures
        reads_hold(lexemes, block_step(lexemes, pos, state).1, block_step(lexemes, pos, state).0, next),
{
    let token = lexemes[pos].token;
    let (next_state, place) = block_step(lexemes, pos, state);
    lemma_block_step_keeps_errors(lexemes, pos, state);
    lemma_block_step_advances(lexemes, pos, state);
    if next_state.errors.len() == 0 {
        if token.is_heading() {
            let closed_marks = lemma_close_to_reads(lexemes, pos, state, marks, token.level());
            let closed = state.close_to(token.level());
            match heading_line(lexemes, pos) {
                Ok((title, behind)) => lemma_open_section_reads(lexemes, pos, closed, closed_marks, title, behind),
                Err(_) => marks,
            }
        } else if token.is_inline() {
            lemma_paragraph_advances(lexemes, pos);
            lemma_paragraph_texts(lexemes, pos);
            match paragraph(lexemes, pos) {
                Ok((block, behind)) => {
                    lemma_skip_blank_bounds(lexemes, behind);
                    assert(block is Paragraph);
                    assert(block_read(lexemes, pos, block));
                    lemma_attach_reads(lexemes, pos, state, marks, block)
                },
                Err(_) => marks,
            }
        } else if token == Token::BlankLine && state.open.len() > 0 {
            lemma_close_top_reads(lexemes, pos, state, marks)
        } else {
            marks
        }
    } else {
        marks
    }
}

/// If the block scan ends without an error, the blocks it ends in are what
/// was read from the lexemes.
proof fn lemma_scan_blocks_reads(lexemes: Seq<LexemeView>, pos: int, state: BlockState, marks: Seq<SectionMark>)
    requires
        0 <= pos <= lexemes.len(),
        reads_hold(lexemes, pos, state, marks),
    ensures
        scan_blocks(lexemes, pos, state).errors.len() == 0 ==> blocks_read(
            lexemes,
            0,
            scan_blocks(lexemes, pos, state).blocks,
        ),
    decreases lexemes.len() - pos,
{
    if pos < lexemes.len() {
        lemma_block_step_advances(lexemes, pos, state);
        let next_marks = lemma_block_step_reads(lexemes, pos, state, marks);
        let (next_state, next) = block_step(lexemes, pos, state);
        lemma_scan_blocks_reads(lexemes, next, next_state, next_marks);
    } else {
        if state.errors.len() == 0 {
            let _ = lemma_close_to_reads(lexemes, pos, state, marks, 0);
        } else {
            lemma_scan_blocks_keeps_errors(lexemes, pos, state);
        }
    }
}

/// Every node of a parsed document is what was read at its place: each
/// paragraph is the paragraph that the grammar reads where it starts, each
/// title is the title of its heading line, and the text nodes of each hold
/// the texts of the words of its own stretch of the lexemes.
pub proof fn lemma_parsed_document_read(lexemes: Seq<LexemeView>)
    ensures
        parse_result(lexemes) matches Ok(doc) ==> document_read(lexemes, doc),
{
    let start = BlockState::empty();
    assert(blocks_read(lexemes, 0, start.blocks));
    lemma_scan_blocks_reads(lexemes, 0, start, Seq::<SectionMark>::empty());
}

} // verus!
