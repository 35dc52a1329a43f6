//! The places of the lexemes have no part in what is parsed.
//!
//! The offsets of a lexeme go into the errors and nowhere else: two sequences
//! of lexemes that agree in tags and texts give the same blocks and as many
//! errors, and so the same document if they give one at all.

use vstd::prelude::*;
use crate::ast::InlineView;
use crate::error_recovery::ParseErrorView;
use crate::grammar::{
    block_step, delimiter_of, heading_line, inline_step, lemma_block_step_advances, next_sync,
    parse_outcome, parse_result, scan_blocks, scan_inlines, skip_blank, skip_newline, sync,
    title_nodes, words_end, BlockState, InlineState, OpenSpan,
};
use crate::token::LexemeView;

verus! {

/// The lexeme without its place.
pub open spec fn unplaced(lexeme: LexemeView) -> LexemeView {
    LexemeView { start: 0, end: 0, ..lexeme }
}

/// The lexemes without their places.
pub open spec fn all_unplaced(lexemes: Seq<LexemeView>) -> Seq<LexemeView> {
    lexemes.map_values(|lexeme: LexemeView| unplaced(lexeme))
}

/// Whether two sequences of lexemes agree in tags and texts.
pub open spec fn same_reading(a: Seq<LexemeView>, b: Seq<LexemeView>) -> bool {
    all_unplaced(a) == all_unplaced(b)
}

/// The open span without the place of its delimiter.
pub open spec fn unplaced_span(span: OpenSpan) -> OpenSpan {
    OpenSpan { start: 0, ..span }
}

/// The state of the inline scan without the places of its open spans.
pub open spec fn unplaced_state(state: InlineState) -> InlineState {
    InlineState { items: state.items, open: state.open.map_values(|span: OpenSpan| unplaced_span(span)) }
}

/// Whether two states of the block scan hold the same blocks and open
/// sections, and as many errors.
pub open spec fn alike(a: BlockState, b: BlockState) -> bool {
    a.blocks == b.blocks && a.open == b.open && a.errors.len() == b.errors.len()
}

proof fn lemma_push_node_unplaced(state: InlineState, node: InlineView)
    ensures
        unplaced_state(state.push_node(node)) == unplaced_state(state).push_node(node),
{
    let left = unplaced_state(state.push_node(node));
    let right = unplaced_state(state).push_node(node);
    assert(left.open =~= right.open);
}

proof fn lemma_open_span_unplaced(state: InlineState, kind: crate::grammar::Delimiter, start: int)
    ensures
        unplaced_state(state.open_span(kind, start)) == unplaced_state(state).open_span(kind, 0),
{
    let left = unplaced_state(state.open_span(kind, start));
    let right = unplaced_state(state).open_span(kind, 0);
    assert(left.open =~= right.open);
}

proof fn lemma_close_span_unplaced(state: InlineState)
    requires
        state.open.len() > 0,
    ensures
        unplaced_state(state.close_span()) == unplaced_state(state).close_span(),
{
    let last = state.open.last();
    let rest = InlineState { items: state.items, open: state.open.drop_last() };
    let plain = unplaced_state(state);
    let plain_rest = InlineState { items: plain.items, open: plain.open.drop_last() };
    assert(plain_rest.open =~= unplaced_state(rest).open);
    assert(plain.open.last() == unplaced_span(last));
    lemma_push_node_unplaced(rest, last.kind.wrap(last.items));
}

/// Whether a span can be parsed at a place, and where the inline nodes that
/// can be parsed end, goes by the tags alone.
pub proof fn lemma_spans_unplaced(lexemes: Seq<LexemeView>, pos: int)
    requires
        0 <= pos <= lexemes.len(),
    ensures
        crate::grammar::span_end(all_unplaced(lexemes), pos) == crate::grammar::span_end(lexemes, pos),
        crate::grammar::run_stop(all_unplaced(lexemes), pos) == crate::grammar::run_stop(lexemes, pos),
    decreases lexemes.len() - pos,
{
    let plain = all_unplaced(lexemes);
    if pos < lexemes.len() {
        assert(plain[pos] == unplaced(lexemes[pos]));
        lemma_spans_unplaced(lexemes, pos + 1);
        crate::grammar::lemma_span_end_bounds(lexemes, pos);
        crate::grammar::lemma_span_end_bounds(lexemes, pos + 1);
        let stop = crate::grammar::run_stop(lexemes, pos + 1);
        if stop < lexemes.len() {
            assert(plain[stop] == unplaced(lexemes[stop]));
        }
        match crate::grammar::span_end(lexemes, pos) {
            Some(end) => lemma_spans_unplaced(lexemes, end),
            None => {},
        }
    }
}

/// A step of the inline scan does the same with and without places.
pub proof fn lemma_inline_step_unplaced(lexemes: Seq<LexemeView>, pos: int, state: InlineState)
    requires
        0 <= pos < lexemes.len(),
    ensures
        match inline_step(lexemes, pos, state) {
            Ok(next) => inline_step(all_unplaced(lexemes), pos, unplaced_state(state)) == Ok::<
                InlineState,
                ParseErrorView,
            >(unplaced_state(next)),
            Err(_) => inline_step(all_unplaced(lexemes), pos, unplaced_state(state)) is Err,
        },
{
    let lexeme = lexemes[pos];
    let plain = unplaced_state(state);
    assert(all_unplaced(lexemes)[pos] == unplaced(lexeme));
    if state.open.len() > 0 {
        assert(plain.open.last() == unplaced_span(state.open.last()));
    }
    lemma_spans_unplaced(lexemes, pos);
    match delimiter_of(lexeme.token) {
        None => {
            lemma_push_node_unplaced(state, InlineView::Text(lexeme.text));
        },
        Some(kind) => {
            if crate::grammar::closes(lexemes, pos, state, kind) {
                if state.open.last().items.len() > 0 {
                    lemma_close_span_unplaced(state);
                }
            } else {
                lemma_open_span_unplaced(state, kind, lexeme.start);
            }
        },
    }
}

/// The inline scan gives the same nodes, or fails at the same place, with and
/// without places.
pub proof fn lemma_scan_inlines_unplaced(lexemes: Seq<LexemeView>, pos: int, state: InlineState)
    requires
        0 <= pos <= lexemes.len(),
    ensures
        match scan_inlines(lexemes, pos, state) {
            Ok(found) => scan_inlines(all_unplaced(lexemes), pos, unplaced_state(state)) == Ok::<
                (Seq<InlineView>, int),
                crate::grammar::Failure,
            >(found),
            Err(failure) => scan_inlines(all_unplaced(lexemes), pos, unplaced_state(state)) matches Err(other)
                && other.at == failure.at,
        },
    decreases lexemes.len() - pos,
{
    let plain = all_unplaced(lexemes);
    if pos < lexemes.len() {
        assert(plain[pos] == unplaced(lexemes[pos]));
    }
    if pos < lexemes.len() && lexemes[pos].token.is_inline() {
        lemma_inline_step_unplaced(lexemes, pos, state);
        match inline_step(lexemes, pos, state) {
            Ok(next) => lemma_scan_inlines_unplaced(lexemes, pos + 1, next),
            Err(_) => {},
        }
    }
}

/// [`skip_blank`], [`words_end`] and [`next_sync`] go by the tags alone.
pub proof fn lemma_runs_unplaced(lexemes: Seq<LexemeView>, pos: int)
    requires
        0 <= pos <= lexemes.len(),
    ensures
        skip_blank(all_unplaced(lexemes), pos) == skip_blank(lexemes, pos),
        words_end(all_unplaced(lexemes), pos) == words_end(lexemes, pos),
        next_sync(all_unplaced(lexemes), pos) == next_sync(lexemes, pos),
        skip_newline(all_unplaced(lexemes), pos) == skip_newline(lexemes, pos),
    decreases lexemes.len() - pos,
{
    let plain = all_unplaced(lexemes);
    if pos < lexemes.len() {
        assert(plain[pos] == unplaced(lexemes[pos]));
        lemma_runs_unplaced(lexemes, pos + 1);
    }
}

/// [`sync`] goes by the tags alone.
pub proof fn lemma_sync_unplaced(lexemes: Seq<LexemeView>, pos: int)
    requires
        0 <= pos <= lexemes.len(),
    ensures
        sync(all_unplaced(lexemes), pos) == sync(lexemes, pos),
{
    lemma_runs_unplaced(lexemes, pos);
    crate::grammar::lemma_next_sync_bounds(lexemes, pos);
    lemma_runs_unplaced(lexemes, next_sync(lexemes, pos));
}

/// A heading line gives the same title, or fails at the same place, with and
/// without places.
pub proof fn lemma_heading_line_unplaced(lexemes: Seq<LexemeView>, pos: int)
    requires
        0 <= pos < lexemes.len(),
    ensures
        match heading_line(lexemes, pos) {
            Ok(found) => heading_line(all_unplaced(lexemes), pos) == Ok::<
                (Seq<InlineView>, int),
                crate::grammar::Failure,
            >(found),
            Err(failure) => heading_line(all_unplaced(lexemes), pos) matches Err(other) && other.at == failure.at,
        },
{
    let plain = all_unplaced(lexemes);
    let first = pos + 1;
    lemma_runs_unplaced(lexemes, first);
    crate::grammar::lemma_words_end_bounds(lexemes, first);
    let end = words_end(lexemes, first);
    if end < lexemes.len() {
        assert(plain[end] == unplaced(lexemes[end]));
    }
    if first < lexemes.len() {
        assert(plain[first] == unplaced(lexemes[first]));
    }
    assert(title_nodes(plain, first, end) =~= title_nodes(lexemes, first, end)) by {
        assert forall|i: int| 0 <= i < end - first implies title_nodes(plain, first, end)[i] == title_nodes(
            lexemes,
            first,
            end,
        )[i] by {
            assert(plain[first + i] == unplaced(lexemes[first + i]));
        }
    }
}

proof fn lemma_close_to_alike(a: BlockState, b: BlockState, level: nat)
    requires
        alike(a, b),
    ensures
        alike(a.close_to(level), b.close_to(level)),
    decreases a.open.len(),
{
    if a.open.len() > 0 && a.open.last().level >= level {
        lemma_close_to_alike(a.close_top(), b.close_top(), level);
    }
}

/// A step of the block scan does the same to the blocks with and without
/// places, and goes on at the same place.
pub proof fn lemma_block_step_unplaced(lexemes: Seq<LexemeView>, pos: int, a: BlockState, b: BlockState)
    requires
        0 <= pos < lexemes.len(),
        alike(a, b),
    ensures
        alike(block_step(lexemes, pos, a).0, block_step(all_unplaced(lexemes), pos, b).0),
        block_step(lexemes, pos, a).1 == block_step(all_unplaced(lexemes), pos, b).1,
{
    let plain = all_unplaced(lexemes);
    let token = lexemes[pos].token;
    assert(plain[pos] == unplaced(lexemes[pos]));
    lemma_close_to_alike(a, b, token.level());
    lemma_close_to_alike(a, b, 0);
    lemma_runs_unplaced(lexemes, pos);
    lemma_sync_unplaced(lexemes, pos);
    if token.is_heading() {
        lemma_heading_line_unplaced(lexemes, pos);
        crate::grammar::lemma_heading_line_advances(lexemes, pos);
        match heading_line(lexemes, pos) {
            Ok(_) => {},
            Err(failure) => lemma_sync_unplaced(lexemes, failure.at),
        }
    } else if token.is_inline() {
        lemma_scan_inlines_unplaced(lexemes, pos, InlineState::empty());
        assert(unplaced_state(InlineState::empty()).open =~= InlineState::empty().open);
        crate::grammar::lemma_paragraph_advances(lexemes, pos);
        crate::grammar::lemma_scan_inlines_bounds(lexemes, pos, InlineState::empty());
        match scan_inlines(lexemes, pos, InlineState::empty()) {
            Ok((_, next)) => {
                lemma_runs_unplaced(lexemes, next);
                lemma_runs_unplaced(lexemes, skip_newline(lexemes, next));
            },
            Err(failure) => lemma_sync_unplaced(lexemes, failure.at),
        }
    }
}

/// The block scan ends in the same blocks, and in as many errors, with and
/// without places.
pub proof fn lemma_scan_blocks_unplaced(lexemes: Seq<LexemeView>, pos: int, a: BlockState, b: BlockState)
    requires
        0 <= pos <= lexemes.len(),
        alike(a, b),
    ensures
        alike(scan_blocks(lexemes, pos, a), scan_blocks(all_unplaced(lexemes), pos, b)),
    decreases lexemes.len() - pos,
{
    if pos < lexemes.len() {
        lemma_block_step_advances(lexemes, pos, a);
        lemma_block_step_unplaced(lexemes, pos, a, b);
        let (next_state, next) = block_step(lexemes, pos, a);
        let (plain_state, _) = block_step(all_unplaced(lexemes), pos, b);
        lemma_scan_blocks_unplaced(lexemes, next, next_state, plain_state);
    } else {
        lemma_close_to_alike(a, b, 0);
    }
}

/// Lexemes that agree in tags and texts parse to the same document, if they
/// parse to one at all.
pub proof fn lemma_parse_ignores_places(a: Seq<LexemeView>, b: Seq<LexemeView>)
    requires
        same_reading(a, b),
    ensures
        parse_outcome(a).blocks == parse_outcome(b).blocks,
        parse_outcome(a).errors.len() == parse_outcome(b).errors.len(),
        parse_result(a) is Ok <==> parse_result(b) is Ok,
        parse_result(a) is Ok ==> parse_result(a) == parse_result(b),
{
    let start = BlockState::empty();
    lemma_scan_blocks_unplaced(a, 0, start, start);
    lemma_scan_blocks_unplaced(b, 0, start, start);
}

} // verus!
