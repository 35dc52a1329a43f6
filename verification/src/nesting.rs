//! Spans nest in the tree as deep as their delimiters nest in the input.
//!
//! The depth of the delimiters is read off the lexemes alone: a delimiter
//! closes the span that is open if that span is of its kind and no span can
//! be parsed at the delimiter, and opens a span otherwise; the depth of a
//! stretch is the greatest number of spans open at once. The depth of the
//! nodes is read off the tree.

use vstd::prelude::*;
use crate::ast::{BlockView, DocumentView, InlineView};
use crate::error_recovery::ParseErrorView;
use crate::grammar::{
    block_step, delimiter_of, inline_step, paragraph, parse_result, scan_blocks, scan_inlines,
    span_end, BlockState, Delimiter, Failure, InlineState, OpenSpan, MAX_INLINE_DEPTH,
};
use crate::places::{
    all_unplaced, lemma_parse_ignores_places, lemma_scan_inlines_unplaced, same_reading,
    unplaced_state,
};
use crate::render::render_inlines;
use crate::roundtrip::{lemma_parse_rendered_inlines, lemma_render_inlines_first};
use crate::token::LexemeView;
use crate::wellformed::inlines_wf;

verus! {

/// The greater of two numbers.
pub open spec fn greater(a: nat, b: nat) -> nat {
    if a >= b {
        a
    } else {
        b
    }
}

/// How deep spans nest in and under `node`: 0 for a text node, and for a span
/// one more than for what it wraps.
pub open spec fn inline_depth(node: InlineView) -> nat
    decreases node, 1nat,
{
    match node {
        InlineView::Text(_) => 0,
        InlineView::Bold(items) => 1 + inlines_depth(items),
        InlineView::Italic(items) => 1 + inlines_depth(items),
    }
}

/// How deep spans nest in and under `items`: the greatest depth of a node.
pub open spec fn inlines_depth(items: Seq<InlineView>) -> nat
    decreases items, 0nat,
{
    if items.len() == 0 {
        0
    } else {
        greater(inlines_depth(items.drop_last()), inline_depth(items.last()))
    }
}

/// What the token at `pos` does to the kinds of the spans that are open,
/// innermost last: a delimiter closes the innermost open span if that span is
/// of its kind and no span can be parsed at `pos`, and opens a span otherwise.
pub open spec fn delimiter_step(open: Seq<Delimiter>, lexemes: Seq<LexemeView>, pos: int) -> Seq<Delimiter> {
    match delimiter_of(lexemes[pos].token) {
        None => open,
        Some(kind) => if open.len() > 0 && open.last() == kind && span_end(lexemes, pos) is None {
            open.drop_last()
        } else {
            open.push(kind)
        },
    }
}

/// The kinds of the spans that are open behind the lexemes from `from` up to
/// `to`, innermost last, if none was open in front of them.
pub open spec fn open_delimiters(lexemes: Seq<LexemeView>, from: int, to: int) -> Seq<Delimiter>
    decreases to - from,
{
    if to <= from {
        Seq::empty()
    } else {
        delimiter_step(open_delimiters(lexemes, from, to - 1), lexemes, to - 1)
    }
}

/// How deep the delimiters nest in the lexemes from `from` up to `to`: the
/// greatest number of spans that are open at once.
pub open spec fn delimiter_depth(lexemes: Seq<LexemeView>, from: int, to: int) -> nat
    decreases to - from,
{
    if to <= from {
        0
    } else {
        greater(delimiter_depth(lexemes, from, to - 1), open_delimiters(lexemes, from, to).len())
    }
}

/// The kinds of the open spans of a state, innermost last.
pub open spec fn span_kinds(open: Seq<OpenSpan>) -> Seq<Delimiter> {
    open.map_values(|span: OpenSpan| span.kind)
}

/// How deep the nodes held by open spans will nest once the spans are closed.
pub open spec fn spans_depth(open: Seq<OpenSpan>) -> nat
    decreases open.len(),
{
    if open.len() == 0 {
        0
    } else {
        greater(spans_depth(open.drop_last()), open.len() + inlines_depth(open.last().items))
    }
}

/// How deep the nodes held by a state will nest once its spans are closed.
pub open spec fn state_depth(state: InlineState) -> nat {
    greater(inlines_depth(state.items), spans_depth(state.open))
}

proof fn lemma_inlines_depth_push(items: Seq<InlineView>, node: InlineView)
    ensures
        inlines_depth(items.push(node)) == greater(inlines_depth(items), inline_depth(node)),
{
    assert(items.push(node).drop_last() =~= items);
}

proof fn lemma_push_node_depth(state: InlineState, node: InlineView)
    ensures
        state_depth(state.push_node(node)) == greater(state_depth(state), state.open.len() + inline_depth(node)),
        span_kinds(state.push_node(node).open) == span_kinds(state.open),
{
    let next = state.push_node(node);
    if state.open.len() == 0 {
        lemma_inlines_depth_push(state.items, node);
    } else {
        let last = state.open.last();
        lemma_inlines_depth_push(last.items, node);
        assert(next.open.drop_last() =~= state.open.drop_last());
        assert(span_kinds(next.open) =~= span_kinds(state.open));
    }
}

/// At least as many spans were open at once as are open at the end.
pub proof fn lemma_depth_covers_open(lexemes: Seq<LexemeView>, from: int, to: int)
    ensures
        delimiter_depth(lexemes, from, to) >= open_delimiters(lexemes, from, to).len(),
{
}

/// A step of the inline scan keeps the depth of the state equal to the depth
/// of the delimiters read.
pub proof fn lemma_inline_step_depth(lexemes: Seq<LexemeView>, from: int, pos: int, state: InlineState)
    requires
        0 <= from <= pos < lexemes.len(),
        lexemes[pos].token.is_inline(),
        span_kinds(state.open) == open_delimiters(lexemes, from, pos),
        state_depth(state) == delimiter_depth(lexemes, from, pos),
    ensures
        inline_step(lexemes, pos, state) matches Ok(next) ==> {
            &&& span_kinds(next.open) == open_delimiters(lexemes, from, pos + 1)
            &&& state_depth(next) == delimiter_depth(lexemes, from, pos + 1)
        },
{
    let lexeme = lexemes[pos];
    let kinds = span_kinds(state.open);
    lemma_depth_covers_open(lexemes, from, pos);
    assert(open_delimiters(lexemes, from, pos + 1) == delimiter_step(kinds, lexemes, pos));
    assert(delimiter_depth(lexemes, from, pos + 1) == greater(
        delimiter_depth(lexemes, from, pos),
        open_delimiters(lexemes, from, pos + 1).len(),
    ));
    if state.open.len() > 0 {
        assert(kinds.last() == state.open.last().kind);
    }
    match delimiter_of(lexeme.token) {
        None => {
            lemma_push_node_depth(state, InlineView::Text(lexeme.text));
            lemma_spans_depth_covers(state.open);
        },
        Some(kind) => {
            if crate::grammar::closes(lexemes, pos, state, kind) {
                if state.open.last().items.len() > 0 {
                    let last = state.open.last();
                    let rest = InlineState { items: state.items, open: state.open.drop_last() };
                    let node = kind.wrap(last.items);
                    assert(inline_depth(node) == 1 + inlines_depth(last.items)) by {
                        match kind {
                            Delimiter::Bold => {},
                            Delimiter::Italic => {},
                        }
                    }
                    lemma_push_node_depth(rest, node);
                    assert(span_kinds(rest.open) =~= kinds.drop_last());
                    lemma_spans_depth_covers(rest.open);
                }
            } else if state.open.len() < MAX_INLINE_DEPTH {
                let next = state.open_span(kind, lexeme.start);
                assert(next.open.drop_last() =~= state.open);
                assert(span_kinds(next.open) =~= kinds.push(kind));
                assert(inlines_depth(next.open.last().items) == 0);
            }
        },
    }
}

proof fn lemma_spans_depth_covers(open: Seq<OpenSpan>)
    ensures
        spans_depth(open) >= open.len(),
{
}

/// If the inline scan ends in nodes, they nest as deep as the delimiters it
/// read.
pub proof fn lemma_scan_inlines_depth(lexemes: Seq<LexemeView>, from: int, pos: int, state: InlineState)
    requires
        0 <= from <= pos <= lexemes.len(),
        span_kinds(state.open) == open_delimiters(lexemes, from, pos),
        state_depth(state) == delimiter_depth(lexemes, from, pos),
    ensures
        scan_inlines(lexemes, pos, state) matches Ok((items, next)) ==> inlines_depth(items) == delimiter_depth(
            lexemes,
            from,
            next,
        ),
    decreases lexemes.len() - pos,
{
    if pos < lexemes.len() && lexemes[pos].token.is_inline() {
        lemma_inline_step_depth(lexemes, from, pos, state);
        match inline_step(lexemes, pos, state) {
            Ok(next) => lemma_scan_inlines_depth(lexemes, from, pos + 1, next),
            Err(_) => {},
        }
    }
}

/// The nodes of a stretch of inline tokens that parses without an error nest
/// as deep as the delimiters of the stretch.
pub proof fn lemma_parsed_inlines_depth(lexemes: Seq<LexemeView>, pos: int)
    requires
        0 <= pos <= lexemes.len(),
    ensures
        scan_inlines(lexemes, pos, InlineState::empty()) matches Ok((items, next)) ==> inlines_depth(items)
            == delimiter_depth(lexemes, pos, next),
{
    let start = InlineState::empty();
    assert(span_kinds(start.open) =~= open_delimiters(lexemes, pos, pos));
    lemma_scan_inlines_depth(lexemes, pos, pos, start);
}

/// Delimiters that come in well-formed pairs parse, and the spans nest in the
/// result as deep as the delimiters nest in the input.
///
/// The delimiters of a stretch come in well-formed pairs where the stretch is
/// the rendering of well-formed nodes: each span has its two delimiters and
/// something between them, a span stands directly inside one of its own kind
/// only as the last node of that span, and none lies deeper than
/// [`MAX_INLINE_DEPTH`].
pub proof fn lemma_balanced_delimiters(pre: Seq<LexemeView>, items: Seq<InlineView>, post: Seq<LexemeView>)
    requires
        inlines_wf(items, None, MAX_INLINE_DEPTH as nat, true),
        post.len() == 0 || !post[0].token.is_inline(),
    ensures
        scan_inlines(pre + render_inlines(items) + post, pre.len() as int, InlineState::empty()) == Ok::<
            (Seq<InlineView>, int),
            Failure,
        >((items, (pre.len() + render_inlines(items).len()) as int)),
        inlines_depth(items) == delimiter_depth(
            pre + render_inlines(items) + post,
            pre.len() as int,
            (pre.len() + render_inlines(items).len()) as int,
        ),
{
    lemma_parse_rendered_inlines(pre, items, post);
    lemma_parsed_inlines_depth(pre + render_inlines(items) + post, pre.len() as int);
}

/// Lexemes that are words and delimiters in well-formed pairs parse to one
/// paragraph, each pair of delimiters giving one span of its kind, and the
/// spans nest in the paragraph as deep as the delimiters nest in the lexemes.
///
/// The lexemes are words and delimiters in well-formed pairs where they
/// agree, in tags and texts of words, with the rendering of one or more
/// well-formed nodes.
pub proof fn lemma_balanced_paragraph(lexemes: Seq<LexemeView>, items: Seq<InlineView>)
    requires
        items.len() > 0,
        inlines_wf(items, None, MAX_INLINE_DEPTH as nat, true),
        same_reading(lexemes, render_inlines(items)),
    ensures
        parse_result(lexemes) == Ok::<DocumentView, Seq<ParseErrorView>>(
            DocumentView { blocks: seq![BlockView::Paragraph { content: items }] },
        ),
        inlines_depth(items) == delimiter_depth(lexemes, 0, lexemes.len() as int),
{
    let rendering = render_inlines(items);
    let end = rendering.len() as int;
    let none = Seq::<LexemeView>::empty();
    let start = InlineState::empty();
    let block = BlockView::Paragraph { content: items };
    lemma_render_inlines_first(items);
    assert(none + rendering + none =~= rendering);
    lemma_parse_rendered_inlines(none, items, none);
    assert(scan_inlines(rendering, 0, start) == Ok::<(Seq<InlineView>, int), Failure>((items, end)));
    assert(paragraph(rendering, 0) == Ok::<(BlockView, int), Failure>((block, end)));
    let first = BlockState::empty();
    let read = first.attach(block);
    assert(block_step(rendering, 0, first) == (read, end));
    assert(scan_blocks(rendering, end, read) == read.close_to(0));
    assert(read.close_to(0) == read);
    assert(read.blocks =~= seq![block]);
    assert(scan_blocks(rendering, 0, first) == read);
    lemma_parse_ignores_places(rendering, lexemes);
    // the inline scan of the lexemes themselves
    lemma_scan_inlines_unplaced(rendering, 0, start);
    lemma_scan_inlines_unplaced(lexemes, 0, start);
    assert(unplaced_state(start).open =~= start.open);
    assert(all_unplaced(lexemes).len() == lexemes.len());
    assert(all_unplaced(rendering).len() == rendering.len());
    lemma_parsed_inlines_depth(lexemes, 0);
}

} // verus!
