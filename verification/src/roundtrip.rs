//! Parsing the canonical rendering of a well-formed document gives the
//! document back.
//!
//! The proof follows the two scans of the grammar through the rendering:
//! scanning the rendering of a node adds the node to the state of the inline
//! scan, and scanning the rendering of a block takes the state of the block
//! scan to one in which the block is read and, if it is a section with blocks
//! under it, still open. The heading that follows, or the end of the input,
//! closes it.

use vstd::prelude::*;
use crate::ast::{BlockView, DocumentView, InlineView};
use crate::error_recovery::ParseErrorView;
use crate::grammar::{
    block_step, closes, delimiter_of, heading_line, inline_step, lemma_span_end_bounds, paragraph,
    parse_result, run_stop, scan_blocks, scan_inlines, skip_blank, skip_newline, span_end,
    title_nodes, words_end, BlockState, Delimiter, Failure, InlineState, OpenSection, OpenSpan,
    MAX_INLINE_DEPTH,
};
use crate::invariants::lemma_parsed_document_wf;
use crate::lexer::heading_token;
use crate::render::{
    render_block, render_blocks, render_document, render_heading, render_inline, render_inlines,
    render_token, rendered,
};
use crate::token::{LexemeView, Token};
use crate::wellformed::{
    block_wf, blocks_wf, closed_by, document_wf, has_content, inline_wf, inlines_wf,
    lemma_sound_plain_all_wf, may_follow, settled, title_wf,
};

verus! {

impl InlineState {
    /// Adds finished nodes, in order, to the innermost open span, or to the top level.
    pub open spec fn push_nodes(self, nodes: Seq<InlineView>) -> InlineState {
        if self.open.len() == 0 {
            InlineState { items: self.items + nodes, open: self.open }
        } else {
            let last = self.open.last();
            InlineState {
                items: self.items,
                open: self.open.drop_last().push(OpenSpan { items: last.items + nodes, ..last }),
            }
        }
    }
}

proof fn lemma_push_nodes_empty(state: InlineState)
    ensures
        state.push_nodes(Seq::empty()) == state,
{
    if state.open.len() == 0 {
        assert(state.items + Seq::<InlineView>::empty() =~= state.items);
    } else {
        let last = state.open.last();
        assert(last.items + Seq::<InlineView>::empty() =~= last.items);
        assert(state.open.drop_last().push(last) =~= state.open);
    }
}

proof fn lemma_push_nodes_last(state: InlineState, nodes: Seq<InlineView>)
    requires
        nodes.len() > 0,
    ensures
        state.push_nodes(nodes) == state.push_nodes(nodes.drop_last()).push_node(nodes.last()),
        state.push_nodes(nodes.drop_last()).open.len() == state.open.len(),
        state.push_nodes(nodes.drop_last()).innermost() == state.innermost(),
{
    let init = nodes.drop_last();
    let mid = state.push_nodes(init);
    if state.open.len() == 0 {
        assert((state.items + init).push(nodes.last()) =~= state.items + nodes);
    } else {
        let last = state.open.last();
        assert((last.items + init).push(nodes.last()) =~= last.items + nodes);
        assert(mid.open.drop_last() =~= state.open.drop_last());
        assert(mid.push_node(nodes.last()).open =~= state.push_nodes(nodes).open);
    }
}

/// Whether the inline nodes that can be parsed from `end` on are followed
/// by nothing that closes a span of another kind than `around`: the token
/// behind them is no delimiter, or the delimiter of the kind `around`.
pub open spec fn follows_well(lexemes: Seq<LexemeView>, end: int, around: Option<Delimiter>) -> bool {
    let stop = run_stop(lexemes, end);
    stop < lexemes.len() ==> match delimiter_of(lexemes[stop].token) {
        Some(kind) => around == Some(kind),
        None => true,
    }
}

/// Whether nothing can be parsed as an inline node at `pos`.
pub open spec fn stops_at(lexemes: Seq<LexemeView>, pos: int) -> bool {
    run_stop(lexemes, pos) == pos
}

/// Scanning the rendering of a well-formed node adds the node to the state,
/// and the node is what can be parsed at its place.
pub proof fn lemma_scan_rendered_node(
    pre: Seq<LexemeView>,
    node: InlineView,
    post: Seq<LexemeView>,
    state: InlineState,
    tail: bool,
)
    requires
        inline_wf(node, state.innermost(), state.room(), tail),
        follows_well(
            pre + render_inline(node) + post,
            (pre.len() + render_inline(node).len()) as int,
            state.innermost(),
        ),
        tail ==> stops_at(pre + render_inline(node) + post, (pre.len() + render_inline(node).len()) as int),
    ensures
        scan_inlines(pre + render_inline(node) + post, pre.len() as int, state) == scan_inlines(
            pre + render_inline(node) + post,
            (pre.len() + render_inline(node).len()) as int,
            state.push_node(node),
        ),
        run_stop(pre + render_inline(node) + post, pre.len() as int) == run_stop(
            pre + render_inline(node) + post,
            (pre.len() + render_inline(node).len()) as int,
        ),
    decreases node, 1nat,
{
    let lexemes = pre + render_inline(node) + post;
    let pos = pre.len() as int;
    match node {
        InlineView::Text(text) => {
            assert(lexemes[pos] == rendered(Token::Word, text));
        },
        InlineView::Bold(items) => {
            lemma_scan_rendered_span(pre, Delimiter::Bold, items, post, state, tail);
        },
        InlineView::Italic(items) => {
            lemma_scan_rendered_span(pre, Delimiter::Italic, items, post, state, tail);
        },
    }
}

/// Scanning the rendering of a well-formed span adds the span to the state,
/// and the span is what can be parsed at its place: its closing delimiter
/// starts no span of its own.
pub proof fn lemma_scan_rendered_span(
    pre: Seq<LexemeView>,
    kind: Delimiter,
    items: Seq<InlineView>,
    post: Seq<LexemeView>,
    state: InlineState,
    tail: bool,
)
    requires
        inline_wf(kind.wrap(items), state.innermost(), state.room(), tail),
        follows_well(
            pre + render_inline(kind.wrap(items)) + post,
            (pre.len() + render_inline(kind.wrap(items)).len()) as int,
            state.innermost(),
        ),
        tail ==> stops_at(
            pre + render_inline(kind.wrap(items)) + post,
            (pre.len() + render_inline(kind.wrap(items)).len()) as int,
        ),
    ensures
        scan_inlines(pre + render_inline(kind.wrap(items)) + post, pre.len() as int, state) == scan_inlines(
            pre + render_inline(kind.wrap(items)) + post,
            (pre.len() + render_inline(kind.wrap(items)).len()) as int,
            state.push_node(kind.wrap(items)),
        ),
        run_stop(pre + render_inline(kind.wrap(items)) + post, pre.len() as int) == run_stop(
            pre + render_inline(kind.wrap(items)) + post,
            (pre.len() + render_inline(kind.wrap(items)).len()) as int,
        ),
    decreases items, 1nat,
{
    let node = kind.wrap(items);
    let mark = render_token(kind.token());
    let inner = render_inlines(items);
    let lexemes = pre + render_inline(node) + post;
    let pos = pre.len() as int;
    let behind = pos + 1 + inner.len();
    let end = behind + 1;
    assert(render_inline(node) =~= seq![mark] + inner + seq![mark]);
    assert(delimiter_of(kind.token()) == Some(kind));
    assert(state.innermost() != Some(kind) || tail) by {
        match kind {
            Delimiter::Bold => {},
            Delimiter::Italic => {},
        }
    }
    assert(items.len() > 0 && inlines_wf(items, Some(kind), (state.room() - 1) as nat, true)) by {
        match kind {
            Delimiter::Bold => {},
            Delimiter::Italic => {},
        }
    }
    lemma_render_inlines_first(items);
    assert(lexemes[pos] == mark);
    assert(lexemes[behind] == mark);
    // the closing delimiter starts no span: what can be parsed behind it ends
    // in front of a token that does not close a span of this kind
    lemma_span_end_bounds(lexemes, end);
    let stop = run_stop(lexemes, end);
    assert(span_end(lexemes, behind) is None);
    assert(run_stop(lexemes, behind) == behind);
    assert(follows_well(lexemes, behind, Some(kind)));
    // what the span wraps
    let opened = state.open_span(kind, 0);
    assert(lexemes =~= (pre + seq![mark]) + inner + (seq![mark] + post));
    assert(opened.innermost() == Some(kind));
    assert(opened.room() == (state.room() - 1) as nat);
    lemma_scan_rendered_nodes(pre + seq![mark], items, seq![mark] + post, opened, true);
    let filled = opened.push_nodes(items);
    assert(run_stop(lexemes, pos + 1) == behind);
    // the opening delimiter starts the span
    assert(span_end(lexemes, pos) == Some(end));
    assert(!closes(lexemes, pos, state, kind));
    assert(inline_step(lexemes, pos, state) == Ok::<InlineState, ParseErrorView>(opened));
    // the closing delimiter
    assert(filled.open.last().items =~= items);
    assert(filled.open.drop_last() =~= state.open);
    assert(filled.close_span() == state.push_node(node));
    assert(closes(lexemes, behind, filled, kind));
    assert(inline_step(lexemes, behind, filled) == Ok::<InlineState, ParseErrorView>(
        state.push_node(node),
    ));
    // the span is what can be parsed at its place
    assert(run_stop(lexemes, pos) == run_stop(lexemes, end));
}

/// Scanning the rendering of well-formed nodes adds the nodes to the state,
/// and the nodes are what can be parsed at their place.
pub proof fn lemma_scan_rendered_nodes(
    pre: Seq<LexemeView>,
    items: Seq<InlineView>,
    post: Seq<LexemeView>,
    state: InlineState,
    tail: bool,
)
    requires
        inlines_wf(items, state.innermost(), state.room(), tail),
        follows_well(
            pre + render_inlines(items) + post,
            (pre.len() + render_inlines(items).len()) as int,
            state.innermost(),
        ),
        tail ==> stops_at(pre + render_inlines(items) + post, (pre.len() + render_inlines(items).len()) as int),
    ensures
        scan_inlines(pre + render_inlines(items) + post, pre.len() as int, state) == scan_inlines(
            pre + render_inlines(items) + post,
            (pre.len() + render_inlines(items).len()) as int,
            state.push_nodes(items),
        ),
        run_stop(pre + render_inlines(items) + post, pre.len() as int) == run_stop(
            pre + render_inlines(items) + post,
            (pre.len() + render_inlines(items).len()) as int,
        ),
    decreases items, 0nat,
{
    let lexemes = pre + render_inlines(items) + post;
    if items.len() == 0 {
        lemma_push_nodes_empty(state);
    } else {
        let init = items.drop_last();
        let last = items.last();
        lemma_push_nodes_last(state, items);
        let mid = state.push_nodes(init);
        assert(mid.room() == state.room());
        assert(lexemes =~= (pre + render_inlines(init)) + render_inline(last) + post);
        lemma_scan_rendered_node(pre + render_inlines(init), last, post, mid, tail);
        assert(lexemes =~= pre + render_inlines(init) + (render_inline(last) + post));
        lemma_scan_rendered_nodes(pre, init, render_inline(last) + post, state, false);
    }
}

/// Parsing the rendering of well-formed nodes gives the nodes back, whatever
/// stands in front of the rendering, if what follows it is no inline token.
pub proof fn lemma_parse_rendered_inlines(pre: Seq<LexemeView>, items: Seq<InlineView>, post: Seq<LexemeView>)
    requires
        inlines_wf(items, None, MAX_INLINE_DEPTH as nat, true),
        post.len() == 0 || !post[0].token.is_inline(),
    ensures
        scan_inlines(pre + render_inlines(items) + post, pre.len() as int, InlineState::empty()) == Ok::<
            (Seq<InlineView>, int),
            Failure,
        >((items, (pre.len() + render_inlines(items).len()) as int)),
{
    let lexemes = pre + render_inlines(items) + post;
    let state = InlineState::empty();
    let behind = (pre.len() + render_inlines(items).len()) as int;
    assert(lexemes.len() == behind + post.len());
    if post.len() > 0 {
        assert(lexemes[behind] == post[0]);
        assert(delimiter_of(lexemes[behind].token) is None);
        assert(span_end(lexemes, behind) is None);
    }
    assert(run_stop(lexemes, behind) == behind);
    lemma_scan_rendered_nodes(pre, items, post, state, true);
    assert(state.push_nodes(items).items =~= items);
}

/// The lexemes from `from` up to `to` are words, and no word stands at `to`:
/// the run of words that starts at `from` ends at `to`.
pub proof fn lemma_words_end_is(lexemes: Seq<LexemeView>, from: int, to: int)
    requires
        0 <= from <= to <= lexemes.len(),
        forall|i: int| from <= i < to ==> (#[trigger] lexemes[i]).token == Token::Word,
        to < lexemes.len() ==> lexemes[to].token != Token::Word,
    ensures
        words_end(lexemes, from) == to,
    decreases to - from,
{
    if from < to {
        assert(lexemes[from].token == Token::Word);
        lemma_words_end_is(lexemes, from + 1, to);
    }
}

/// The rendering of nodes that are all text is one word for each node.
pub proof fn lemma_render_title(title: Seq<InlineView>)
    requires
        forall|i: int| 0 <= i < title.len() ==> (#[trigger] title[i]) is Text,
    ensures
        render_inlines(title).len() == title.len(),
        forall|i: int|
            0 <= i < title.len() ==> (#[trigger] render_inlines(title)[i]) == rendered(Token::Word, title[i]->Text_0),
    decreases title.len(),
{
    if title.len() > 0 {
        let init = title.drop_last();
        let last = title.last();
        assert forall|i: int| 0 <= i < init.len() implies (#[trigger] init[i]) is Text by {
            assert(init[i] == title[i]);
        }
        lemma_render_title(init);
        assert(last is Text);
        assert(render_inline(last) =~= seq![rendered(Token::Word, last->Text_0)]);
        assert(render_inlines(title) == render_inlines(init) + render_inline(last));
        assert forall|i: int| 0 <= i < title.len() implies (#[trigger] render_inlines(title)[i]) == rendered(
            Token::Word,
            title[i]->Text_0,
        ) by {
            if i < init.len() {
                assert(render_inlines(title)[i] == render_inlines(init)[i]);
                assert(init[i] == title[i]);
            } else {
                assert(render_inlines(title)[i] == render_inline(last)[0]);
            }
        }
    }
}

/// The rendering of a node starts with an inline token.
pub proof fn lemma_render_inline_first(node: InlineView)
    ensures
        render_inline(node).len() > 0,
        render_inline(node)[0].token.is_inline(),
{
    match node {
        InlineView::Text(text) => {
            assert(render_inline(node)[0] == rendered(Token::Word, text));
        },
        InlineView::Bold(items) => {
            let mark = render_token(Token::BoldDelimiter);
            assert(render_inline(node) == seq![mark] + render_inlines(items) + seq![mark]);
            assert(render_inline(node)[0] == mark);
        },
        InlineView::Italic(items) => {
            let mark = render_token(Token::ItalicDelimiter);
            assert(render_inline(node) == seq![mark] + render_inlines(items) + seq![mark]);
            assert(render_inline(node)[0] == mark);
        },
    }
}

/// The rendering of one or more nodes starts with an inline token.
pub proof fn lemma_render_inlines_first(items: Seq<InlineView>)
    requires
        items.len() > 0,
    ensures
        render_inlines(items).len() > 0,
        render_inlines(items)[0].token.is_inline(),
    decreases items.len(),
{
    let init = items.drop_last();
    let last = items.last();
    lemma_render_inline_first(last);
    assert(render_inlines(items) == render_inlines(init) + render_inline(last));
    if init.len() > 0 {
        lemma_render_inlines_first(init);
        assert(render_inlines(items)[0] == render_inlines(init)[0]);
    } else {
        assert(render_inlines(init) =~= Seq::<LexemeView>::empty());
        assert(render_inlines(items)[0] == render_inline(last)[0]);
    }
}

impl BlockState {
    /// Adds finished blocks, in order, to the innermost open section, or to the top level.
    pub open spec fn attach_all(self, blocks: Seq<BlockView>) -> BlockState {
        if self.open.len() == 0 {
            BlockState { blocks: self.blocks + blocks, ..self }
        } else {
            let last = self.open.last();
            BlockState {
                open: self.open.drop_last().push(OpenSection { content: last.content + blocks, ..last }),
                ..self
            }
        }
    }

    /// The state after the rendering of `block` has been read: a paragraph is
    /// attached; a section is opened, and stays open if it has blocks under it.
    pub open spec fn absorb_block(self, block: BlockView) -> BlockState
        decreases block, 1nat,
    {
        match block {
            BlockView::Paragraph { .. } => self.attach(block),
            BlockView::Section { level, title, content } => {
                let opened = self.close_to(level).open_section(level, title);
                if content.len() == 0 {
                    opened.close_top()
                } else {
                    opened.absorb_blocks(content)
                }
            },
        }
    }

    /// The state after the rendering of `blocks` has been read.
    pub open spec fn absorb_blocks(self, blocks: Seq<BlockView>) -> BlockState
        decreases blocks, 0nat,
    {
        if blocks.len() == 0 {
            self
        } else {
            self.absorb_blocks(blocks.drop_last()).absorb_block(blocks.last())
        }
    }
}

proof fn lemma_attach_all_last(state: BlockState, blocks: Seq<BlockView>)
    requires
        blocks.len() > 0,
    ensures
        state.attach_all(blocks) == state.attach_all(blocks.drop_last()).attach(blocks.last()),
{
    let init = blocks.drop_last();
    let mid = state.attach_all(init);
    if state.open.len() == 0 {
        assert((state.blocks + init).push(blocks.last()) =~= state.blocks + blocks);
    } else {
        let last = state.open.last();
        assert((last.content + init).push(blocks.last()) =~= last.content + blocks);
        assert(mid.open.drop_last() =~= state.open.drop_last());
        assert(mid.attach(blocks.last()).open =~= state.attach_all(blocks).open);
    }
}

proof fn lemma_attach_all_empty(state: BlockState)
    ensures
        state.attach_all(Seq::empty()) == state,
{
    if state.open.len() == 0 {
        assert(state.blocks + Seq::<BlockView>::empty() =~= state.blocks);
    } else {
        let last = state.open.last();
        assert(last.content + Seq::<BlockView>::empty() =~= last.content);
        assert(state.open.drop_last().push(last) =~= state.open);
    }
}

proof fn lemma_attach_all_keeps(state: BlockState, blocks: Seq<BlockView>)
    ensures
        state.attach_all(blocks).open.len() == state.open.len(),
        state.open.len() > 0 ==> state.attach_all(blocks).open.last().level == state.open.last().level,
        state.open.len() > 0 ==> state.attach_all(blocks).open.drop_last() == state.open.drop_last(),
        state.open.len() > 0 ==> state.attach_all(blocks).open.last().content == state.open.last().content + blocks,
        state.open.len() > 0 ==> state.attach_all(blocks).open.last().title == state.open.last().title,
        state.attach_all(blocks).errors == state.errors,
{
    if state.open.len() > 0 {
        assert(state.attach_all(blocks).open.drop_last() =~= state.open.drop_last());
    }
}

/// What stays open after the rendering of well-formed blocks has been read is
/// closed by the next heading that is not deeper, and the blocks then stand
/// under their parent as they are.
pub proof fn lemma_absorb_closes(state: BlockState, blocks: Seq<BlockView>, above: nat, level: nat)
    requires
        blocks_wf(blocks, above),
        state.open.len() > 0 ==> state.open.last().level <= above,
    ensures
        settled(blocks) ==> state.absorb_blocks(blocks) == state.attach_all(blocks),
        closed_by(blocks, level) ==> state.absorb_blocks(blocks).close_to(level) == state.attach_all(blocks).close_to(
            level,
        ),
    decreases blocks, 0nat,
{
    if blocks.len() == 0 {
        lemma_attach_all_empty(state);
    } else {
        let init = blocks.drop_last();
        let last = blocks.last();
        let before = state.absorb_blocks(init);
        let under = state.attach_all(init);
        assert(state.absorb_blocks(blocks) == before.absorb_block(last));
        assert(blocks_wf(init, above) && block_wf(last, above));
        lemma_attach_all_last(state, blocks);
        lemma_attach_all_keeps(state, init);
        if init.len() > 0 {
            assert(init.last() == blocks[blocks.len() - 2]);
            assert(may_follow(init.last(), last));
        }
        match last {
            BlockView::Paragraph { .. } => {
                assert(settled(init));
                lemma_absorb_closes(state, init, above, level);
                assert(before.absorb_block(last) == before.attach(last));
            },
            BlockView::Section { level: own, title, content } => {
                assert(above < own && blocks_wf(content, own));
                assert(closed_by(init, own));
                lemma_absorb_closes(state, init, above, own);
                assert(before.close_to(own) == under.close_to(own));
                assert(under.close_to(own) == under);
                let opened = under.open_section(own, title);
                assert(opened.open.drop_last() =~= under.open);
                assert(opened.open.last() == OpenSection { level: own, title, content: Seq::empty() });
                if content.len() == 0 {
                    assert(content =~= Seq::<BlockView>::empty());
                    assert(opened.close_top() == under.attach(last));
                    assert(before.absorb_block(last) == opened.close_top());
                } else {
                    assert(before.absorb_block(last) == opened.absorb_blocks(content));
                    if level <= own {
                        lemma_absorb_closes(opened, content, own, level);
                        if has_content(content.last()) {
                            assert(block_wf(content.last(), own));
                        }
                        assert(closed_by(content, level));
                        let filled = opened.attach_all(content);
                        lemma_attach_all_keeps(opened, content);
                        assert(Seq::<BlockView>::empty() + content =~= content);
                        assert(filled.open.last() == OpenSection { level: own, title, content });
                        assert(filled.open.drop_last() =~= under.open);
                        assert(filled.close_top() == under.attach(last));
                        assert(filled.close_to(level) == filled.close_top().close_to(level));
                    }
                }
            },
        }
    }
}

/// The parts of a concatenation of three stand in it where they should.
proof fn lemma_three_parts(pre: Seq<LexemeView>, mid: Seq<LexemeView>, post: Seq<LexemeView>)
    ensures
        (pre + mid + post).len() == pre.len() + mid.len() + post.len(),
        forall|i: int| 0 <= i < mid.len() ==> (#[trigger] (pre + mid + post)[pre.len() + i]) == mid[i],
        forall|i: int| 0 <= i < post.len() ==> (#[trigger] (pre + mid + post)[pre.len() + mid.len() + i]) == post[i],
{
}

/// Reading the rendering of a well-formed paragraph attaches the paragraph.
pub proof fn lemma_step_rendered_paragraph(
    pre: Seq<LexemeView>,
    content: Seq<InlineView>,
    post: Seq<LexemeView>,
    state: BlockState,
)
    requires
        content.len() > 0,
        inlines_wf(content, None, MAX_INLINE_DEPTH as nat, true),
        post.len() == 0 || post[0].token != Token::BlankLine,
    ensures
        block_step(
            pre + render_block(BlockView::Paragraph { content }) + post,
            pre.len() as int,
            state,
        ) == (
            state.attach(BlockView::Paragraph { content }),
            (pre.len() + render_block(BlockView::Paragraph { content }).len()) as int,
        ),
        pre.len() < (pre + render_block(BlockView::Paragraph { content }) + post).len(),
{
    let block = BlockView::Paragraph { content };
    let blank = render_token(Token::BlankLine);
    let inner = render_inlines(content);
    let lexemes = pre + render_block(block) + post;
    let pos = pre.len() as int;
    let behind = (pos + inner.len()) as int;
    lemma_render_inlines_first(content);
    assert(render_block(block) == inner + seq![blank]);
    assert(lexemes =~= pre + inner + (seq![blank] + post));
    lemma_three_parts(pre, inner, seq![blank] + post);
    assert(lexemes[pos + 0] == inner[0]);
    assert(lexemes[pos].token.is_inline());
    lemma_parse_rendered_inlines(pre, content, seq![blank] + post);
    assert(scan_inlines(lexemes, pos, InlineState::empty()) == Ok::<(Seq<InlineView>, int), Failure>(
        (content, behind),
    ));
    assert(lexemes[pos + inner.len() + 0] == (seq![blank] + post)[0]);
    assert(lexemes[behind] == blank);
    assert(skip_newline(lexemes, behind) == behind);
    assert(paragraph(lexemes, pos) == Ok::<(BlockView, int), Failure>((block, behind)));
    if post.len() > 0 {
        assert(lexemes[pos + inner.len() + 1] == (seq![blank] + post)[1]);
        assert(lexemes[behind + 1] == post[0]);
    }
    assert(skip_blank(lexemes, behind + 1) == behind + 1);
    assert(skip_blank(lexemes, behind) == skip_blank(lexemes, behind + 1));
}

/// Reading the rendering of the heading line of a well-formed section closes
/// the open sections that are not above it and opens the section.
pub proof fn lemma_step_rendered_heading(
    pre: Seq<LexemeView>,
    level: nat,
    title: Seq<InlineView>,
    post: Seq<LexemeView>,
    state: BlockState,
)
    requires
        1 <= level <= 6,
        title_wf(title),
    ensures
        block_step(
            pre + render_heading(level, title) + post,
            pre.len() as int,
            state,
        ) == (
            state.close_to(level).open_section(level, title),
            (pre.len() + render_heading(level, title).len()) as int,
        ),
        pre.len() < (pre + render_heading(level, title) + post).len(),
{
    let marker = render_token(heading_token(level as int));
    let words = render_inlines(title);
    let line = render_token(Token::Newline);
    let head = render_heading(level, title);
    let lexemes = pre + head + post;
    let pos = pre.len() as int;
    let first = pos + 1;
    let end = first + title.len();
    lemma_render_title(title);
    lemma_three_parts(pre, head, post);
    assert(head.len() == title.len() + 2);
    assert(head[0] == marker);
    assert(lexemes[pos + 0] == head[0]);
    assert(marker.token.level() == level);
    assert forall|i: int| first <= i < end implies (#[trigger] lexemes[i]).token == Token::Word by {
        assert(lexemes[pos + (i - pos)] == head[i - pos]);
        assert(head[i - pos] == words[i - first]);
    }
    assert(lexemes[pos + (end - pos)] == head[end - pos]);
    assert(head[end - pos] == line);
    assert(lexemes[end] == line);
    lemma_words_end_is(lexemes, first, end);
    assert(title_nodes(lexemes, first, end) =~= title) by {
        assert forall|i: int| 0 <= i < title.len() implies title_nodes(lexemes, first, end)[i] == title[i] by {
            assert(lexemes[pos + (first + i - pos)] == head[first + i - pos]);
            assert(head[first + i - pos] == words[i]);
            assert(title[i] is Text);
        }
    }
    assert(heading_line(lexemes, pos) == Ok::<(Seq<InlineView>, int), Failure>((title, end + 1)));
}

/// Reading the blank line behind the heading line of a section closes the section.
proof fn lemma_step_rendered_blank(pre: Seq<LexemeView>, post: Seq<LexemeView>, state: BlockState)
    requires
        state.open.len() > 0,
        post.len() == 0 || post[0].token != Token::BlankLine,
    ensures
        block_step(pre + seq![render_token(Token::BlankLine)] + post, pre.len() as int, state) == (
            state.close_top(),
            pre.len() as int + 1,
        ),
{
    let blank = render_token(Token::BlankLine);
    let lexemes = pre + seq![blank] + post;
    let pos = pre.len() as int;
    lemma_three_parts(pre, seq![blank], post);
    assert(lexemes[pos + 0] == seq![blank][0]);
    if post.len() > 0 {
        assert(lexemes[pos + 1 + 0] == post[0]);
    }
    assert(skip_blank(lexemes, pos + 1) == pos + 1);
    assert(skip_blank(lexemes, pos) == skip_blank(lexemes, pos + 1));
}

/// Reading the rendering of a well-formed block takes the state to
/// [`absorb_block`](BlockState::absorb_block) of the block.
pub proof fn lemma_scan_rendered_block(
    pre: Seq<LexemeView>,
    block: BlockView,
    post: Seq<LexemeView>,
    state: BlockState,
    above: nat,
)
    requires
        block_wf(block, above),
        post.len() == 0 || post[0].token != Token::BlankLine,
    ensures
        scan_blocks(pre + render_block(block) + post, pre.len() as int, state) == scan_blocks(
            pre + render_block(block) + post,
            (pre.len() + render_block(block).len()) as int,
            state.absorb_block(block),
        ),
    decreases block, 1nat,
{
    let lexemes = pre + render_block(block) + post;
    let pos = pre.len() as int;
    match block {
        BlockView::Paragraph { content } => {
            lemma_sound_plain_all_wf(content, None, MAX_INLINE_DEPTH as nat, true);
            lemma_step_rendered_paragraph(pre, content, post, state);
            assert(state.absorb_block(block) == state.attach(block));
        },
        BlockView::Section { level, title, content } => {
            let head = render_heading(level, title);
            let blank = render_token(Token::BlankLine);
            let tail = if content.len() == 0 {
                seq![blank]
            } else {
                render_blocks(content)
            };
            let opened = state.close_to(level).open_section(level, title);
            let behind = (pos + head.len()) as int;
            assert(render_block(block) =~= head + tail);
            assert(lexemes =~= pre + head + (tail + post));
            lemma_step_rendered_heading(pre, level, title, tail + post, state);
            assert(scan_blocks(lexemes, pos, state) == scan_blocks(lexemes, behind, opened));
            if content.len() == 0 {
                assert(lexemes =~= (pre + head) + seq![blank] + post);
                lemma_step_rendered_blank(pre + head, post, opened);
                lemma_three_parts(pre + head, seq![blank], post);
                assert(scan_blocks(lexemes, behind, opened) == scan_blocks(lexemes, behind + 1, opened.close_top()));
                assert(state.absorb_block(block) == opened.close_top());
            } else {
                assert(lexemes =~= (pre + head) + render_blocks(content) + post);
                lemma_scan_rendered_blocks(pre + head, content, post, opened, level);
                assert(state.absorb_block(block) == opened.absorb_blocks(content));
            }
        },
    }
}

/// Reading the rendering of well-formed blocks takes the state to
/// [`absorb_blocks`](BlockState::absorb_blocks) of the blocks.
pub proof fn lemma_scan_rendered_blocks(
    pre: Seq<LexemeView>,
    blocks: Seq<BlockView>,
    post: Seq<LexemeView>,
    state: BlockState,
    above: nat,
)
    requires
        blocks_wf(blocks, above),
        post.len() == 0 || post[0].token != Token::BlankLine,
    ensures
        scan_blocks(pre + render_blocks(blocks) + post, pre.len() as int, state) == scan_blocks(
            pre + render_blocks(blocks) + post,
            (pre.len() + render_blocks(blocks).len()) as int,
            state.absorb_blocks(blocks),
        ),
    decreases blocks, 0nat,
{
    let lexemes = pre + render_blocks(blocks) + post;
    if blocks.len() > 0 {
        let init = blocks.drop_last();
        let last = blocks.last();
        let piece = render_block(last);
        assert(blocks_wf(init, above) && block_wf(last, above));
        assert(render_blocks(blocks) == render_blocks(init) + piece);
        assert(piece.len() > 0 && piece[0].token != Token::BlankLine) by {
            match last {
                BlockView::Paragraph { content } => {
                    lemma_render_inlines_first(content);
                    assert(piece[0] == render_inlines(content)[0]);
                },
                BlockView::Section { level, title, content } => {
                    assert(render_heading(level, title)[0] == render_token(heading_token(level as int)));
                    assert(piece[0] == render_heading(level, title)[0]);
                },
            }
        }
        assert((piece + post)[0] == piece[0]);
        assert(lexemes =~= pre + render_blocks(init) + (piece + post));
        lemma_scan_rendered_blocks(pre, init, piece + post, state, above);
        assert(lexemes =~= (pre + render_blocks(init)) + piece + post);
        lemma_scan_rendered_block(pre + render_blocks(init), last, post, state.absorb_blocks(init), above);
    }
}

/// Parsing the canonical rendering of a well-formed document gives the
/// document back, without an error.
pub proof fn lemma_parse_rendered_document(doc: DocumentView)
    requires
        document_wf(doc),
    ensures
        parse_result(render_document(doc)) == Ok::<DocumentView, Seq<ParseErrorView>>(doc),
{
    let lexemes = render_document(doc);
    let start = BlockState::empty();
    assert(lexemes =~= Seq::<LexemeView>::empty() + render_blocks(doc.blocks) + Seq::<LexemeView>::empty());
    lemma_scan_rendered_blocks(Seq::empty(), doc.blocks, Seq::empty(), start, 0);
    lemma_absorb_closes(start, doc.blocks, 0, 0);
    let read = start.absorb_blocks(doc.blocks);
    assert(scan_blocks(lexemes, lexemes.len() as int, read) == read.close_to(0));
    assert(start.attach_all(doc.blocks).close_to(0) == start.attach_all(doc.blocks));
    assert(start.attach_all(doc.blocks).blocks =~= doc.blocks);
}

/// The well-formed documents are the documents that a parse can give.
pub proof fn lemma_well_formed_iff_parsed(doc: DocumentView)
    ensures
        document_wf(doc) <==> exists|lexemes: Seq<LexemeView>| #[trigger]
            parse_result(lexemes) == Ok::<DocumentView, Seq<ParseErrorView>>(doc),
{
    if document_wf(doc) {
        lemma_parse_rendered_document(doc);
    }
    if exists|lexemes: Seq<LexemeView>| #[trigger]
        parse_result(lexemes) == Ok::<DocumentView, Seq<ParseErrorView>>(doc) {
        let lexemes = choose|lexemes: Seq<LexemeView>| #[trigger]
            parse_result(lexemes) == Ok::<DocumentView, Seq<ParseErrorView>>(doc);
        lemma_parsed_document_wf(lexemes);
    }
}

/// Rendering a parsed document and parsing the rendering gives the document
/// again.
pub proof fn lemma_reparse_rendered(lexemes: Seq<LexemeView>)
    ensures
        parse_result(lexemes) matches Ok(doc) ==> parse_result(render_document(doc)) == Ok::<
            DocumentView,
            Seq<ParseErrorView>,
        >(doc),
{
    lemma_parsed_document_wf(lexemes);
    match parse_result(lexemes) {
        Ok(doc) => lemma_parse_rendered_document(doc),
        Err(_) => {},
    }
}

} // verus!
