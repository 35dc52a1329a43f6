//! Which trees a parse can give.
//!
//! Not every tree is the result of a parse. [`document_wf`] says which trees
//! are the result of a parse without errors: every such result is
//! well-formed ([`crate::invariants`]), and every well-formed tree is the
//! result of parsing its own rendering ([`crate::roundtrip`]).
//! [`document_sound`] says what holds even of the trees of a parse that met
//! errors.

use vstd::prelude::*;
use crate::ast::{BlockView, DocumentView, InlineView};
use crate::grammar::{Delimiter, MAX_INLINE_DEPTH};

verus! {

/// Whether an inline node holds what every node of a parse holds, at a place
/// where `room` more levels of spans may be opened: a span wraps at least one
/// node, and nests no deeper than there is room.
pub open spec fn inline_sound(node: InlineView, room: nat) -> bool
    decreases node, 1nat,
{
    match node {
        InlineView::Text(_) => true,
        InlineView::Bold(items) => room > 0 && items.len() > 0 && inlines_sound(items, (room - 1) as nat),
        InlineView::Italic(items) => room > 0 && items.len() > 0 && inlines_sound(items, (room - 1) as nat),
    }
}

/// Whether every node of a sequence holds what every node of a parse holds.
pub open spec fn inlines_sound(items: Seq<InlineView>, room: nat) -> bool
    decreases items, 0nat,
{
    items.len() == 0 || (inlines_sound(items.drop_last(), room) && inline_sound(items.last(), room))
}

/// Whether every span in or under `node` that stands directly inside a span
/// of its own kind is the last node of that span, where `node` itself stands
/// directly inside a span of kind `around` (none at the top of a paragraph)
/// and is its last node if `tail` holds.
///
/// Behind a span that stands inside a span of its own kind nothing more can
/// stand: its closing delimiter would have been read as the start of a
/// further span.
pub open spec fn inline_plain(node: InlineView, around: Option<Delimiter>, tail: bool) -> bool
    decreases node, 1nat,
{
    match node {
        InlineView::Text(_) => true,
        InlineView::Bold(items) => (around != Some(Delimiter::Bold) || tail) && inlines_plain(
            items,
            Some(Delimiter::Bold),
            true,
        ),
        InlineView::Italic(items) => (around != Some(Delimiter::Italic) || tail) && inlines_plain(
            items,
            Some(Delimiter::Italic),
            true,
        ),
    }
}

/// Whether every span in or under `items` that stands directly inside a span
/// of its own kind is the last node of that span, where `items` stand
/// directly inside a span of kind `around` and reach to its end if `tail`
/// holds.
pub open spec fn inlines_plain(items: Seq<InlineView>, around: Option<Delimiter>, tail: bool) -> bool
    decreases items, 0nat,
{
    items.len() == 0 || (inlines_plain(items.drop_last(), around, false) && inline_plain(items.last(), around, tail))
}

/// A sound and plain node is well-formed in the strict sense of [`inline_wf`].
pub proof fn lemma_sound_plain_wf(node: InlineView, around: Option<Delimiter>, room: nat, tail: bool)
    requires
        inline_sound(node, room),
        inline_plain(node, around, tail),
    ensures
        inline_wf(node, around, room, tail),
    decreases node, 1nat,
{
    match node {
        InlineView::Text(_) => {},
        InlineView::Bold(items) => lemma_sound_plain_all_wf(items, Some(Delimiter::Bold), (room - 1) as nat, true),
        InlineView::Italic(items) => lemma_sound_plain_all_wf(
            items,
            Some(Delimiter::Italic),
            (room - 1) as nat,
            true,
        ),
    }
}

/// Sound and plain nodes are well-formed in the strict sense of [`inlines_wf`].
pub proof fn lemma_sound_plain_all_wf(items: Seq<InlineView>, around: Option<Delimiter>, room: nat, tail: bool)
    requires
        inlines_sound(items, room),
        inlines_plain(items, around, tail),
    ensures
        inlines_wf(items, around, room, tail),
    decreases items, 0nat,
{
    if items.len() > 0 {
        lemma_sound_plain_all_wf(items.drop_last(), around, room, false);
        lemma_sound_plain_wf(items.last(), around, room, tail);
    }
}

/// Whether an inline node is sound and plain, at a place inside a span of
/// kind `around` (none at the top of a paragraph) where `room` more levels of
/// spans may be opened; `tail` says that the node is the last of that span.
pub open spec fn inline_wf(node: InlineView, around: Option<Delimiter>, room: nat, tail: bool) -> bool
    decreases node, 1nat,
{
    match node {
        InlineView::Text(_) => true,
        InlineView::Bold(items) => (around != Some(Delimiter::Bold) || tail) && room > 0 && items.len() > 0
            && inlines_wf(items, Some(Delimiter::Bold), (room - 1) as nat, true),
        InlineView::Italic(items) => (around != Some(Delimiter::Italic) || tail) && room > 0 && items.len() > 0
            && inlines_wf(items, Some(Delimiter::Italic), (room - 1) as nat, true),
    }
}

/// Whether every node of a sequence is well-formed in that strict sense;
/// `tail` says that the sequence reaches to the end of the span it stands in.
pub open spec fn inlines_wf(items: Seq<InlineView>, around: Option<Delimiter>, room: nat, tail: bool) -> bool
    decreases items, 0nat,
{
    items.len() == 0 || (inlines_wf(items.drop_last(), around, room, false) && inline_wf(
        items.last(),
        around,
        room,
        tail,
    ))
}

/// Whether a title can result from a parse: one or more nodes, all of them text.
pub open spec fn title_wf(title: Seq<InlineView>) -> bool {
    title.len() > 0 && forall|i: int| 0 <= i < title.len() ==> (#[trigger] title[i]) is Text
}

/// The inline nodes of a paragraph; none for a section.
pub open spec fn paragraph_content(block: BlockView) -> Seq<InlineView> {
    match block {
        BlockView::Paragraph { content } => content,
        BlockView::Section { .. } => Seq::empty(),
    }
}

/// Whether `block` is a section with blocks under it.
pub open spec fn has_content(block: BlockView) -> bool {
    block matches BlockView::Section { content, .. } && content.len() > 0
}

/// The level of a section; 0 for a paragraph.
pub open spec fn level_of(block: BlockView) -> nat {
    match block {
        BlockView::Section { level, .. } => level,
        BlockView::Paragraph { .. } => 0,
    }
}

/// Whether `next` can stand right behind `prev` under one parent. Behind a
/// section that has blocks under it, only a heading that closes it can start
/// the next block: a section whose level is not deeper.
pub open spec fn may_follow(prev: BlockView, next: BlockView) -> bool {
    has_content(prev) ==> next is Section && level_of(next) <= level_of(prev)
}

/// Whether a block can result from a parse without errors, under a section of
/// level `above` (0 at the top of the document).
pub open spec fn block_wf(block: BlockView, above: nat) -> bool
    decreases block, 1nat,
{
    match block {
        BlockView::Paragraph { content } => content.len() > 0 && inlines_sound(content, MAX_INLINE_DEPTH as nat)
            && inlines_plain(content, None, true),
        BlockView::Section { level, title, content } => above < level <= 6 && title_wf(title) && blocks_wf(
            content,
            level,
        ),
    }
}

/// Whether a sequence of blocks can result from a parse without errors, under
/// a section of level `above` (0 at the top of the document).
pub open spec fn blocks_wf(blocks: Seq<BlockView>, above: nat) -> bool
    decreases blocks, 0nat,
{
    blocks.len() == 0 || (blocks_wf(blocks.drop_last(), above) && block_wf(blocks.last(), above) && (blocks.len() >= 2
        ==> may_follow(blocks[blocks.len() - 2], blocks.last())))
}

/// Whether a block holds what every block of a parse holds, even one of a
/// parse that met errors: what [`block_wf`] asks, but for the order of the
/// blocks under one parent.
pub open spec fn block_sound(block: BlockView, above: nat) -> bool
    decreases block, 1nat,
{
    match block {
        BlockView::Paragraph { content } => content.len() > 0 && inlines_sound(content, MAX_INLINE_DEPTH as nat)
            && inlines_plain(content, None, true),
        BlockView::Section { level, title, content } => above < level <= 6 && title_wf(title) && blocks_sound(
            content,
            level,
        ),
    }
}

/// Whether every block of a sequence holds what every block of a parse holds.
pub open spec fn blocks_sound(blocks: Seq<BlockView>, above: nat) -> bool
    decreases blocks, 0nat,
{
    blocks.len() == 0 || (blocks_sound(blocks.drop_last(), above) && block_sound(blocks.last(), above))
}

/// Whether a document holds what every document of a parse holds, even one
/// of a parse that met errors.
///
/// - A section has a level from 1 to 6, deeper than that of the section it
///   stands under, and a title of one or more text nodes.
/// - A paragraph has one or more nodes. A span wraps one or more nodes, and
///   nests at most [`MAX_INLINE_DEPTH`] deep. A span stands directly inside a
///   span of its own kind only as the last node of that span.
pub open spec fn document_sound(doc: DocumentView) -> bool {
    blocks_sound(doc.blocks, 0)
}

/// A well-formed block is sound.
pub proof fn lemma_block_wf_sound(block: BlockView, above: nat)
    requires
        block_wf(block, above),
    ensures
        block_sound(block, above),
    decreases block, 1nat,
{
    match block {
        BlockView::Paragraph { .. } => {},
        BlockView::Section { level, content, .. } => lemma_blocks_wf_sound(content, level),
    }
}

/// Well-formed blocks are sound.
pub proof fn lemma_blocks_wf_sound(blocks: Seq<BlockView>, above: nat)
    requires
        blocks_wf(blocks, above),
    ensures
        blocks_sound(blocks, above),
    decreases blocks, 0nat,
{
    if blocks.len() > 0 {
        lemma_blocks_wf_sound(blocks.drop_last(), above);
        lemma_block_wf_sound(blocks.last(), above);
    }
}

/// Whether a document can result from a parse without errors.
///
/// - A section has a level from 1 to 6, deeper than that of the section it
///   stands under, and a title of one or more text nodes.
/// - A paragraph has one or more nodes. A span wraps one or more nodes, and
///   nests at most [`MAX_INLINE_DEPTH`] deep. A span stands directly inside a
///   span of its own kind only as the last node of that span.
/// - Behind a section that has blocks under it stands no paragraph and no
///   deeper section: they would have gone under it.
pub open spec fn document_wf(doc: DocumentView) -> bool {
    blocks_wf(doc.blocks, 0)
}

/// Whether nothing stays open behind `blocks`: the last of them is no section
/// with blocks under it.
pub open spec fn settled(blocks: Seq<BlockView>) -> bool {
    blocks.len() == 0 || !has_content(blocks.last())
}

/// Whether a heading of level `level` closes whatever stays open behind `blocks`.
pub open spec fn closed_by(blocks: Seq<BlockView>, level: nat) -> bool {
    blocks.len() == 0 || (has_content(blocks.last()) ==> level <= level_of(blocks.last()))
}

} // verus!
