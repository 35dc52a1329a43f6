//! The grammar: what parsing means.
//!
//! ```text
//! document  := block* end-of-input
//! block     := (section | paragraph) BlankLine*
//! section   := Heading(level) Word+ (Newline | BlankLine) block*
//! paragraph := inline+ Newline?
//! inline    := bold | italic | text
//! bold      := BoldDelimiter inline+ BoldDelimiter
//! italic    := ItalicDelimiter inline+ ItalicDelimiter
//! text      := Word
//! ```
//!
//! The blocks under a section end at the end of the input, at a token that
//! starts no block, or at a heading whose level is not deeper than the
//! section's own: such a heading closes the section, and every section open
//! inside it.
//!
//! The alternatives of `inline` are tried in their order. A delimiter starts
//! a span wherever a span can be parsed at its place ([`span_end`]); inside a
//! span of its own kind it closes that span where it starts none. Inside a
//! span of the other kind, and outside every span, it can only start a span.
//! Spans nest at most [`MAX_INLINE_DEPTH`] deep.
//!
//! The grammar is stated as two scans over the lexemes, each a function from a
//! state and a place to the next state. [`scan_inlines`] holds the spans that
//! are open, innermost last; [`scan_blocks`] holds the sections that are open,
//! innermost last, and the errors met so far. After an error the block scan
//! goes on at the next blank line or heading ([`sync`]).

use vstd::prelude::*;
use crate::ast::{inline_views, BlockView, DocumentView, Inline, InlineView};
use crate::error_recovery::ParseErrorView;
use crate::token::{LexemeView, Token};

verus! {

/// The deepest nesting of bold and italic spans that the parser accepts.
pub const MAX_INLINE_DEPTH: usize = 64;

/// The kind of a span.
#[derive(Debug, Clone, Copy, PartialEq, Eq, Structural)]
pub enum Delimiter {
    /// `**`
    Bold,
    /// `_`
    Italic,
}

impl Delimiter {
    /// The token that opens and closes a span of this kind.
    pub open spec fn token(self) -> Token {
        match self {
            Delimiter::Bold => Token::BoldDelimiter,
            Delimiter::Italic => Token::ItalicDelimiter,
        }
    }

    /// The name of the kind in error messages.
    pub open spec fn name_text(self) -> Seq<char> {
        match self {
            Delimiter::Bold => "bold"@,
            Delimiter::Italic => "italic"@,
        }
    }

    /// The node of this kind around `items`.
    pub open spec fn wrap(self, items: Seq<InlineView>) -> InlineView {
        match self {
            Delimiter::Bold => InlineView::Bold(items),
            Delimiter::Italic => InlineView::Italic(items),
        }
    }
}

impl Delimiter {
    /// Returns the kind of span that `token` delimits, if it is a delimiter.
    pub fn of(token: Token) -> (kind: Option<Delimiter>)
        ensures
            kind == delimiter_of(token),
    {
        match token {
            Token::BoldDelimiter => Some(Delimiter::Bold),
            Token::ItalicDelimiter => Some(Delimiter::Italic),
            _ => None,
        }
    }

    /// Returns the name of the kind for error messages.
    pub fn name(&self) -> (text: &'static str)
        ensures
            text@ == self.name_text(),
    {
        match self {
            Delimiter::Bold => "bold",
            Delimiter::Italic => "italic",
        }
    }

    /// Makes the node of this kind around `items`.
    pub fn node(&self, items: Vec<Inline>) -> (node: Inline)
        ensures
            node@ == self.wrap(inline_views(items@)),
    {
        match self {
            Delimiter::Bold => Inline::Bold(items),
            Delimiter::Italic => Inline::Italic(items),
        }
    }
}

/// The kind of span that a token delimits, if it is a delimiter.
pub open spec fn delimiter_of(token: Token) -> Option<Delimiter> {
    match token {
        Token::BoldDelimiter => Some(Delimiter::Bold),
        Token::ItalicDelimiter => Some(Delimiter::Italic),
        _ => None,
    }
}

/// An error together with the place in the lexemes where it was noticed.
pub struct Failure {
    /// The error.
    pub error: ParseErrorView,
    /// Index of the lexeme at which the parser could not go on; the number of
    /// lexemes where that is the end of the input.
    pub at: int,
}

/// A span that has been opened and not yet closed.
pub struct OpenSpan {
    /// Its kind.
    pub kind: Delimiter,
    /// The `start` offset of the delimiter that opened it.
    pub start: int,
    /// The nodes found inside it so far.
    pub items: Seq<InlineView>,
}

/// The state of the inline scan.
pub struct InlineState {
    /// The nodes finished so far outside every span.
    pub items: Seq<InlineView>,
    /// The spans that are open, innermost last.
    pub open: Seq<OpenSpan>,
}

impl InlineState {
    /// The state before the first token.
    pub open spec fn empty() -> InlineState {
        InlineState { items: Seq::empty(), open: Seq::empty() }
    }

    /// The kind of the innermost open span, if a span is open.
    pub open spec fn innermost(self) -> Option<Delimiter> {
        if self.open.len() > 0 {
            Some(self.open.last().kind)
        } else {
            None
        }
    }

    /// The number of levels of spans that may still be opened.
    pub open spec fn room(self) -> nat {
        if self.open.len() <= MAX_INLINE_DEPTH {
            (MAX_INLINE_DEPTH - self.open.len()) as nat
        } else {
            0
        }
    }

    /// Adds a finished node to the innermost open span, or to the top level.
    pub open spec fn push_node(self, node: InlineView) -> InlineState {
        if self.open.len() == 0 {
            InlineState { items: self.items.push(node), open: self.open }
        } else {
            let last = self.open.last();
            InlineState {
                items: self.items,
                open: self.open.drop_last().push(OpenSpan { items: last.items.push(node), ..last }),
            }
        }
    }

    /// Opens a span.
    pub open spec fn open_span(self, kind: Delimiter, start: int) -> InlineState {
        InlineState { items: self.items, open: self.open.push(OpenSpan { kind, start, items: Seq::empty() }) }
    }

    /// Closes the innermost open span and adds its node to what lies around it.
    pub open spec fn close_span(self) -> InlineState
        recommends
            self.open.len() > 0,
    {
        let last = self.open.last();
        InlineState { items: self.items, open: self.open.drop_last() }.push_node(last.kind.wrap(last.items))
    }
}

/// The error for a token at a place where the rule asks for `expected`.
pub open spec fn unexpected_token(lexeme: LexemeView, expected: Seq<char>) -> ParseErrorView {
    ParseErrorView::UnexpectedToken { position: lexeme.start, expected, got: lexeme.token.description_text() }
}

/// The error for an input that ends where the rule asks for `context`.
pub open spec fn unexpected_end(context: Seq<char>) -> ParseErrorView {
    ParseErrorView::UnexpectedEOF { context }
}

/// The error for a delimiter that closes a span with nothing in it.
pub open spec fn empty_span_error(lexeme: LexemeView) -> ParseErrorView {
    unexpected_token(lexeme, "text"@)
}

/// The error for a span that would nest deeper than [`MAX_INLINE_DEPTH`].
pub open spec fn too_deep_error() -> ParseErrorView {
    ParseErrorView::InvalidStructure { message: "inline formatting is nested too deeply"@ }
}

/// The error for a span that is still open where its paragraph ends.
pub open spec fn unclosed_error(span: OpenSpan) -> ParseErrorView {
    ParseErrorView::UnclosedDelimiter { delimiter: span.kind.name_text(), start: span.start }
}

/// The place behind the span that starts at `pos`, if a span can be parsed
/// there: the delimiter at `pos`, one or more inline nodes behind it, as many
/// as can be parsed, and the same delimiter again.
pub open spec fn span_end(lexemes: Seq<LexemeView>, pos: int) -> Option<int>
    decreases lexemes.len() - pos, 0nat,
{
    if 0 <= pos < lexemes.len() && delimiter_of(lexemes[pos].token) is Some {
        let stop = run_stop(lexemes, pos + 1);
        if pos + 1 < stop < lexemes.len() && lexemes[stop].token == lexemes[pos].token {
            Some(stop + 1)
        } else {
            None
        }
    } else {
        None
    }
}

/// The place where the inline nodes that can be parsed from `pos` on end: the
/// first place from `pos` on where neither a word stands nor a span can be
/// parsed.
pub open spec fn run_stop(lexemes: Seq<LexemeView>, pos: int) -> int
    decreases lexemes.len() - pos, 1nat,
{
    if 0 <= pos < lexemes.len() && lexemes[pos].token == Token::Word {
        run_stop(lexemes, pos + 1)
    } else if 0 <= pos < lexemes.len() {
        match span_end(lexemes, pos) {
            Some(end) => if pos < end <= lexemes.len() {
                run_stop(lexemes, end)
            } else {
                pos
            },
            None => pos,
        }
    } else {
        pos
    }
}

/// Whether the delimiter at `pos`, of kind `kind`, closes the innermost open
/// span: the span is of its kind, and no span can be parsed at `pos`. A
/// delimiter is tried as the start of a span first, and closes a span only
/// where it starts none.
pub open spec fn closes(lexemes: Seq<LexemeView>, pos: int, state: InlineState, kind: Delimiter) -> bool {
    state.open.len() > 0 && state.open.last().kind == kind && span_end(lexemes, pos) is None
}

/// One step of the inline scan: what the inline token at `pos` does to the state.
pub open spec fn inline_step(lexemes: Seq<LexemeView>, pos: int, state: InlineState) -> Result<
    InlineState,
    ParseErrorView,
>
    recommends
        0 <= pos < lexemes.len(),
        lexemes[pos].token.is_inline(),
{
    let lexeme = lexemes[pos];
    match delimiter_of(lexeme.token) {
        None => Ok(state.push_node(InlineView::Text(lexeme.text))),
        Some(kind) => {
            if closes(lexemes, pos, state, kind) {
                if state.open.last().items.len() == 0 {
                    Err(empty_span_error(lexeme))
                } else {
                    Ok(state.close_span())
                }
            } else if state.open.len() >= MAX_INLINE_DEPTH {
                Err(too_deep_error())
            } else {
                Ok(state.open_span(kind, lexeme.start))
            }
        },
    }
}

/// The inline scan: reads inline tokens from `pos` on, up to the first token
/// that is none or the end of the input.
///
/// Gives the nodes read and the place behind them, or the first error and the
/// place where it was noticed.
pub open spec fn scan_inlines(lexemes: Seq<LexemeView>, pos: int, state: InlineState) -> Result<
    (Seq<InlineView>, int),
    Failure,
>
    decreases lexemes.len() - pos,
{
    if 0 <= pos < lexemes.len() && lexemes[pos].token.is_inline() {
        match inline_step(lexemes, pos, state) {
            Ok(next) => scan_inlines(lexemes, pos + 1, next),
            Err(error) => Err(Failure { error, at: pos }),
        }
    } else if state.open.len() == 0 {
        Ok((state.items, pos))
    } else {
        Err(Failure { error: unclosed_error(state.open.last()), at: pos })
    }
}

/// The result of parsing a stretch of lexemes as inline content: the nodes
/// that the inline scan reads, if it reads the stretch to its end.
pub open spec fn inline_result(lexemes: Seq<LexemeView>) -> Result<Seq<InlineView>, ParseErrorView> {
    match scan_inlines(lexemes, 0, InlineState::empty()) {
        Ok((items, next)) => if next >= lexemes.len() {
            Ok(items)
        } else {
            Err(unexpected_token(lexemes[next], "text or delimiter"@))
        },
        Err(failure) => Err(failure.error),
    }
}

/// The place behind the line break at `pos`, if there is one; `pos` otherwise.
pub open spec fn skip_newline(lexemes: Seq<LexemeView>, pos: int) -> int {
    if 0 <= pos < lexemes.len() && lexemes[pos].token == Token::Newline {
        pos + 1
    } else {
        pos
    }
}

/// The place of the first token from `pos` on that is no blank line.
pub open spec fn skip_blank(lexemes: Seq<LexemeView>, pos: int) -> int
    decreases lexemes.len() - pos,
{
    if 0 <= pos < lexemes.len() && lexemes[pos].token == Token::BlankLine {
        skip_blank(lexemes, pos + 1)
    } else {
        pos
    }
}

/// The place of the first token from `pos` on that is no word.
pub open spec fn words_end(lexemes: Seq<LexemeView>, pos: int) -> int
    decreases lexemes.len() - pos,
{
    if 0 <= pos < lexemes.len() && lexemes[pos].token == Token::Word {
        words_end(lexemes, pos + 1)
    } else {
        pos
    }
}

/// The place of the first blank line or heading from `pos` on; the end of the
/// input if there is none.
pub open spec fn next_sync(lexemes: Seq<LexemeView>, pos: int) -> int
    decreases lexemes.len() - pos,
{
    if 0 <= pos < lexemes.len() && !(lexemes[pos].token == Token::BlankLine || lexemes[pos].token.is_heading()) {
        next_sync(lexemes, pos + 1)
    } else {
        pos
    }
}

/// Where the block scan goes on after an error noticed at `pos`: at the next
/// heading, or behind the next run of blank lines.
pub open spec fn sync(lexemes: Seq<LexemeView>, pos: int) -> int {
    skip_blank(lexemes, next_sync(lexemes, pos))
}

/// A paragraph that starts at `pos`: one or more inline nodes, up to the
/// first token that is not inline, and one line break behind them if there is
/// one. Where no inline token stands at `pos` no paragraph starts: that is an
/// error, noticed at `pos`.
pub open spec fn paragraph(lexemes: Seq<LexemeView>, pos: int) -> Result<(BlockView, int), Failure> {
    if !(0 <= pos < lexemes.len()) {
        Err(Failure { error: unexpected_end("text"@), at: pos })
    } else if !lexemes[pos].token.is_inline() {
        Err(Failure { error: unexpected_token(lexemes[pos], "text"@), at: pos })
    } else {
        match scan_inlines(lexemes, pos, InlineState::empty()) {
            Ok((content, next)) => Ok((BlockView::Paragraph { content }, skip_newline(lexemes, next))),
            Err(failure) => Err(failure),
        }
    }
}

/// The text nodes of the words from `from` up to `to`.
pub open spec fn title_nodes(lexemes: Seq<LexemeView>, from: int, to: int) -> Seq<InlineView> {
    Seq::new((to - from) as nat, |i: int| InlineView::Text(lexemes[from + i].text))
}

/// The heading line whose marker stands at `pos`: the marker, one or more
/// words and a line break or blank line. Gives the title and the place behind
/// the line. Where no heading marker stands at `pos` no heading line starts:
/// that is an error, noticed at `pos`.
pub open spec fn heading_line(lexemes: Seq<LexemeView>, pos: int) -> Result<(Seq<InlineView>, int), Failure> {
    let first = pos + 1;
    let end = words_end(lexemes, first);
    if !(0 <= pos < lexemes.len()) {
        Err(Failure { error: unexpected_end("heading"@), at: pos })
    } else if !lexemes[pos].token.is_heading() {
        Err(Failure { error: unexpected_token(lexemes[pos], "heading"@), at: pos })
    } else if end == first {
        if first >= lexemes.len() {
            Err(Failure { error: unexpected_end("section title"@), at: first })
        } else {
            Err(Failure { error: unexpected_token(lexemes[first], "word"@), at: first })
        }
    } else if end >= lexemes.len() {
        Err(Failure { error: unexpected_end("end of heading line"@), at: end })
    } else if lexemes[end].token == Token::Newline || lexemes[end].token == Token::BlankLine {
        Ok((title_nodes(lexemes, first, end), end + 1))
    } else {
        Err(Failure { error: unexpected_token(lexemes[end], "newline or blank line"@), at: end })
    }
}

/// A section whose heading line has been read and whose blocks may still follow.
pub struct OpenSection {
    /// Heading level, 1 to 6.
    pub level: nat,
    /// The title.
    pub title: Seq<InlineView>,
    /// The blocks found under the heading so far.
    pub content: Seq<BlockView>,
}

impl OpenSection {
    /// The finished section.
    pub open spec fn block(self) -> BlockView {
        BlockView::Section { level: self.level, title: self.title, content: self.content }
    }
}

/// The state of the block scan.
pub struct BlockState {
    /// The finished top-level blocks.
    pub blocks: Seq<BlockView>,
    /// The sections that are open, innermost last.
    pub open: Seq<OpenSection>,
    /// The errors met so far.
    pub errors: Seq<ParseErrorView>,
}

impl BlockState {
    /// The state before the first token.
    pub open spec fn empty() -> BlockState {
        BlockState { blocks: Seq::empty(), open: Seq::empty(), errors: Seq::empty() }
    }

    /// Adds a finished block to the innermost open section, or to the top level.
    pub open spec fn attach(self, block: BlockView) -> BlockState {
        if self.open.len() == 0 {
            BlockState { blocks: self.blocks.push(block), ..self }
        } else {
            let last = self.open.last();
            BlockState {
                open: self.open.drop_last().push(OpenSection { content: last.content.push(block), ..last }),
                ..self
            }
        }
    }

    /// Closes the innermost open section and adds it to what lies around it.
    pub open spec fn close_top(self) -> BlockState
        recommends
            self.open.len() > 0,
    {
        BlockState { open: self.open.drop_last(), ..self }.attach(self.open.last().block())
    }

    /// Closes, from the innermost outwards, every open section whose level is
    /// `level` or deeper.
    pub open spec fn close_to(self, level: nat) -> BlockState
        decreases self.open.len(),
    {
        if self.open.len() > 0 && self.open.last().level >= level {
            self.close_top().close_to(level)
        } else {
            self
        }
    }

    /// Opens a section.
    pub open spec fn open_section(self, level: nat, title: Seq<InlineView>) -> BlockState {
        BlockState { open: self.open.push(OpenSection { level, title, content: Seq::empty() }), ..self }
    }

    /// Records an error.
    pub open spec fn record(self, error: ParseErrorView) -> BlockState {
        BlockState { errors: self.errors.push(error), ..self }
    }
}

/// One step of the block scan: what the token at `pos` does to the state, and
/// the place where the scan goes on.
///
/// - A heading closes the open sections of its level or deeper; its heading
///   line then opens a section.
/// - An inline token starts a paragraph, which goes to the innermost open
///   section; the blank lines behind it are passed over.
/// - A blank line right behind a heading line closes that section.
/// - Any other line break or blank line starts no block: every open section
///   is closed, and the token is an error.
///
/// After an error the scan goes on at [`sync`] of the place where the error
/// was noticed, and what was read of the failed block is dropped.
pub open spec fn block_step(lexemes: Seq<LexemeView>, pos: int, state: BlockState) -> (BlockState, int)
    recommends
        0 <= pos < lexemes.len(),
{
    let token = lexemes[pos].token;
    if token.is_heading() {
        let closed = state.close_to(token.level());
        match heading_line(lexemes, pos) {
            Ok((title, next)) => (closed.open_section(token.level(), title), next),
            Err(failure) => (closed.record(failure.error), sync(lexemes, failure.at)),
        }
    } else if token.is_inline() {
        match paragraph(lexemes, pos) {
            Ok((block, next)) => (state.attach(block), skip_blank(lexemes, next)),
            Err(failure) => (state.record(failure.error), sync(lexemes, failure.at)),
        }
    } else if token == Token::BlankLine && state.open.len() > 0 {
        (state.close_top(), skip_blank(lexemes, pos))
    } else {
        (state.close_to(0).record(unexpected_token(lexemes[pos], "heading or text"@)), sync(lexemes, pos))
    }
}

/// The block scan: reads blocks from `pos` on to the end of the input, then
/// closes every section that is still open.
pub open spec fn scan_blocks(lexemes: Seq<LexemeView>, pos: int, state: BlockState) -> BlockState
    decreases lexemes.len() - pos,
    via scan_blocks_terminates
{
    if 0 <= pos < lexemes.len() {
        let (next_state, next) = block_step(lexemes, pos, state);
        scan_blocks(lexemes, next, next_state)
    } else {
        state.close_to(0)
    }
}

#[via_fn]
proof fn scan_blocks_terminates(lexemes: Seq<LexemeView>, pos: int, state: BlockState) {
    if 0 <= pos < lexemes.len() {
        lemma_block_step_advances(lexemes, pos, state);
    }
}

/// [`skip_blank`] moves forward, stays inside the input, and passes over a
/// blank line it starts at.
pub proof fn lemma_skip_blank_bounds(lexemes: Seq<LexemeView>, pos: int)
    requires
        0 <= pos <= lexemes.len(),
    ensures
        pos <= skip_blank(lexemes, pos) <= lexemes.len(),
        pos < lexemes.len() && lexemes[pos].token == Token::BlankLine ==> pos < skip_blank(lexemes, pos),
        skip_blank(lexemes, pos) < lexemes.len() ==> lexemes[skip_blank(lexemes, pos)].token != Token::BlankLine,
    decreases lexemes.len() - pos,
{
    if pos < lexemes.len() && lexemes[pos].token == Token::BlankLine {
        lemma_skip_blank_bounds(lexemes, pos + 1);
    }
}

/// [`words_end`] moves forward and stays inside the input; from `pos` up to
/// it stand words, and at it stands none.
pub proof fn lemma_words_end_bounds(lexemes: Seq<LexemeView>, pos: int)
    requires
        0 <= pos <= lexemes.len(),
    ensures
        pos <= words_end(lexemes, pos) <= lexemes.len(),
        forall|i: int| pos <= i < words_end(lexemes, pos) ==> (#[trigger] lexemes[i]).token == Token::Word,
        words_end(lexemes, pos) < lexemes.len() ==> lexemes[words_end(lexemes, pos)].token != Token::Word,
    decreases lexemes.len() - pos,
{
    if pos < lexemes.len() && lexemes[pos].token == Token::Word {
        lemma_words_end_bounds(lexemes, pos + 1);
    }
}

/// [`next_sync`] moves forward and stays inside the input.
pub proof fn lemma_next_sync_bounds(lexemes: Seq<LexemeView>, pos: int)
    requires
        0 <= pos <= lexemes.len(),
    ensures
        pos <= next_sync(lexemes, pos) <= lexemes.len(),
        pos < lexemes.len() && !(lexemes[pos].token == Token::BlankLine || lexemes[pos].token.is_heading())
            ==> pos < next_sync(lexemes, pos),
        next_sync(lexemes, pos) < lexemes.len() ==> {
            let token = lexemes[next_sync(lexemes, pos)].token;
            token == Token::BlankLine || token.is_heading()
        },
    decreases lexemes.len() - pos,
{
    if pos < lexemes.len() && !(lexemes[pos].token == Token::BlankLine || lexemes[pos].token.is_heading()) {
        lemma_next_sync_bounds(lexemes, pos + 1);
    }
}

/// [`sync`] moves forward and stays inside the input; it moves past a token
/// that is no heading.
pub proof fn lemma_sync_bounds(lexemes: Seq<LexemeView>, pos: int)
    requires
        0 <= pos <= lexemes.len(),
    ensures
        pos <= sync(lexemes, pos) <= lexemes.len(),
        pos < lexemes.len() && !lexemes[pos].token.is_heading() ==> pos < sync(lexemes, pos),
{
    lemma_next_sync_bounds(lexemes, pos);
    lemma_skip_blank_bounds(lexemes, next_sync(lexemes, pos));
}

/// The inline scan moves forward and stays inside the input, whether it ends
/// in nodes or in an error. It stops in front of a token that is not inline.
pub proof fn lemma_scan_inlines_bounds(lexemes: Seq<LexemeView>, pos: int, state: InlineState)
    requires
        0 <= pos <= lexemes.len(),
    ensures
        match scan_inlines(lexemes, pos, state) {
            Ok((_, next)) => pos <= next <= lexemes.len() && (next < lexemes.len()
                ==> !lexemes[next].token.is_inline()),
            Err(failure) => pos <= failure.at <= lexemes.len(),
        },
    decreases lexemes.len() - pos,
{
    if pos < lexemes.len() && lexemes[pos].token.is_inline() {
        match inline_step(lexemes, pos, state) {
            Ok(next) => lemma_scan_inlines_bounds(lexemes, pos + 1, next),
            Err(_) => {},
        }
    }
}

/// A paragraph takes at least its first token, and an error in it is noticed
/// behind that token.
pub proof fn lemma_paragraph_advances(lexemes: Seq<LexemeView>, pos: int)
    requires
        0 <= pos < lexemes.len(),
        lexemes[pos].token.is_inline(),
    ensures
        match paragraph(lexemes, pos) {
            Ok((_, next)) => pos < next <= lexemes.len(),
            Err(failure) => pos < failure.at <= lexemes.len(),
        },
{
    let first = inline_step(lexemes, pos, InlineState::empty());
    assert(first is Ok);
    lemma_scan_inlines_bounds(lexemes, pos + 1, first->Ok_0);
}

/// A heading line takes at least its marker, and an error in it is noticed
/// behind the marker.
pub proof fn lemma_heading_line_advances(lexemes: Seq<LexemeView>, pos: int)
    requires
        0 <= pos < lexemes.len(),
    ensures
        match heading_line(lexemes, pos) {
            Ok((_, next)) => pos + 2 < next <= lexemes.len() && lexemes[pos].token.is_heading(),
            Err(failure) => pos <= failure.at <= lexemes.len() && (lexemes[pos].token.is_heading() ==> pos
                < failure.at),
        },
{
    lemma_words_end_bounds(lexemes, pos + 1);
}

/// A span that can be parsed ends inside the input, behind at least three
/// tokens; the inline nodes that can be parsed end inside the input.
pub proof fn lemma_span_end_bounds(lexemes: Seq<LexemeView>, pos: int)
    requires
        0 <= pos <= lexemes.len(),
    ensures
        span_end(lexemes, pos) matches Some(end) ==> pos + 2 < end <= lexemes.len() && pos < lexemes.len()
            && delimiter_of(lexemes[pos].token) is Some,
        pos <= run_stop(lexemes, pos) <= lexemes.len(),
        run_stop(lexemes, run_stop(lexemes, pos)) == run_stop(lexemes, pos),
    decreases lexemes.len() - pos,
{
    if pos < lexemes.len() {
        lemma_span_end_bounds(lexemes, pos + 1);
        match span_end(lexemes, pos) {
            Some(end) => lemma_span_end_bounds(lexemes, end),
            None => {},
        }
    }
}

/// Every step of the block scan moves forward and stays inside the input.
pub proof fn lemma_block_step_advances(lexemes: Seq<LexemeView>, pos: int, state: BlockState)
    requires
        0 <= pos < lexemes.len(),
    ensures
        pos < block_step(lexemes, pos, state).1 <= lexemes.len(),
{
    let token = lexemes[pos].token;
    if token.is_heading() {
        lemma_heading_line_advances(lexemes, pos);
        match heading_line(lexemes, pos) {
            Ok(_) => {},
            Err(failure) => lemma_sync_bounds(lexemes, failure.at),
        }
    } else if token.is_inline() {
        lemma_paragraph_advances(lexemes, pos);
        match paragraph(lexemes, pos) {
            Ok((_, next)) => lemma_skip_blank_bounds(lexemes, next),
            Err(failure) => lemma_sync_bounds(lexemes, failure.at),
        }
    } else if token == Token::BlankLine && state.open.len() > 0 {
        lemma_skip_blank_bounds(lexemes, pos);
    } else {
        lemma_sync_bounds(lexemes, pos);
    }
}

/// What parsing `lexemes` gives: the blocks that could be read, and the errors
/// in the order they were met.
pub open spec fn parse_outcome(lexemes: Seq<LexemeView>) -> BlockState {
    scan_blocks(lexemes, 0, BlockState::empty())
}

/// The result of parsing `lexemes`: the document if no error was met, the
/// errors otherwise.
pub open spec fn parse_result(lexemes: Seq<LexemeView>) -> Result<DocumentView, Seq<ParseErrorView>> {
    let outcome = parse_outcome(lexemes);
    if outcome.errors.len() == 0 {
        Ok(DocumentView { blocks: outcome.blocks })
    } else {
        Err(outcome.errors)
    }
}

/// The title of a heading line is what the inline parser makes of the words
/// of the line.
pub proof fn lemma_title_is_inline_content(lexemes: Seq<LexemeView>, pos: int)
    requires
        0 <= pos < lexemes.len(),
    ensures
        heading_line(lexemes, pos) matches Ok((title, next)) ==> inline_result(lexemes.subrange(pos + 1, next - 1))
            == Ok::<Seq<InlineView>, ParseErrorView>(title),
{
    match heading_line(lexemes, pos) {
        Ok((title, next)) => {
            let first = pos + 1;
            let end = next - 1;
            lemma_words_end_bounds(lexemes, first);
            let words = lexemes.subrange(first, end);
            assert forall|i: int| 0 <= i < words.len() implies (#[trigger] words[i]).token == Token::Word by {
                assert(words[i] == lexemes[first + i]);
            }
            lemma_scan_words(words, 0, InlineState::empty());
            assert(InlineState::empty().items + title_nodes(words, 0, words.len() as int) =~= title) by {
                assert forall|i: int| 0 <= i < title.len() implies title_nodes(words, 0, words.len() as int)[i]
                    == title[i] by {
                    assert(words[i] == lexemes[first + i]);
                }
            }
        },
        Err(_) => {},
    }
}

/// Scanning words, and nothing but words, adds one text node for each.
proof fn lemma_scan_words(words: Seq<LexemeView>, pos: int, state: InlineState)
    requires
        0 <= pos <= words.len(),
        state.open.len() == 0,
        forall|i: int| 0 <= i < words.len() ==> (#[trigger] words[i]).token == Token::Word,
    ensures
        scan_inlines(words, pos, state) == Ok::<(Seq<InlineView>, int), Failure>(
            (state.items + title_nodes(words, pos, words.len() as int), words.len() as int),
        ),
    decreases words.len() - pos,
{
    if pos < words.len() {
        assert(words[pos].token == Token::Word);
        let next = state.push_node(InlineView::Text(words[pos].text));
        lemma_scan_words(words, pos + 1, next);
        assert(next.items + title_nodes(words, pos + 1, words.len() as int) =~= state.items + title_nodes(
            words,
            pos,
            words.len() as int,
        ));
    } else {
        assert(state.items + title_nodes(words, pos, words.len() as int) =~= state.items);
    }
}

} // verus!
