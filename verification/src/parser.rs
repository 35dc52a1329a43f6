//! The parser: lexemes in, document tree out.
//!
//! Two scans do the work, and neither recurses. The inline scan keeps the
//! spans that are open on a stack of its own; the block scan keeps the open
//! sections on another. Each step of a scan is one step of the scan of the
//! same name in [`crate::grammar`], and the contracts say so.
//!
//! Whether a delimiter starts a span is looked up in a table
//! ([`span_ends`]) that is filled once, from the last place to the first, so
//! that no stretch of the input is tried twice.

use vstd::prelude::*;
use crate::ast::{block_views, inline_views, Block, BlockView, Document, Inline, InlineView};
use crate::error_recovery::{error_views, ErrorRecovery, ParseError, ParseErrorView};
use crate::fidelity::{document_texts, lemma_parsed_document_texts, word_texts};
use crate::grammar::{
    block_step, heading_line, inline_result, lemma_block_step_advances, lemma_heading_line_advances,
    lemma_paragraph_advances, lemma_span_end_bounds, next_sync, paragraph, parse_outcome,
    parse_result, run_stop, scan_blocks, scan_inlines, skip_blank, span_end, sync, title_nodes,
    unexpected_end, unexpected_token, words_end, BlockState, Delimiter, InlineState, OpenSection,
    OpenSpan, MAX_INLINE_DEPTH,
};
use crate::invariants::{lemma_parse_outcome_sound, lemma_parsed_document_wf};
use crate::stretches::{document_read, lemma_parsed_document_read};
use crate::token::{lexeme_views, Lexeme, LexemeView, Token};
use crate::wellformed::{document_sound, document_wf, paragraph_content};

verus! {

fn is_inline(token: Token) -> (b: bool)
    ensures
        b == token.is_inline(),
{
    token == Token::Word || token == Token::BoldDelimiter || token == Token::ItalicDelimiter
}

fn unexpected(lexeme: &Lexeme, expected: &'static str) -> (error: ParseError)
    ensures
        error@ == unexpected_token(lexeme@, expected@),
{
    ParseError::UnexpectedToken {
        position: lexeme.start,
        expected: String::from_str(expected),
        got: String::from_str(lexeme.token.description()),
    }
}

fn ended(context: &'static str) -> (error: ParseError)
    ensures
        error@ == unexpected_end(context@),
{
    ParseError::UnexpectedEOF { context: String::from_str(context) }
}

proof fn lemma_inline_views_push(nodes: Seq<Inline>, node: Inline)
    ensures
        inline_views(nodes.push(node)) == inline_views(nodes).push(node@),
{
    assert(inline_views(nodes.push(node)) =~= inline_views(nodes).push(node@));
}

proof fn lemma_block_views_push(blocks: Seq<Block>, block: Block)
    ensures
        block_views(blocks.push(block)) == block_views(blocks).push(block@),
{
    assert(block_views(blocks.push(block)) =~= block_views(blocks).push(block@));
}

struct SpanFrame {
    kind: Delimiter,
    start: usize,
    items: Vec<Inline>,
}

impl SpanFrame {
    spec fn model(self) -> OpenSpan {
        OpenSpan { kind: self.kind, start: self.start as int, items: inline_views(self.items@) }
    }
}

spec fn span_models(frames: Seq<SpanFrame>) -> Seq<OpenSpan> {
    frames.map_values(|f: SpanFrame| f.model())
}

struct InlineScanner {
    items: Vec<Inline>,
    open: Vec<SpanFrame>,
}

impl InlineScanner {
    spec fn model(self) -> InlineState {
        InlineState { items: inline_views(self.items@), open: span_models(self.open@) }
    }

    fn new() -> (scanner: InlineScanner)
        ensures
            scanner.model() == InlineState::empty(),
    {
        let scanner = InlineScanner { items: Vec::new(), open: Vec::new() };
        assert(scanner.model().items =~= Seq::<InlineView>::empty());
        assert(scanner.model().open =~= Seq::<OpenSpan>::empty());
        scanner
    }

    fn push_node(&mut self, node: Inline)
        ensures
            final(self).model() == old(self).model().push_node(node@),
    {
        if self.open.len() == 0 {
            proof {
                lemma_inline_views_push(self.items@, node);
            }
            self.items.push(node);
        } else {
            let mut last = self.open.pop().unwrap();
            proof {
                lemma_inline_views_push(last.items@, node);
            }
            last.items.push(node);
            self.open.push(last);
            assert(self.model().open =~= old(self).model().push_node(node@).open);
        }
    }

    fn open_span(&mut self, kind: Delimiter, start: usize)
        ensures
            final(self).model() == old(self).model().open_span(kind, start as int),
    {
        let frame = SpanFrame { kind, start, items: Vec::new() };
        assert(frame.model().items =~= Seq::<InlineView>::empty());
        self.open.push(frame);
        assert(self.model().open =~= old(self).model().open_span(kind, start as int).open);
    }

    fn close_span(&mut self)
        requires
            old(self).open.len() > 0,
        ensures
            final(self).model() == old(self).model().close_span(),
    {
        let last = self.open.pop().unwrap();
        let ghost rest = self.model();
        assert(rest.open =~= old(self).model().open.drop_last());
        let node = last.kind.node(last.items);
        self.push_node(node);
    }
}

/// Whether `ends` holds, for every place from `from` on, the place behind the
/// span that can be parsed there, and 0 where none can be parsed.
pub open spec fn ends_hold(lexemes: Seq<LexemeView>, ends: Seq<usize>, from: int) -> bool {
    &&& ends.len() == lexemes.len()
    &&& forall|p: int|
        from <= p < lexemes.len() ==> match span_end(lexemes, p) {
            Some(end) => (#[trigger] ends[p]) == end,
            None => ends[p] == 0,
        }
}

/// Finds, for every place, whether a span can be parsed there: gives for each
/// place the place behind that span, and 0 where no span can be parsed.
///
/// The places are worked through from the last to the first, so that each
/// takes one step; no place is looked at twice.
pub fn span_ends(lexemes: &[Lexeme]) -> (ends: Vec<usize>)
    ensures
        ends_hold(lexeme_views(lexemes@), ends@, 0),
{
    let ghost views = lexeme_views(lexemes@);
    let n: usize = lexemes.len();
    let mut ends: Vec<usize> = Vec::new();
    let mut stops: Vec<usize> = Vec::new();
    let mut filled: usize = 0;
    while filled < n
        invariant
            filled <= n,
            ends.len() == filled,
            stops.len() == filled,
            forall|q: int| 0 <= q < filled ==> ends@[q] == 0,
        decreases n - filled,
    {
        ends.push(0);
        stops.push(0);
        filled = filled + 1;
    }
    stops.push(n);
    let mut place: usize = n;
    while place > 0
        invariant
            place <= n,
            n == lexemes.len(),
            views == lexeme_views(lexemes@),
            ends.len() == n,
            stops.len() == n + 1,
            forall|q: int| 0 <= q < place ==> ends@[q] == 0,
            forall|q: int|
                place <= q < n ==> match span_end(views, q) {
                    Some(end) => (#[trigger] ends@[q]) == end,
                    None => ends@[q] == 0,
                },
            forall|q: int| place <= q <= n ==> (#[trigger] stops@[q]) == run_stop(views, q),
        decreases place,
    {
        place = place - 1;
        let token = lexemes[place].token;
        let ghost here = place as int;
        let ghost old_ends = ends@;
        let ghost old_stops = stops@;
        proof {
            assert(views[here] == lexemes@[here]@);
            lemma_span_end_bounds(views, here);
            lemma_span_end_bounds(views, here + 1);
            assert(old_stops[here + 1] == run_stop(views, here + 1));
        }
        let behind: usize = stops[place + 1];
        if token == Token::Word {
            stops.set(place, behind);
        } else if Delimiter::of(token).is_some() {
            if behind > place + 1 && behind < n && lexemes[behind].token == token {
                proof {
                    assert(views[behind as int] == lexemes@[behind as int]@);
                    assert(old_stops[behind as int + 1] == run_stop(views, behind as int + 1));
                }
                let beyond: usize = stops[behind + 1];
                ends.set(place, behind + 1);
                stops.set(place, beyond);
            } else {
                proof {
                    if behind < n {
                        assert(views[behind as int] == lexemes@[behind as int]@);
                    }
                }
                stops.set(place, place);
            }
        } else {
            stops.set(place, place);
        }
        proof {
            assert forall|q: int| here <= q < n implies match span_end(views, q) {
                Some(end) => (#[trigger] ends@[q]) == end,
                None => ends@[q] == 0,
            } by {
                if q > here {
                    assert(ends@[q] == old_ends[q]);
                }
            }
            assert forall|q: int| here <= q <= n implies (#[trigger] stops@[q]) == run_stop(views, q) by {
                if q > here {
                    assert(stops@[q] == old_stops[q]);
                }
            }
        }
    }
    ends
}

fn scan_with(lexemes: &[Lexeme], ends: &Vec<usize>, pos: usize) -> (result: Result<
    (Vec<Inline>, usize),
    (ParseError, usize),
>)
    requires
        pos <= lexemes.len(),
        ends_hold(lexeme_views(lexemes@), ends@, 0),
    ensures
        match scan_inlines(lexeme_views(lexemes@), pos as int, InlineState::empty()) {
            Ok((nodes, next)) => result matches Ok((items, place)) && inline_views(items@) == nodes && place == next,
            Err(failure) => result matches Err((error, place)) && error@ == failure.error && place == failure.at,
        },
{
    let ghost views = lexeme_views(lexemes@);
    let mut scanner = InlineScanner::new();
    let mut place: usize = pos;
    loop
        invariant
            views == lexeme_views(lexemes@),
            ends_hold(views, ends@, 0),
            pos <= place <= lexemes.len(),
            scanner.open.len() <= MAX_INLINE_DEPTH,
            scan_inlines(views, pos as int, InlineState::empty()) == scan_inlines(views, place as int, scanner.model()),
        decreases lexemes.len() - place,
    {
        if place < lexemes.len() && is_inline(lexemes[place].token) {
            let lexeme = &lexemes[place];
            assert(views[place as int] == lexeme@);
            match Delimiter::of(lexeme.token) {
                None => {
                    scanner.push_node(Inline::Text(lexeme.text.clone()));
                },
                Some(kind) => {
                    let depth: usize = scanner.open.len();
                    if depth > 0 && scanner.open[depth - 1].kind == kind && ends[place] == 0 {
                        if scanner.open[depth - 1].items.len() == 0 {
                            return Err((unexpected(lexeme, "text"), place));
                        }
                        scanner.close_span();
                    } else if depth >= MAX_INLINE_DEPTH {
                        return Err(
                            (
                                ParseError::InvalidStructure {
                                    message: String::from_str("inline formatting is nested too deeply"),
                                },
                                place,
                            ),
                        );
                    } else {
                        scanner.open_span(kind, lexeme.start);
                    }
                },
            }
            place = place + 1;
        } else if scanner.open.len() == 0 {
            return Ok((scanner.items, place));
        } else {
            let last = &scanner.open[scanner.open.len() - 1];
            return Err(
                (
                    ParseError::UnclosedDelimiter { delimiter: String::from_str(last.kind.name()), start: last.start },
                    place,
                ),
            );
        }
    }
}


/// Parses the inline tokens that start at `pos`: the nodes up to the first
/// token that is not inline, or to the end of the input.
///
/// A delimiter starts a span wherever a span can be parsed at its place, and
/// closes the innermost open span of its kind where it starts none.
///
/// On success gives the nodes and the place behind them. On failure gives the
/// error and the place where it was noticed: a span that is closed with
/// nothing in it, a span nested deeper than
/// [`MAX_INLINE_DEPTH`](crate::grammar::MAX_INLINE_DEPTH), or a span that is
/// still open where the inline tokens end.
pub fn parse_inlines(lexemes: &[Lexeme], pos: usize) -> (result: Result<(Vec<Inline>, usize), (ParseError, usize)>)
    requires
        pos <= lexemes.len(),
    ensures
        match scan_inlines(lexeme_views(lexemes@), pos as int, InlineState::empty()) {
            Ok((nodes, next)) => result matches Ok((items, place)) && inline_views(items@) == nodes && place == next,
            Err(failure) => result matches Err((error, place)) && error@ == failure.error && place == failure.at,
        },
{
    let ends = span_ends(lexemes);
    scan_with(lexemes, &ends, pos)
}

/// Parses a stretch of lexemes as inline content: text, bold spans and italic
/// spans, to any depth up to [`MAX_INLINE_DEPTH`](crate::grammar::MAX_INLINE_DEPTH).
///
/// Gives the nodes if every lexeme of the stretch takes part in them. Gives
/// the error of [`parse_inlines`] otherwise, or, where a token stands in the
/// stretch that is neither a word nor a delimiter, that token as unexpected.
pub fn parse_inline_content(lexemes: &[Lexeme]) -> (result: Result<Vec<Inline>, ParseError>)
    ensures
        match inline_result(lexeme_views(lexemes@)) {
            Ok(nodes) => result matches Ok(items) && inline_views(items@) == nodes,
            Err(view) => result matches Err(error) && error@ == view,
        },
{
    match parse_inlines(lexemes, 0) {
        Ok((items, next)) => {
            proof {
                crate::grammar::lemma_scan_inlines_bounds(lexeme_views(lexemes@), 0, InlineState::empty());
            }
            if next >= lexemes.len() {
                Ok(items)
            } else {
                Err(unexpected(&lexemes[next], "text or delimiter"))
            }
        },
        Err((error, _)) => Err(error),
    }
}

fn paragraph_with(lexemes: &[Lexeme], ends: &Vec<usize>, pos: usize) -> (result: Result<
    (Block, usize),
    (ParseError, usize),
>)
    requires
        pos <= lexemes.len(),
        ends_hold(lexeme_views(lexemes@), ends@, 0),
    ensures
        match paragraph(lexeme_views(lexemes@), pos as int) {
            Ok((block, next)) => result matches Ok((found, place)) && found@ == block && place == next,
            Err(failure) => result matches Err((error, place)) && error@ == failure.error && place == failure.at,
        },
{
    if pos >= lexemes.len() {
        return Err((ended("text"), pos));
    }
    assert(lexeme_views(lexemes@)[pos as int] == lexemes@[pos as int]@);
    if !is_inline(lexemes[pos].token) {
        return Err((unexpected(&lexemes[pos], "text"), pos));
    }
    match scan_with(lexemes, ends, pos) {
        Ok((content, next)) => {
            proof {
                crate::grammar::lemma_scan_inlines_bounds(lexeme_views(lexemes@), pos as int, InlineState::empty());
            }
            let place: usize = if next < lexemes.len() && lexemes[next].token == Token::Newline {
                next + 1
            } else {
                next
            };
            Ok((Block::Paragraph { content }, place))
        },
        Err(failure) => Err(failure),
    }
}

/// Parses a paragraph that starts at `pos`: one or more inline nodes, and one
/// line break behind them if there is one.
///
/// On success gives the paragraph, which holds at least one node, and the
/// place behind it. Where no inline token stands at `pos` no paragraph starts:
/// the result is an error noticed at `pos`, the end of the input or the token
/// that stands there. Otherwise a failure gives the error of
/// [`parse_inlines`] and the place where it was noticed.
pub fn parse_paragraph(lexemes: &[Lexeme], pos: usize) -> (result: Result<(Block, usize), (ParseError, usize)>)
    requires
        pos <= lexemes.len(),
    ensures
        match paragraph(lexeme_views(lexemes@), pos as int) {
            Ok((block, next)) => result matches Ok((found, place)) && found@ == block && place == next,
            Err(failure) => result matches Err((error, place)) && error@ == failure.error && place == failure.at,
        },
        result matches Ok((found, place)) ==> found@ is Paragraph && paragraph_content(found@).len() > 0 && pos
            < place,
        result matches Err((_, place)) ==> (place == pos <==> !(pos < lexemes.len() && lexeme_views(
            lexemes@,
        )[pos as int].token.is_inline())),
{
    proof {
        if pos < lexemes.len() && lexeme_views(lexemes@)[pos as int].token.is_inline() {
            lemma_paragraph_advances(lexeme_views(lexemes@), pos as int);
            crate::invariants::lemma_paragraph_wf(lexeme_views(lexemes@), pos as int, 0);
        }
    }
    let ends = span_ends(lexemes);
    paragraph_with(lexemes, &ends, pos)
}

/// Parses the heading line whose marker stands at `pos`: the marker, one or
/// more words, then a line break or a blank line. Where no heading marker
/// stands at `pos` the result is an error noticed at `pos`.
///
/// On success gives the title, one text node for each word, and the place
/// behind the line. On failure gives the error and the place where it was
/// noticed: the token that stands where a word or the end of the line should,
/// or the end of the input.
pub fn parse_heading_line(lexemes: &[Lexeme], pos: usize) -> (result: Result<(Vec<Inline>, usize), (ParseError, usize)>)
    requires
        pos < lexemes.len(),
    ensures
        match heading_line(lexeme_views(lexemes@), pos as int) {
            Ok((nodes, next)) => result matches Ok((title, place)) && inline_views(title@) == nodes && place == next,
            Err(failure) => result matches Err((error, place)) && error@ == failure.error && place == failure.at,
        },
{
    let ghost views = lexeme_views(lexemes@);
    assert(views[pos as int] == lexemes@[pos as int]@);
    if lexemes[pos].token.heading_level().is_none() {
        return Err((unexpected(&lexemes[pos], "heading"), pos));
    }
    let first: usize = pos + 1;
    let mut title: Vec<Inline> = Vec::new();
    let mut end: usize = first;
    assert(inline_views(title@) =~= title_nodes(views, first as int, end as int));
    while end < lexemes.len() && lexemes[end].token == Token::Word
        invariant
            views == lexeme_views(lexemes@),
            first <= end <= lexemes.len(),
            words_end(views, first as int) == words_end(views, end as int),
            inline_views(title@) == title_nodes(views, first as int, end as int),
        decreases lexemes.len() - end,
    {
        let node = Inline::Text(lexemes[end].text.clone());
        proof {
            lemma_inline_views_push(title@, node);
            assert(title_nodes(views, first as int, end as int).push(node@) =~= title_nodes(
                views,
                first as int,
                end as int + 1,
            ));
        }
        title.push(node);
        end = end + 1;
    }
    if end == first {
        if first >= lexemes.len() {
            Err((ended("section title"), first))
        } else {
            Err((unexpected(&lexemes[first], "word"), first))
        }
    } else if end >= lexemes.len() {
        Err((ended("end of heading line"), end))
    } else if lexemes[end].token == Token::Newline || lexemes[end].token == Token::BlankLine {
        Ok((title, end + 1))
    } else {
        Err((unexpected(&lexemes[end], "newline or blank line"), end))
    }
}

/// Returns the place of the first token from `pos` on that is no blank line.
pub fn skip_blank_lines(lexemes: &[Lexeme], pos: usize) -> (place: usize)
    requires
        pos <= lexemes.len(),
    ensures
        place == skip_blank(lexeme_views(lexemes@), pos as int),
        pos <= place <= lexemes.len(),
{
    let ghost views = lexeme_views(lexemes@);
    let mut place: usize = pos;
    while place < lexemes.len() && lexemes[place].token == Token::BlankLine
        invariant
            views == lexeme_views(lexemes@),
            pos <= place <= lexemes.len(),
            skip_blank(views, pos as int) == skip_blank(views, place as int),
        decreases lexemes.len() - place,
    {
        place = place + 1;
    }
    place
}

/// Returns the place where the block scan goes on after an error noticed at
/// `pos`: the next heading, or the place behind the next run of blank lines;
/// the end of the input if there is neither.
pub fn synchronize(lexemes: &[Lexeme], pos: usize) -> (place: usize)
    requires
        pos <= lexemes.len(),
    ensures
        place == sync(lexeme_views(lexemes@), pos as int),
        pos <= place <= lexemes.len(),
{
    let ghost views = lexeme_views(lexemes@);
    let mut place: usize = pos;
    while place < lexemes.len() && !(lexemes[place].token == Token::BlankLine
        || lexemes[place].token.heading_level().is_some())
        invariant
            views == lexeme_views(lexemes@),
            pos <= place <= lexemes.len(),
            next_sync(views, pos as int) == next_sync(views, place as int),
        decreases lexemes.len() - place,
    {
        place = place + 1;
    }
    skip_blank_lines(lexemes, place)
}

struct SectionFrame {
    level: u8,
    title: Vec<Inline>,
    content: Vec<Block>,
}

impl SectionFrame {
    spec fn model(self) -> OpenSection {
        OpenSection { level: self.level as nat, title: inline_views(self.title@), content: block_views(self.content@) }
    }
}

spec fn section_models(frames: Seq<SectionFrame>) -> Seq<OpenSection> {
    frames.map_values(|f: SectionFrame| f.model())
}

struct BlockScanner {
    blocks: Vec<Block>,
    open: Vec<SectionFrame>,
}

impl BlockScanner {
    spec fn model(self, errors: Seq<ParseErrorView>) -> BlockState {
        BlockState { blocks: block_views(self.blocks@), open: section_models(self.open@), errors }
    }

    fn new(Ghost(errors): Ghost<Seq<ParseErrorView>>) -> (scanner: BlockScanner)
        ensures
            scanner.model(errors) == (BlockState { errors, ..BlockState::empty() }),
    {
        let scanner = BlockScanner { blocks: Vec::new(), open: Vec::new() };
        assert(block_views(scanner.blocks@) =~= Seq::<BlockView>::empty());
        assert(section_models(scanner.open@) =~= Seq::<OpenSection>::empty());
        scanner
    }

    fn attach(&mut self, block: Block, Ghost(errors): Ghost<Seq<ParseErrorView>>)
        ensures
            final(self).model(errors) == old(self).model(errors).attach(block@),
            final(self).open.len() == old(self).open.len(),
    {
        if self.open.len() == 0 {
            proof {
                lemma_block_views_push(self.blocks@, block);
            }
            self.blocks.push(block);
        } else {
            let mut last = self.open.pop().unwrap();
            proof {
                lemma_block_views_push(last.content@, block);
            }
            last.content.push(block);
            self.open.push(last);
            assert(section_models(self.open@) =~= old(self).model(errors).attach(block@).open);
        }
    }

    fn close_top(&mut self, Ghost(errors): Ghost<Seq<ParseErrorView>>)
        requires
            old(self).open.len() > 0,
        ensures
            final(self).model(errors) == old(self).model(errors).close_top(),
            final(self).open.len() == old(self).open.len() - 1,
    {
        let last = self.open.pop().unwrap();
        assert(section_models(self.open@) =~= section_models(old(self).open@).drop_last());
        let block = Block::Section { level: last.level, title: last.title, content: last.content };
        assert(block@ == last.model().block());
        self.attach(block, Ghost(errors));
    }

    fn close_to(&mut self, level: u8, Ghost(errors): Ghost<Seq<ParseErrorView>>)
        ensures
            final(self).model(errors) == old(self).model(errors).close_to(level as nat),
    {
        while self.open.len() > 0 && self.open[self.open.len() - 1].level >= level
            invariant
                self.model(errors).close_to(level as nat) == old(self).model(errors).close_to(level as nat),
            decreases self.open.len(),
        {
            self.close_top(Ghost(errors));
        }
    }

    fn open_section(&mut self, level: u8, title: Vec<Inline>, Ghost(errors): Ghost<Seq<ParseErrorView>>)
        ensures
            final(self).model(errors) == old(self).model(errors).open_section(level as nat, inline_views(title@)),
    {
        let frame = SectionFrame { level, title, content: Vec::new() };
        assert(block_views(frame.content@) =~= Seq::<BlockView>::empty());
        self.open.push(frame);
        assert(section_models(self.open@) =~= old(self).model(errors).open_section(
            level as nat,
            inline_views(title@),
        ).open);
    }
}

/// Parses `lexemes` and recovers from errors: gives the document made of the
/// blocks that could be read, and records every error in `recovery`, behind
/// those it holds already and in the order they were met.
///
/// The blocks and the errors are those of
/// [`parse_outcome`](crate::grammar::parse_outcome). After an error the parser
/// goes on at the next heading or behind the next run of blank lines. The
/// document is sound even where errors were met: its sections have levels
/// from 1 to 6 that grow with the nesting, and no title, paragraph or span is
/// empty.
pub fn parse_with_recovery(lexemes: &[Lexeme], recovery: &mut ErrorRecovery) -> (doc: Document)
    ensures
        doc@.blocks == parse_outcome(lexeme_views(lexemes@)).blocks,
        final(recovery)@ == old(recovery)@ + parse_outcome(lexeme_views(lexemes@)).errors,
        document_sound(doc@),
{
    proof {
        lemma_parse_outcome_sound(lexeme_views(lexemes@));
    }
    let ghost views = lexeme_views(lexemes@);
    let ghost before = recovery@;
    let mut scanner = BlockScanner::new(Ghost(before));
    let ends = span_ends(lexemes);
    let mut place: usize = 0;
    while place < lexemes.len()
        invariant
            views == lexeme_views(lexemes@),
            ends_hold(views, ends@, 0),
            place <= lexemes.len(),
            scan_blocks(views, 0, BlockState { errors: before, ..BlockState::empty() }) == scan_blocks(
                views,
                place as int,
                scanner.model(recovery@),
            ),
        decreases lexemes.len() - place,
    {
        let lexeme = &lexemes[place];
        assert(views[place as int] == lexeme@);
        let ghost here = place as int;
        let ghost state = scanner.model(recovery@);
        let ghost errors = recovery@;
        proof {
            lemma_block_step_advances(views, here, state);
        }
        match lexeme.token.heading_level() {
            Some(level) => {
                scanner.close_to(level, Ghost(errors));
                match parse_heading_line(lexemes, place) {
                    Ok((title, next)) => {
                        scanner.open_section(level, title, Ghost(errors));
                        place = next;
                    },
                    Err((error, at)) => {
                        proof {
                            lemma_heading_line_advances(views, here);
                        }
                        recovery.record_error(error);
                        place = synchronize(lexemes, at);
                    },
                }
            },
            None => {
                if is_inline(lexeme.token) {
                    proof {
                        lemma_paragraph_advances(views, here);
                    }
                    match paragraph_with(lexemes, &ends, place) {
                        Ok((block, next)) => {
                            scanner.attach(block, Ghost(errors));
                            place = skip_blank_lines(lexemes, next);
                        },
                        Err((error, at)) => {
                            recovery.record_error(error);
                            place = synchronize(lexemes, at);
                        },
                    }
                } else if lexeme.token == Token::BlankLine && scanner.open.len() > 0 {
                    scanner.close_top(Ghost(errors));
                    place = skip_blank_lines(lexemes, place);
                } else {
                    scanner.close_to(0, Ghost(errors));
                    recovery.record_error(unexpected(lexeme, "heading or text"));
                    place = synchronize(lexemes, place);
                }
            },
        }
        assert(scanner.model(recovery@) == block_step(views, here, state).0);
        assert(place == block_step(views, here, state).1);
    }
    scanner.close_to(0, Ghost(recovery@));
    proof {
        lemma_scan_blocks_errors(views, 0, BlockState::empty(), before);
        assert(before + BlockState::empty().errors =~= before);
    }
    Document::with_blocks(scanner.blocks)
}

/// The errors that a scan starts with stay in front of those it meets, and
/// have no part in what it reads.
pub proof fn lemma_scan_blocks_errors(
    lexemes: Seq<LexemeView>,
    pos: int,
    state: BlockState,
    before: Seq<ParseErrorView>,
)
    ensures
        scan_blocks(lexemes, pos, BlockState { errors: before + state.errors, ..state }).blocks == scan_blocks(
            lexemes,
            pos,
            state,
        ).blocks,
        scan_blocks(lexemes, pos, BlockState { errors: before + state.errors, ..state }).errors == before
            + scan_blocks(lexemes, pos, state).errors,
    decreases lexemes.len() - pos,
{
    let shifted = BlockState { errors: before + state.errors, ..state };
    if 0 <= pos < lexemes.len() {
        lemma_block_step_advances(lexemes, pos, state);
        lemma_block_step_errors(lexemes, pos, state, before);
        let (next_state, next) = block_step(lexemes, pos, state);
        lemma_scan_blocks_errors(lexemes, next, next_state, before);
    } else {
        lemma_close_to_errors(state, 0, before);
    }
}

proof fn lemma_close_to_errors(state: BlockState, level: nat, before: Seq<ParseErrorView>)
    ensures
        (BlockState { errors: before + state.errors, ..state }).close_to(level) == (BlockState {
            errors: before + state.close_to(level).errors,
            ..state.close_to(level)
        }),
        state.close_to(level).errors == state.errors,
    decreases state.open.len(),
{
    if state.open.len() > 0 && state.open.last().level >= level {
        lemma_close_to_errors(state.close_top(), level, before);
    }
}

proof fn lemma_block_step_errors(
    lexemes: Seq<LexemeView>,
    pos: int,
    state: BlockState,
    before: Seq<ParseErrorView>,
)
    requires
        0 <= pos < lexemes.len(),
    ensures
        block_step(lexemes, pos, BlockState { errors: before + state.errors, ..state }).1 == block_step(
            lexemes,
            pos,
            state,
        ).1,
        block_step(lexemes, pos, BlockState { errors: before + state.errors, ..state }).0 == (BlockState {
            errors: before + block_step(lexemes, pos, state).0.errors,
            ..block_step(lexemes, pos, state).0
        }),
{
    let token = lexemes[pos].token;
    lemma_close_to_errors(state, token.level(), before);
    lemma_close_to_errors(state, 0, before);
    let stepped = block_step(lexemes, pos, state).0;
    let shifted = block_step(lexemes, pos, BlockState { errors: before + state.errors, ..state }).0;
    assert(shifted.errors =~= before + stepped.errors);
}

/// Parses `lexemes` into a document.
///
/// Gives the document if the lexemes hold no error, and otherwise every error
/// in the order they were met; which of the two, and what they hold, is
/// [`parse_result`](crate::grammar::parse_result) of the lexemes. An empty
/// input gives a document without blocks.
///
/// A document that is given is well-formed, and its text nodes hold the texts
/// of the words among the lexemes: all of them, each once, in their order.
/// Every paragraph of it is the paragraph that is read at its place, every
/// title the title of its heading line, and the text nodes of each hold the
/// texts of the words of its own stretch of the lexemes.
pub fn document(lexemes: &[Lexeme]) -> (result: Result<Document, Vec<ParseError>>)
    ensures
        match parse_result(lexeme_views(lexemes@)) {
            Ok(view) => result matches Ok(doc) && doc@ == view,
            Err(views) => result matches Err(errors) && error_views(errors@) == views && errors.len() > 0,
        },
        lexemes.len() == 0 ==> (result matches Ok(doc) && doc@.blocks.len() == 0),
        result matches Ok(doc) ==> document_wf(doc@) && document_texts(doc@) == word_texts(
            lexeme_views(lexemes@),
            0,
            lexemes.len() as int,
        ) && document_read(lexeme_views(lexemes@), doc@),
{
    let mut recovery = ErrorRecovery::new();
    let doc = parse_with_recovery(lexemes, &mut recovery);
    assert(recovery@ =~= parse_outcome(lexeme_views(lexemes@)).errors);
    proof {
        lemma_parsed_document_wf(lexeme_views(lexemes@));
        lemma_parsed_document_texts(lexeme_views(lexemes@));
        lemma_parsed_document_read(lexeme_views(lexemes@));
    }
    if recovery.has_errors() {
        Err(recovery.into_errors())
    } else {
        Ok(doc)
    }
}

} // verus!
