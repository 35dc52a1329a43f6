//! A span that stands directly inside a span of its own kind is the last node
//! of that span, in every tree that the inline scan gives.
//!
//! Where a span ends inside a span of its own kind, its closing delimiter
//! was read as one that starts no span. Had another node followed before the
//! outer span was closed, a span could have been parsed at that delimiter:
//! the nodes behind it and the closing delimiter of the outer span. So an
//! outer span that takes another node can no more be closed, and the scan
//! ends in an error.
//!
//! The proof follows the scan with a mark for every open span: the place of
//! its opening delimiter, the place up to which its nodes have been read, and
//! the place behind a span of its own kind that it holds, if it holds one.

use vstd::prelude::*;
use crate::ast::InlineView;
use crate::grammar::{
    closes, delimiter_of, inline_step, lemma_span_end_bounds, paragraph, run_stop, scan_inlines,
    span_end, Delimiter, InlineState, OpenSpan,
};
use crate::token::LexemeView;
use crate::wellformed::{inline_plain, inlines_plain};

verus! {

/// What the proof notes of an open span.
pub struct Mark {
    /// The place of the delimiter that opened the span.
    pub opener: int,
    /// The place up to which the nodes of the span have been read: the place
    /// of the scan for the innermost open span, the place where the next
    /// inner span was opened for every other.
    pub reach: int,
    /// The place behind the span of its own kind that the span holds, if it
    /// holds one.
    pub sealed: Option<int>,
}

/// Whether a span could be parsed at the delimiter in front of `pos` if that
/// delimiter is of kind `kind`: the inline nodes that can be parsed from `pos`
/// on are one or more, and the delimiter of that kind stands behind them.
pub open spec fn reopens(lexemes: Seq<LexemeView>, pos: int, kind: Delimiter) -> bool {
    pos < run_stop(lexemes, pos) < lexemes.len() && delimiter_of(lexemes[run_stop(lexemes, pos)].token) == Some(
        kind,
    )
}

/// Whether a mark says what is true of an open span.
pub open spec fn mark_holds(lexemes: Seq<LexemeView>, span: OpenSpan, mark: Mark) -> bool {
    &&& 0 <= mark.opener < mark.reach <= lexemes.len()
    &&& delimiter_of(lexemes[mark.opener].token) == Some(span.kind)
    &&& run_stop(lexemes, mark.opener + 1) == run_stop(lexemes, mark.reach)
    &&& (span.items.len() > 0 ==> mark.reach > mark.opener + 1)
    &&& match mark.sealed {
        None => inlines_plain(span.items, Some(span.kind), false),
        Some(seal) => {
            &&& mark.opener < seal <= mark.reach
            &&& run_stop(lexemes, mark.opener + 1) == run_stop(lexemes, seal)
            &&& !reopens(lexemes, seal, span.kind)
            &&& (seal == mark.reach ==> inlines_plain(span.items, Some(span.kind), true))
        },
    }
}

/// Whether the marks say what is true of a state at the place `pos`.
pub open spec fn marks_hold(lexemes: Seq<LexemeView>, pos: int, state: InlineState, marks: Seq<Mark>) -> bool {
    &&& marks.len() == state.open.len()
    &&& 0 <= pos <= lexemes.len()
    &&& inlines_plain(state.items, None, false)
    &&& forall|k: int| 0 <= k < marks.len() ==> mark_holds(lexemes, state.open[k], #[trigger] marks[k])
    &&& forall|j: int, k: int|
        0 <= j && j + 1 == k && k < marks.len() ==> (#[trigger] marks[j]).reach == (#[trigger] marks[k]).opener
    &&& marks.len() > 0 ==> marks.last().reach == pos
}

proof fn lemma_plain_push(items: Seq<InlineView>, node: InlineView, around: Option<Delimiter>, tail: bool)
    requires
        inlines_plain(items, around, false),
        inline_plain(node, around, tail),
    ensures
        inlines_plain(items.push(node), around, tail),
{
    assert(items.push(node).drop_last() =~= items);
}

proof fn lemma_plain_tail(items: Seq<InlineView>, around: Option<Delimiter>)
    requires
        inlines_plain(items, around, false),
    ensures
        inlines_plain(items, around, true),
{
    if items.len() > 0 {
        let last = items.last();
        assert(inlines_plain(items.drop_last(), around, false) && inline_plain(last, around, false));
        assert(inline_plain(last, around, true)) by {
            match last {
                InlineView::Text(_) => {},
                InlineView::Bold(inner) => {
                    assert(inlines_plain(inner, Some(Delimiter::Bold), true));
                },
                InlineView::Italic(inner) => {
                    assert(inlines_plain(inner, Some(Delimiter::Italic), true));
                },
            }
        }
    }
}

/// The marks of the state behind a word.
pub open spec fn marks_pushed(marks: Seq<Mark>, next: int) -> Seq<Mark> {
    if marks.len() == 0 {
        marks
    } else {
        marks.drop_last().push(Mark { reach: next, ..marks.last() })
    }
}

/// The marks of the state behind an opening delimiter at `pos`.
pub open spec fn marks_opened(marks: Seq<Mark>, pos: int) -> Seq<Mark> {
    marks.push(Mark { opener: pos, reach: pos + 1, sealed: None })
}

/// The marks of the state behind a closing delimiter at `pos`, which closes a
/// span of kind `kind`.
pub open spec fn marks_closed(state: InlineState, marks: Seq<Mark>, pos: int) -> Seq<Mark> {
    let rest = marks.drop_last();
    if rest.len() == 0 {
        rest
    } else {
        let outer = rest.last();
        let sealed = if outer.sealed is None && state.open[rest.len() - 1].kind == state.open.last().kind {
            Some(pos + 1)
        } else {
            outer.sealed
        };
        rest.drop_last().push(Mark { opener: outer.opener, reach: pos + 1, sealed })
    }
}

proof fn lemma_word_keeps_marks(lexemes: Seq<LexemeView>, pos: int, state: InlineState, marks: Seq<Mark>)
    requires
        marks_hold(lexemes, pos, state, marks),
        0 <= pos < lexemes.len(),
        delimiter_of(lexemes[pos].token) is None,
        lexemes[pos].token.is_inline(),
    ensures
        marks_hold(
            lexemes,
            pos + 1,
            state.push_node(InlineView::Text(lexemes[pos].text)),
            marks_pushed(marks, pos + 1),
        ),
{
    let node = InlineView::Text(lexemes[pos].text);
    let next = state.push_node(node);
    let moved = marks_pushed(marks, pos + 1);
    if marks.len() == 0 {
        lemma_plain_push(state.items, node, None, false);
    } else {
        let top = marks.len() - 1;
        let mark = marks[top];
        let span = state.open[top];
        assert(mark_holds(lexemes, span, mark));
        assert(run_stop(lexemes, pos) == run_stop(lexemes, pos + 1));
        assert(mark_holds(lexemes, next.open[top], moved[top])) by {
            if mark.sealed is None {
                lemma_plain_push(span.items, node, Some(span.kind), false);
            }
        }
        assert forall|k: int| 0 <= k < moved.len() implies mark_holds(lexemes, next.open[k], #[trigger] moved[k]) by {
            if k < top {
                assert(moved[k] == marks[k]);
                assert(next.open[k] == state.open[k]);
                assert(mark_holds(lexemes, state.open[k], marks[k]));
            }
        }
        assert forall|j: int, k: int| 0 <= j && j + 1 == k && k < moved.len() implies (#[trigger] moved[j]).reach == (
        #[trigger] moved[k]).opener by {
            assert(moved[j] == marks[j]);
            assert(moved[k].opener == marks[k].opener);
        }
    }
}

proof fn lemma_open_keeps_marks(
    lexemes: Seq<LexemeView>,
    pos: int,
    state: InlineState,
    marks: Seq<Mark>,
    kind: Delimiter,
)
    requires
        marks_hold(lexemes, pos, state, marks),
        0 <= pos < lexemes.len(),
        delimiter_of(lexemes[pos].token) == Some(kind),
    ensures
        marks_hold(lexemes, pos + 1, state.open_span(kind, lexemes[pos].start), marks_opened(marks, pos)),
{
    let next = state.open_span(kind, lexemes[pos].start);
    let more = marks_opened(marks, pos);
    let top = marks.len() as int;
    assert(next.open[top].items =~= Seq::<InlineView>::empty());
    assert(mark_holds(lexemes, next.open[top], more[top]));
    assert forall|k: int| 0 <= k < more.len() implies mark_holds(lexemes, next.open[k], #[trigger] more[k]) by {
        if k < top {
            assert(more[k] == marks[k]);
            assert(next.open[k] == state.open[k]);
            assert(mark_holds(lexemes, state.open[k], marks[k]));
        }
    }
    assert forall|j: int, k: int| 0 <= j && j + 1 == k && k < more.len() implies (#[trigger] more[j]).reach == (
    #[trigger] more[k]).opener by {
        assert(more[j] == marks[j]);
        if k < top {
            assert(more[k] == marks[k]);
        } else {
            assert(marks[j] == marks.last());
        }
    }
}

proof fn lemma_close_keeps_marks(
    lexemes: Seq<LexemeView>,
    pos: int,
    state: InlineState,
    marks: Seq<Mark>,
    kind: Delimiter,
)
    requires
        marks_hold(lexemes, pos, state, marks),
        0 <= pos < lexemes.len(),
        delimiter_of(lexemes[pos].token) == Some(kind),
        closes(lexemes, pos, state, kind),
        state.open.last().items.len() > 0,
    ensures
        marks_hold(lexemes, pos + 1, state.close_span(), marks_closed(state, marks, pos)),
{
    let top = marks.len() - 1;
    let mark = marks[top];
    let span = state.open[top];
    let node = kind.wrap(span.items);
    let next = state.close_span();
    let less = marks_closed(state, marks, pos);
    assert(state.open.last() == span);
    assert(mark_holds(lexemes, span, mark));
    lemma_span_end_bounds(lexemes, pos);
    lemma_span_end_bounds(lexemes, pos + 1);
    // the closing delimiter starts no span, so nothing can be parsed at it
    assert(span_end(lexemes, pos) is None);
    assert(run_stop(lexemes, pos) == pos);
    assert(run_stop(lexemes, mark.opener + 1) == pos);
    assert(lexemes[pos].token == lexemes[mark.opener].token) by {
        match kind {
            Delimiter::Bold => {},
            Delimiter::Italic => {},
        }
    }
    // so the span that is closed is the span that can be parsed at its opener
    assert(span_end(lexemes, mark.opener) == Some(pos + 1));
    assert(run_stop(lexemes, mark.opener) == run_stop(lexemes, pos + 1));
    // and it holds no span of its own kind but as its last node
    assert(inlines_plain(span.items, Some(kind), true)) by {
        match mark.sealed {
            None => lemma_plain_tail(span.items, Some(kind)),
            Some(seal) => {
                if seal < mark.reach {
                    assert(reopens(lexemes, seal, kind));
                }
            },
        }
    }
    assert(!reopens(lexemes, pos + 1, kind));
    let rest = InlineState { items: state.items, open: state.open.drop_last() };
    if top == 0 {
        assert(inline_plain(node, None, false)) by {
            match kind {
                Delimiter::Bold => {},
                Delimiter::Italic => {},
            }
        }
        lemma_plain_push(state.items, node, None, false);
        assert(next.open =~= Seq::<OpenSpan>::empty());
    } else {
        let outer = marks[top - 1];
        let around = state.open[top - 1];
        assert(mark_holds(lexemes, around, outer));
        assert(outer.reach == mark.opener);
        assert(rest.open.last() == around);
        let grown = OpenSpan { items: around.items.push(node), ..around };
        assert(next.open[top - 1] == grown);
        assert(less[top - 1] == Mark {
            opener: outer.opener,
            reach: pos + 1,
            sealed: if outer.sealed is None && around.kind == kind {
                Some(pos + 1)
            } else {
                outer.sealed
            },
        });
        assert(mark_holds(lexemes, grown, less[top - 1])) by {
            if outer.sealed is None {
                if around.kind == kind {
                    assert(inline_plain(node, Some(around.kind), true)) by {
                        match kind {
                            Delimiter::Bold => {},
                            Delimiter::Italic => {},
                        }
                    }
                    lemma_plain_push(around.items, node, Some(around.kind), true);
                } else {
                    assert(inline_plain(node, Some(around.kind), false)) by {
                        match kind {
                            Delimiter::Bold => {},
                            Delimiter::Italic => {},
                        }
                    }
                    lemma_plain_push(around.items, node, Some(around.kind), false);
                }
            }
        }
        assert forall|k: int| 0 <= k < less.len() implies mark_holds(lexemes, next.open[k], #[trigger] less[k]) by {
            if k < top - 1 {
                assert(less[k] == marks[k]);
                assert(next.open[k] == state.open[k]);
                assert(mark_holds(lexemes, state.open[k], marks[k]));
            }
        }
        assert forall|j: int, k: int| 0 <= j && j + 1 == k && k < less.len() implies (#[trigger] less[j]).reach == (
        #[trigger] less[k]).opener by {
            assert(less[j] == marks[j]);
            assert(less[k].opener == marks[k].opener);
        }
    }
}

/// The marks of the state behind the inline token at `pos`.
pub open spec fn marks_stepped(lexemes: Seq<LexemeView>, pos: int, state: InlineState, marks: Seq<Mark>) -> Seq<
    Mark,
> {
    match delimiter_of(lexemes[pos].token) {
        None => marks_pushed(marks, pos + 1),
        Some(kind) => if closes(lexemes, pos, state, kind) {
            marks_closed(state, marks, pos)
        } else {
            marks_opened(marks, pos)
        },
    }
}

/// A step of the inline scan keeps the marks true.
pub proof fn lemma_inline_step_marks(lexemes: Seq<LexemeView>, pos: int, state: InlineState, marks: Seq<Mark>)
    requires
        0 <= pos < lexemes.len(),
        lexemes[pos].token.is_inline(),
        marks_hold(lexemes, pos, state, marks),
    ensures
        inline_step(lexemes, pos, state) matches Ok(next) ==> marks_hold(
            lexemes,
            pos + 1,
            next,
            marks_stepped(lexemes, pos, state, marks),
        ),
{
    match delimiter_of(lexemes[pos].token) {
        None => lemma_word_keeps_marks(lexemes, pos, state, marks),
        Some(kind) => {
            if closes(lexemes, pos, state, kind) {
                if state.open.last().items.len() > 0 {
                    lemma_close_keeps_marks(lexemes, pos, state, marks, kind);
                }
            } else if inline_step(lexemes, pos, state) is Ok {
                lemma_open_keeps_marks(lexemes, pos, state, marks, kind);
            }
        },
    }
}

/// The nodes that the inline scan ends in hold a span of the kind of the
/// span around it only as the last node of that span.
pub proof fn lemma_scan_inlines_plain(lexemes: Seq<LexemeView>, pos: int, state: InlineState, marks: Seq<Mark>)
    requires
        marks_hold(lexemes, pos, state, marks),
    ensures
        scan_inlines(lexemes, pos, state) matches Ok((items, _)) ==> inlines_plain(items, None, true),
    decreases lexemes.len() - pos,
{
    if pos < lexemes.len() && lexemes[pos].token.is_inline() {
        lemma_inline_step_marks(lexemes, pos, state, marks);
        match inline_step(lexemes, pos, state) {
            Ok(next) => lemma_scan_inlines_plain(lexemes, pos + 1, next, marks_stepped(lexemes, pos, state, marks)),
            Err(_) => {},
        }
    } else if state.open.len() == 0 {
        lemma_plain_tail(state.items, None);
    }
}

/// The nodes of a paragraph hold a span of the kind of the span around it
/// only as the last node of that span.
pub proof fn lemma_paragraph_plain(lexemes: Seq<LexemeView>, pos: int)
    requires
        0 <= pos <= lexemes.len(),
    ensures
        scan_inlines(lexemes, pos, InlineState::empty()) matches Ok((items, _)) ==> inlines_plain(items, None, true),
{
    let start = InlineState::empty();
    assert(inlines_plain(start.items, None, false));
    lemma_scan_inlines_plain(lexemes, pos, start, Seq::<Mark>::empty());
}

} // verus!
