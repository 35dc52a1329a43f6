//! The canonical text of a document, and the proof that tokenizing and parsing
//! it gives the document back.
//!
//! The canonical text spells the canonical rendering: the text of each
//! lexeme, and one space behind it.

use vstd::prelude::*;
use crate::ast::{Document, DocumentView};
use crate::error_recovery::ParseErrorView;
use crate::fidelity::{document_texts, lemma_parsed_document_texts, word_texts};
use crate::grammar::parse_result;
use crate::invariants::lemma_parsed_document_wf;
use crate::lexer::{
    heading_token, is_word_char, lemma_lex_step_advances, lemma_run_end, lemma_run_reaches, lex,
    lex_from, lex_step, lexeme_at, nearer, run_end, CharClass,
};
use crate::places::{all_unplaced, lemma_parse_ignores_places, unplaced};
use crate::render::{
    render, render_block, render_blocks, render_document, render_heading, render_inline,
    render_inlines, render_token,
};
use crate::roundtrip::lemma_parse_rendered_document;
use crate::token::{lexeme_views, Lexeme, LexemeView, Token};
use crate::wellformed::document_wf;

verus! {

/// The text that spells the lexemes: the text of each, and one space behind it.
pub open spec fn spell(lexemes: Seq<LexemeView>) -> Seq<char>
    decreases lexemes.len(),
{
    if lexemes.len() == 0 {
        Seq::empty()
    } else {
        lexemes.first().text + seq![' '] + spell(lexemes.drop_first())
    }
}

/// The canonical text of a document.
pub open spec fn canonical_text(doc: DocumentView) -> Seq<char> {
    spell(render_document(doc))
}

/// Whether `text` can be the text of a word: one or more characters, none of
/// them whitespace or one of `*`, `_`, `=`.
pub open spec fn is_word(text: Seq<char>) -> bool {
    text.len() > 0 && forall|i: int| 0 <= i < text.len() ==> is_word_char(#[trigger] text[i])
}

/// Whether every character of `text` is `c`.
pub open spec fn all_are(text: Seq<char>, c: char) -> bool {
    forall|i: int| 0 <= i < text.len() ==> #[trigger] text[i] == c
}

/// Whether the text of a lexeme is one that the tokenizer reads as its tag.
pub open spec fn spelled_right(lexeme: LexemeView) -> bool {
    match lexeme.token {
        Token::Word => is_word(lexeme.text),
        Token::BlankLine => lexeme.text.len() >= 2 && all_are(lexeme.text, '\n'),
        Token::Newline => lexeme.text.len() == 1 && all_are(lexeme.text, '\n'),
        Token::BoldDelimiter => lexeme.text.len() == 2 && all_are(lexeme.text, '*'),
        Token::ItalicDelimiter => lexeme.text.len() == 1 && all_are(lexeme.text, '_'),
        _ => lexeme.text.len() == lexeme.token.level() && all_are(lexeme.text, '='),
    }
}

/// Whether the text of every lexeme is one that the tokenizer reads as its tag.
pub open spec fn all_spelled_right(lexemes: Seq<LexemeView>) -> bool {
    forall|i: int| 0 <= i < lexemes.len() ==> spelled_right(#[trigger] lexemes[i])
}

/// Whether every text node of a document holds a text that can be that of a word.
pub open spec fn document_spelled(doc: DocumentView) -> bool {
    forall|i: int| 0 <= i < document_texts(doc).len() ==> is_word(#[trigger] document_texts(doc)[i])
}

/// The tokenizer reads a rightly spelled text, with a space behind it, as the
/// lexeme it spells.
pub proof fn lemma_lex_step_spelled(chars: Seq<char>, pos: int, lexeme: LexemeView)
    requires
        0 <= pos,
        pos + lexeme.text.len() < chars.len(),
        chars.subrange(pos, pos + lexeme.text.len()) == lexeme.text,
        chars[pos + lexeme.text.len()] == ' ',
        spelled_right(lexeme),
    ensures
        lex_step(chars, pos) == (
            Some(lexeme_at(chars, lexeme.token, pos, pos + lexeme.text.len())),
            pos + lexeme.text.len(),
        ),
        lexeme.text.len() > 0,
{
    let text = lexeme.text;
    let end = pos + text.len();
    assert forall|i: int| pos <= i < end implies #[trigger] chars[i] == text[i - pos] by {
        assert(chars.subrange(pos, end)[i - pos] == chars[i]);
    }
    match lexeme.token {
        Token::Word => {
            assert(is_word_char(text[0]));
            assert(chars[pos] == text[0]);
            assert forall|i: int| pos <= i < end implies CharClass::Word.holds(#[trigger] chars[i]) by {
                assert(is_word_char(text[i - pos]));
            }
            lemma_run_reaches(chars, pos, end, CharClass::Word);
            assert(!CharClass::Word.holds(chars[end]));
            assert(run_end(chars, end, CharClass::Word) == end);
        },
        Token::BlankLine => {
            assert(chars[pos] == text[0]);
            assert forall|i: int| pos <= i < end implies CharClass::LineBreak.holds(#[trigger] chars[i]) by {
                assert(text[i - pos] == '\n');
            }
            lemma_run_reaches(chars, pos, end, CharClass::LineBreak);
            assert(run_end(chars, end, CharClass::LineBreak) == end);
        },
        Token::Newline => {
            assert(chars[pos] == text[0]);
            assert forall|i: int| pos <= i < end implies CharClass::LineBreak.holds(#[trigger] chars[i]) by {
                assert(text[i - pos] == '\n');
            }
            lemma_run_reaches(chars, pos, end, CharClass::LineBreak);
            assert(run_end(chars, end, CharClass::LineBreak) == end);
        },
        Token::BoldDelimiter => {
            assert(chars[pos] == text[0]);
            assert(chars[pos + 1] == text[1]);
        },
        Token::ItalicDelimiter => {
            assert(chars[pos] == text[0]);
        },
        _ => {
            assert(1 <= lexeme.token.level() <= 6);
            assert(chars[pos] == text[0]);
            assert forall|i: int| pos <= i < end implies CharClass::Equals.holds(#[trigger] chars[i]) by {
                assert(text[i - pos] == '=');
            }
            lemma_run_reaches(chars, pos, end, CharClass::Equals);
            assert(run_end(chars, end, CharClass::Equals) == end);
            assert(nearer(end, pos + 6) == end);
            assert(heading_token(end - pos) == lexeme.token);
        },
    }
}

proof fn lemma_all_unplaced_cons(first: LexemeView, rest: Seq<LexemeView>)
    ensures
        all_unplaced(seq![first] + rest) == seq![unplaced(first)] + all_unplaced(rest),
{
    assert(all_unplaced(seq![first] + rest) =~= seq![unplaced(first)] + all_unplaced(rest));
}

/// The tokenizer reads the spelling of rightly spelled lexemes as lexemes
/// with the same tags and texts, whatever stands in front of the spelling.
pub proof fn lemma_lex_spelling(pre: Seq<char>, lexemes: Seq<LexemeView>)
    requires
        all_spelled_right(lexemes),
    ensures
        all_unplaced(lex_from(pre + spell(lexemes), pre.len() as int)) == all_unplaced(lexemes),
    decreases lexemes.len(),
{
    let chars = pre + spell(lexemes);
    let pos = pre.len() as int;
    if lexemes.len() == 0 {
        assert(chars =~= pre);
        assert(all_unplaced(lex_from(chars, pos)) =~= all_unplaced(lexemes));
    } else {
        let first = lexemes.first();
        let rest = lexemes.drop_first();
        let text = first.text;
        let end = pos + text.len();
        assert(spelled_right(lexemes[0]));
        assert forall|i: int| 0 <= i < rest.len() implies spelled_right(#[trigger] rest[i]) by {
            assert(rest[i] == lexemes[i + 1]);
        }
        assert(spell(lexemes) == text + seq![' '] + spell(rest));
        assert(chars =~= (pre + text + seq![' ']) + spell(rest));
        assert(chars.subrange(pos, end) =~= text);
        assert(chars[end] == ' ');
        lemma_lex_step_spelled(chars, pos, first);
        let found = lexeme_at(chars, first.token, pos, end);
        assert(lex_step(chars, end) == (None::<LexemeView>, end + 1));
        lemma_lex_spelling(pre + text + seq![' '], rest);
        assert(lex_from(chars, end) == lex_from(chars, end + 1));
        assert(lex_from(chars, pos) == seq![found] + lex_from(chars, end));
        lemma_all_unplaced_cons(found, lex_from(chars, end + 1));
        assert(unplaced(found) == unplaced(first));
        assert(lexemes =~= seq![first] + rest);
        lemma_all_unplaced_cons(first, rest);
    }
}

/// The lexeme that the tokenizer reads at a place is rightly spelled.
pub proof fn lemma_lex_step_spells(chars: Seq<char>, pos: int)
    requires
        0 <= pos < chars.len(),
    ensures
        lex_step(chars, pos).0 matches Some(lexeme) ==> spelled_right(lexeme),
{
    let c = chars[pos];
    lemma_run_end(chars, pos, CharClass::Equals);
    lemma_run_end(chars, pos, CharClass::LineBreak);
    lemma_run_end(chars, pos, CharClass::Word);
    if c == '=' {
        let end = nearer(run_end(chars, pos, CharClass::Equals), pos + 6);
        let text = chars.subrange(pos, end);
        assert forall|i: int| 0 <= i < text.len() implies #[trigger] text[i] == '=' by {
            assert(CharClass::Equals.holds(chars[pos + i]));
        }
    } else if c == '*' {
        if pos + 1 < chars.len() && chars[pos + 1] == '*' {
            let text = chars.subrange(pos, pos + 2);
            assert forall|i: int| 0 <= i < text.len() implies #[trigger] text[i] == '*' by {
                assert(text[i] == chars[pos + i]);
            }
        }
    } else if c == '_' {
        let text = chars.subrange(pos, pos + 1);
        assert forall|i: int| 0 <= i < text.len() implies #[trigger] text[i] == '_' by {
            assert(text[i] == chars[pos + i]);
        }
    } else if c == '\n' {
        let end = run_end(chars, pos, CharClass::LineBreak);
        let text = chars.subrange(pos, end);
        assert forall|i: int| 0 <= i < text.len() implies #[trigger] text[i] == '\n' by {
            assert(CharClass::LineBreak.holds(chars[pos + i]));
        }
    } else if is_word_char(c) {
        let end = run_end(chars, pos, CharClass::Word);
        let text = chars.subrange(pos, end);
        assert forall|i: int| 0 <= i < text.len() implies is_word_char(#[trigger] text[i]) by {
            assert(CharClass::Word.holds(chars[pos + i]));
        }
    }
}

/// The lexemes that the tokenizer gives are rightly spelled.
pub proof fn lemma_lex_spells(chars: Seq<char>, pos: int)
    requires
        0 <= pos <= chars.len(),
    ensures
        all_spelled_right(lex_from(chars, pos)),
    decreases chars.len() - pos,
{
    if pos < chars.len() {
        lemma_lex_step_advances(chars, pos);
        lemma_lex_step_spells(chars, pos);
        let (found, next) = lex_step(chars, pos);
        lemma_lex_spells(chars, next);
        match found {
            Some(lexeme) => {
                let tail = lex_from(chars, next);
                assert forall|i: int| 0 <= i < lex_from(chars, pos).len() implies spelled_right(
                    #[trigger] lex_from(chars, pos)[i],
                ) by {
                    if i > 0 {
                        assert(lex_from(chars, pos)[i] == tail[i - 1]);
                    }
                }
            },
            None => {},
        }
    }
}

/// Whether `text` is the text of a word among the lexemes from `from` up to `to`.
pub open spec fn is_text_of_word(lexemes: Seq<LexemeView>, from: int, to: int, text: Seq<char>) -> bool {
    exists|i: int| from <= i < to && (#[trigger] lexemes[i]).token == Token::Word && lexemes[i].text == text
}

/// Every text among the word texts of lexemes is the text of a word among
/// the lexemes, and the other way round.
pub proof fn lemma_word_texts_are_words(lexemes: Seq<LexemeView>, from: int, to: int)
    requires
        0 <= from <= to <= lexemes.len(),
    ensures
        forall|j: int|
            0 <= j < word_texts(lexemes, from, to).len() ==> is_text_of_word(
                lexemes,
                from,
                to,
                #[trigger] word_texts(lexemes, from, to)[j],
            ),
        forall|i: int|
            from <= i < to && (#[trigger] lexemes[i]).token == Token::Word ==> word_texts(lexemes, from, to).contains(
                lexemes[i].text,
            ),
    decreases to - from,
{
    let texts = word_texts(lexemes, from, to);
    if from < to {
        lemma_word_texts_are_words(lexemes, from + 1, to);
        let tail = word_texts(lexemes, from + 1, to);
        let shift: int = if lexemes[from].token == Token::Word {
            1
        } else {
            0
        };
        assert forall|j: int| 0 <= j < texts.len() implies is_text_of_word(lexemes, from, to, #[trigger] texts[j]) by {
            if j < shift {
                assert(texts[0] == lexemes[from].text);
                assert(lexemes[from].token == Token::Word);
            } else {
                assert(texts[j] == tail[j - shift]);
                assert(is_text_of_word(lexemes, from + 1, to, tail[j - shift]));
                let i = choose|i: int|
                    from + 1 <= i < to && (#[trigger] lexemes[i]).token == Token::Word && lexemes[i].text == tail[j
                        - shift];
                assert(from <= i < to && lexemes[i].token == Token::Word && lexemes[i].text == texts[j]);
            }
        }
        assert forall|i: int| from <= i < to && (#[trigger] lexemes[i]).token == Token::Word implies texts.contains(
            lexemes[i].text,
        ) by {
            if i == from {
                assert(texts[0] == lexemes[i].text);
            } else {
                assert(tail.contains(lexemes[i].text));
                let j = choose|j: int| 0 <= j < tail.len() && tail[j] == lexemes[i].text;
                assert(texts[j + shift] == lexemes[i].text);
            }
        }
    } else {
        assert(texts =~= Seq::<Seq<char>>::empty());
    }
}

/// Every lexeme of a rendering that is no word is the canonical lexeme of its tag.
pub proof fn lemma_rendered_inlines_tokens(items: Seq<crate::ast::InlineView>)
    ensures
        forall|i: int|
            0 <= i < render_inlines(items).len() && (#[trigger] render_inlines(items)[i]).token != Token::Word
                ==> render_inlines(items)[i] == render_token(render_inlines(items)[i].token) && render_inlines(
                items,
            )[i].token.is_inline(),
    decreases items, 0nat,
{
    if items.len() > 0 {
        let init = items.drop_last();
        let last = items.last();
        lemma_rendered_inlines_tokens(init);
        let piece = render_inline(last);
        match last {
            crate::ast::InlineView::Text(_) => {},
            crate::ast::InlineView::Bold(inner) => {
                lemma_rendered_inlines_tokens(inner);
                let mark = render_token(Token::BoldDelimiter);
                assert(piece == seq![mark] + render_inlines(inner) + seq![mark]);
                assert forall|i: int|
                    0 <= i < piece.len() && (#[trigger] piece[i]).token != Token::Word implies piece[i]
                    == render_token(piece[i].token) && piece[i].token.is_inline() by {
                    if 0 < i < piece.len() - 1 {
                        assert(piece[i] == render_inlines(inner)[i - 1]);
                    }
                }
            },
            crate::ast::InlineView::Italic(inner) => {
                lemma_rendered_inlines_tokens(inner);
                let mark = render_token(Token::ItalicDelimiter);
                assert(piece == seq![mark] + render_inlines(inner) + seq![mark]);
                assert forall|i: int|
                    0 <= i < piece.len() && (#[trigger] piece[i]).token != Token::Word implies piece[i]
                    == render_token(piece[i].token) && piece[i].token.is_inline() by {
                    if 0 < i < piece.len() - 1 {
                        assert(piece[i] == render_inlines(inner)[i - 1]);
                    }
                }
            },
        }
        let whole = render_inlines(items);
        assert(whole == render_inlines(init) + piece);
        assert forall|i: int| 0 <= i < whole.len() && (#[trigger] whole[i]).token != Token::Word implies whole[i]
            == render_token(whole[i].token) && whole[i].token.is_inline() by {
            if i < render_inlines(init).len() {
                assert(whole[i] == render_inlines(init)[i]);
            } else {
                assert(whole[i] == piece[i - render_inlines(init).len()]);
            }
        }
    }
}

/// Every lexeme of a rendering that is no word is the canonical lexeme of its tag.
pub proof fn lemma_rendered_blocks_tokens(blocks: Seq<crate::ast::BlockView>)
    ensures
        forall|i: int|
            0 <= i < render_blocks(blocks).len() && (#[trigger] render_blocks(blocks)[i]).token != Token::Word
                ==> render_blocks(blocks)[i] == render_token(render_blocks(blocks)[i].token),
    decreases blocks, 0nat,
{
    if blocks.len() > 0 {
        let init = blocks.drop_last();
        let last = blocks.last();
        lemma_rendered_blocks_tokens(init);
        let piece = render_block(last);
        assert forall|i: int| 0 <= i < piece.len() && (#[trigger] piece[i]).token != Token::Word implies piece[i]
            == render_token(piece[i].token) by {
            match last {
                crate::ast::BlockView::Paragraph { content } => {
                    lemma_rendered_inlines_tokens(content);
                    let inner = render_inlines(content);
                    assert(piece == inner + seq![render_token(Token::BlankLine)]);
                    if i < inner.len() {
                        assert(piece[i] == inner[i]);
                    }
                },
                crate::ast::BlockView::Section { level, title, content } => {
                    lemma_rendered_inlines_tokens(title);
                    let words = render_inlines(title);
                    let head = render_heading(level, title);
                    assert(head == seq![render_token(heading_token(level as int))] + words + seq![
                        render_token(Token::Newline),
                    ]);
                    if i < head.len() {
                        assert(piece[i] == head[i]);
                        if 0 < i < head.len() - 1 {
                            assert(head[i] == words[i - 1]);
                        }
                    } else if content.len() > 0 {
                        lemma_rendered_blocks_tokens(content);
                        assert(piece[i] == render_blocks(content)[i - head.len()]);
                    } else {
                        assert(piece[i] == render_token(Token::BlankLine));
                    }
                },
            }
        }
        let whole = render_blocks(blocks);
        assert(whole == render_blocks(init) + piece);
        assert forall|i: int| 0 <= i < whole.len() && (#[trigger] whole[i]).token != Token::Word implies whole[i]
            == render_token(whole[i].token) by {
            if i < render_blocks(init).len() {
                assert(whole[i] == render_blocks(init)[i]);
            } else {
                assert(whole[i] == piece[i - render_blocks(init).len()]);
            }
        }
    }
}

/// The canonical lexeme of a tag that is no word is rightly spelled.
pub proof fn lemma_render_token_spelled(token: Token)
    requires
        token != Token::Word,
    ensures
        spelled_right(render_token(token)),
{
    reveal_strlit("=");
    reveal_strlit("==");
    reveal_strlit("===");
    reveal_strlit("====");
    reveal_strlit("=====");
    reveal_strlit("======");
    reveal_strlit("**");
    reveal_strlit("_");
    reveal_strlit("\n");
    reveal_strlit("\n\n");
}

/// The rendering of a well-formed document whose text nodes hold texts of
/// words is rightly spelled.
pub proof fn lemma_rendering_spelled(doc: DocumentView)
    requires
        document_wf(doc),
        document_spelled(doc),
    ensures
        all_spelled_right(render_document(doc)),
{
    let lexemes = render_document(doc);
    lemma_parse_rendered_document(doc);
    lemma_parsed_document_texts(lexemes);
    lemma_word_texts_are_words(lexemes, 0, lexemes.len() as int);
    lemma_rendered_blocks_tokens(doc.blocks);
    let texts = word_texts(lexemes, 0, lexemes.len() as int);
    assert(texts == document_texts(doc));
    assert forall|i: int| 0 <= i < lexemes.len() implies spelled_right(#[trigger] lexemes[i]) by {
        if lexemes[i].token == Token::Word {
            assert(texts.contains(lexemes[i].text));
            let j = choose|j: int| 0 <= j < texts.len() && texts[j] == lexemes[i].text;
            assert(is_word(document_texts(doc)[j]));
        } else {
            lemma_render_token_spelled(lexemes[i].token);
        }
    }
}

/// Tokenizing and parsing the canonical text of a well-formed document whose
/// text nodes hold texts of words gives the document back.
pub proof fn lemma_parse_canonical_text(doc: DocumentView)
    requires
        document_wf(doc),
        document_spelled(doc),
    ensures
        parse_result(lex(canonical_text(doc))) == Ok::<DocumentView, Seq<ParseErrorView>>(doc),
{
    let lexemes = render_document(doc);
    lemma_rendering_spelled(doc);
    lemma_lex_spelling(Seq::empty(), lexemes);
    assert(Seq::<char>::empty() + spell(lexemes) =~= spell(lexemes));
    lemma_parse_rendered_document(doc);
    lemma_parse_ignores_places(lexemes, lex(canonical_text(doc)));
}

/// A document parsed from a source text is well-formed, and its text nodes
/// hold texts of words.
pub proof fn lemma_parsed_source_spelled(source: Seq<char>)
    ensures
        parse_result(lex(source)) matches Ok(doc) ==> document_wf(doc) && document_spelled(doc),
{
    let lexemes = lex(source);
    lemma_parsed_document_wf(lexemes);
    lemma_parsed_document_texts(lexemes);
    lemma_lex_spells(source, 0);
    lemma_word_texts_are_words(lexemes, 0, lexemes.len() as int);
    match parse_result(lexemes) {
        Ok(doc) => {
            let texts = word_texts(lexemes, 0, lexemes.len() as int);
            assert forall|j: int| 0 <= j < document_texts(doc).len() implies is_word(
                #[trigger] document_texts(doc)[j],
            ) by {
                assert(document_texts(doc)[j] == texts[j]);
                assert(is_text_of_word(lexemes, 0, lexemes.len() as int, texts[j]));
                let i = choose|i: int|
                    0 <= i < lexemes.len() && (#[trigger] lexemes[i]).token == Token::Word && lexemes[i].text
                        == texts[j];
                assert(spelled_right(lexemes[i]));
            }
        },
        Err(_) => {},
    }
}

/// Writing a parsed document as its canonical text, tokenizing the text and
/// parsing the lexemes gives the document again.
pub proof fn lemma_reparse_canonical_text(source: Seq<char>)
    ensures
        parse_result(lex(source)) matches Ok(doc) ==> parse_result(lex(canonical_text(doc))) == Ok::<
            DocumentView,
            Seq<ParseErrorView>,
        >(doc),
{
    lemma_parsed_source_spelled(source);
    match parse_result(lex(source)) {
        Ok(doc) => lemma_parse_canonical_text(doc),
        Err(_) => {},
    }
}

/// Writes the text that spells the lexemes: the text of each, and one space
/// behind it.
pub fn spell_out(lexemes: &[Lexeme]) -> (text: String)
    ensures
        text@ == spell(lexeme_views(lexemes@)),
{
    let ghost views = lexeme_views(lexemes@);
    let mut text = String::new();
    let mut index: usize = 0;
    assert(views.subrange(0, views.len() as int) =~= views);
    assert(text@ + spell(views) =~= spell(views));
    while index < lexemes.len()
        invariant
            index <= lexemes.len(),
            views == lexeme_views(lexemes@),
            text@ + spell(views.subrange(index as int, views.len() as int)) == spell(views),
        decreases lexemes.len() - index,
    {
        let ghost rest = views.subrange(index as int, views.len() as int);
        let ghost before = text@;
        proof {
            assert(rest.first() == lexemes@[index as int]@);
            assert(rest.drop_first() =~= views.subrange(index as int + 1, views.len() as int));
            assert(spell(rest) == rest.first().text + seq![' '] + spell(rest.drop_first()));
        }
        text.append(lexemes[index].text.as_str());
        text.push(' ');
        assert(text@ + spell(rest.drop_first()) =~= before + spell(rest));
        index = index + 1;
    }
    assert(spell(views.subrange(index as int, views.len() as int)) =~= Seq::<char>::empty());
    assert(text@ + Seq::<char>::empty() =~= text@);
    text
}

/// Writes a document as its canonical text.
///
/// Tokenizing and parsing the text gives the document back if the document
/// is well-formed and its text nodes hold texts of words
/// ([`lemma_parse_canonical_text`]).
pub fn to_source(doc: &Document) -> (text: String)
    ensures
        text@ == canonical_text(doc@),
{
    let lexemes = render(doc);
    spell_out(lexemes.as_slice())
}

} // verus!
