//! The tokenizer: source text in, lexemes out.
//!
//! ```text
//! heading  := "=" | "==" | "===" | "====" | "=====" | "======"   (the longest that fits)
//! bold     := "**"
//! italic   := "_"
//! newline  := "\n"
//! blank    := "\n" "\n"+
//! word     := one or more characters that are not whitespace, "*", "_" or "="
//! ```
//!
//! Spaces and tabs separate tokens and are dropped. A character that starts no
//! token (a `*` that stands alone, or whitespace that is no space, tab or line
//! break) is dropped as well. The offsets of a lexeme count bytes of the
//! source in UTF-8.

use vstd::prelude::*;
use vstd::utf8::{char_is_scalar, encode_scalar, encode_utf8};
use crate::token::{lexeme_views, Lexeme, LexemeView, Token};

verus! {

/// Taken on trust of `String::push` of the standard library: the call appends
/// the character `ch` to the end of the string, and changes nothing else of it.
pub assume_specification[ String::push ](text: &mut String, ch: char)
    ensures
        final(text)@ == old(text)@.push(ch),
;

/// Whether `c` is whitespace: a character with the Unicode property `White_Space`.
pub open spec fn is_space(c: char) -> bool {
    let v = c as u32;
    (0x09 <= v <= 0x0D) || v == 0x20 || v == 0x85 || v == 0xA0 || v == 0x1680 || (0x2000 <= v <= 0x200A) || v
        == 0x2028 || v == 0x2029 || v == 0x202F || v == 0x205F || v == 0x3000
}

/// Whether `c` can stand in a word.
pub open spec fn is_word_char(c: char) -> bool {
    !is_space(c) && c != '*' && c != '_' && c != '='
}

/// The characters that make up the runs of the lexical grammar.
#[derive(Debug, Clone, Copy, PartialEq, Eq, Structural)]
pub enum CharClass {
    /// The character `=`.
    Equals,
    /// The line break.
    LineBreak,
    /// The characters of words.
    Word,
}

impl CharClass {
    /// Whether `c` belongs to the class.
    pub open spec fn holds(self, c: char) -> bool {
        match self {
            CharClass::Equals => c == '=',
            CharClass::LineBreak => c == '\n',
            CharClass::Word => is_word_char(c),
        }
    }

    /// Tests whether `c` belongs to the class.
    pub fn test(&self, c: char) -> (b: bool)
        ensures
            b == self.holds(c),
    {
        match self {
            CharClass::Equals => c == '=',
            CharClass::LineBreak => c == '\n',
            CharClass::Word => {
                let v: u32 = c as u32;
                let space = (0x09 <= v && v <= 0x0D) || v == 0x20 || v == 0x85 || v == 0xA0 || v == 0x1680 || (0x2000
                    <= v && v <= 0x200A) || v == 0x2028 || v == 0x2029 || v == 0x202F || v == 0x205F || v == 0x3000;
                !space && c != '*' && c != '_' && c != '='
            },
        }
    }
}

/// The place of the first character from `pos` on that is not of `class`.
pub open spec fn run_end(chars: Seq<char>, pos: int, class: CharClass) -> int
    decreases chars.len() - pos,
{
    if 0 <= pos < chars.len() && class.holds(chars[pos]) {
        run_end(chars, pos + 1, class)
    } else {
        pos
    }
}

/// The number of bytes that the first `pos` characters take in UTF-8.
pub open spec fn byte_offset(chars: Seq<char>, pos: int) -> int {
    encode_utf8(chars.take(pos)).len() as int
}

/// The heading marker made of `n` characters.
pub open spec fn heading_token(n: int) -> Token {
    if n <= 1 {
        Token::Heading1
    } else if n == 2 {
        Token::Heading2
    } else if n == 3 {
        Token::Heading3
    } else if n == 4 {
        Token::Heading4
    } else if n == 5 {
        Token::Heading5
    } else {
        Token::Heading6
    }
}

/// The lexeme with tag `token` that covers the characters from `from` up to `to`.
pub open spec fn lexeme_at(chars: Seq<char>, token: Token, from: int, to: int) -> LexemeView {
    LexemeView { token, text: chars.subrange(from, to), start: byte_offset(chars, from), end: byte_offset(chars, to) }
}

/// The smaller of two places.
pub open spec fn nearer(a: int, b: int) -> int {
    if a <= b {
        a
    } else {
        b
    }
}

/// One step of the tokenizer: the lexeme that starts at `pos`, if one does,
/// and the place where the tokenizer goes on.
pub open spec fn lex_step(chars: Seq<char>, pos: int) -> (Option<LexemeView>, int)
    recommends
        0 <= pos < chars.len(),
{
    let c = chars[pos];
    if c == '=' {
        let end = nearer(run_end(chars, pos, CharClass::Equals), pos + 6);
        (Some(lexeme_at(chars, heading_token(end - pos), pos, end)), end)
    } else if c == '*' {
        if pos + 1 < chars.len() && chars[pos + 1] == '*' {
            (Some(lexeme_at(chars, Token::BoldDelimiter, pos, pos + 2)), pos + 2)
        } else {
            (None, pos + 1)
        }
    } else if c == '_' {
        (Some(lexeme_at(chars, Token::ItalicDelimiter, pos, pos + 1)), pos + 1)
    } else if c == '\n' {
        let end = run_end(chars, pos, CharClass::LineBreak);
        let token = if end - pos >= 2 {
            Token::BlankLine
        } else {
            Token::Newline
        };
        (Some(lexeme_at(chars, token, pos, end)), end)
    } else if is_word_char(c) {
        let end = run_end(chars, pos, CharClass::Word);
        (Some(lexeme_at(chars, Token::Word, pos, end)), end)
    } else {
        (None, pos + 1)
    }
}

/// The lexemes of the characters from `pos` on.
pub open spec fn lex_from(chars: Seq<char>, pos: int) -> Seq<LexemeView>
    decreases chars.len() - pos,
    via lex_from_terminates
{
    if 0 <= pos < chars.len() {
        let (found, next) = lex_step(chars, pos);
        match found {
            Some(lexeme) => seq![lexeme] + lex_from(chars, next),
            None => lex_from(chars, next),
        }
    } else {
        Seq::empty()
    }
}

#[via_fn]
proof fn lex_from_terminates(chars: Seq<char>, pos: int) {
    if 0 <= pos < chars.len() {
        lemma_lex_step_advances(chars, pos);
    }
}

/// The lexemes of a source text.
pub open spec fn lex(chars: Seq<char>) -> Seq<LexemeView> {
    lex_from(chars, 0)
}

/// A run ends inside the input, holds only characters of its class, and is
/// followed by none.
pub proof fn lemma_run_end(chars: Seq<char>, pos: int, class: CharClass)
    requires
        0 <= pos <= chars.len(),
    ensures
        pos <= run_end(chars, pos, class) <= chars.len(),
        forall|i: int| pos <= i < run_end(chars, pos, class) ==> class.holds(#[trigger] chars[i]),
        run_end(chars, pos, class) < chars.len() ==> !class.holds(chars[run_end(chars, pos, class)]),
        pos < chars.len() && class.holds(chars[pos]) ==> pos < run_end(chars, pos, class),
    decreases chars.len() - pos,
{
    if pos < chars.len() && class.holds(chars[pos]) {
        lemma_run_end(chars, pos + 1, class);
    }
}

/// A stretch of characters of one class is part of the run that starts where it starts.
pub proof fn lemma_run_reaches(chars: Seq<char>, pos: int, to: int, class: CharClass)
    requires
        0 <= pos <= to <= chars.len(),
        forall|i: int| pos <= i < to ==> class.holds(#[trigger] chars[i]),
    ensures
        to <= run_end(chars, pos, class),
        run_end(chars, pos, class) == run_end(chars, to, class),
    decreases to - pos,
{
    if pos < to {
        assert(class.holds(chars[pos]));
        lemma_run_reaches(chars, pos + 1, to, class);
    } else {
        lemma_run_end(chars, to, class);
    }
}

/// Every step of the tokenizer moves forward and stays inside the input.
pub proof fn lemma_lex_step_advances(chars: Seq<char>, pos: int)
    requires
        0 <= pos < chars.len(),
    ensures
        pos < lex_step(chars, pos).1 <= chars.len(),
{
    lemma_run_end(chars, pos, CharClass::Equals);
    lemma_run_end(chars, pos, CharClass::LineBreak);
    lemma_run_end(chars, pos, CharClass::Word);
}

/// Whether `lexeme` covers a stretch of the characters that starts at `from`
/// or behind it: its text is the characters of the stretch, and its offsets
/// are those of the two ends of the stretch.
pub open spec fn covers(chars: Seq<char>, from: int, lexeme: LexemeView) -> bool {
    exists|a: int, b: int|
        from <= a < b <= chars.len() && lexeme == #[trigger] lexeme_at(chars, lexeme.token, a, b)
}

/// Every lexeme that the tokenizer gives covers a stretch of the source; the
/// stretches do not overlap, and they come in the order of the lexemes.
pub proof fn lemma_lexemes_cover(chars: Seq<char>, pos: int)
    requires
        0 <= pos <= chars.len(),
    ensures
        forall|i: int| 0 <= i < lex_from(chars, pos).len() ==> covers(chars, pos, #[trigger] lex_from(chars, pos)[i]),
        forall|i: int|
            0 <= i < lex_from(chars, pos).len() ==> byte_offset(chars, pos) <= (#[trigger] lex_from(
                chars,
                pos,
            )[i]).start,
        forall|i: int, j: int|
            0 <= i < j < lex_from(chars, pos).len() ==> (#[trigger] lex_from(chars, pos)[i]).end <= (
            #[trigger] lex_from(chars, pos)[j]).start,
    decreases chars.len() - pos,
{
    if pos < chars.len() {
        lemma_lex_step_advances(chars, pos);
        let (found, next) = lex_step(chars, pos);
        let whole = lex_from(chars, pos);
        let tail = lex_from(chars, next);
        lemma_lexemes_cover(chars, next);
        lemma_byte_offset_grows(chars, pos, next);
        let shift: int = if found is Some {
            1
        } else {
            0
        };
        assert forall|i: int| 0 <= i < whole.len() implies covers(chars, pos, #[trigger] whole[i]) && byte_offset(
            chars,
            pos,
        ) <= whole[i].start by {
            if i < shift {
                assert(whole[i] == lexeme_at(chars, whole[i].token, pos, next));
            } else {
                assert(whole[i] == tail[i - shift]);
                assert(covers(chars, next, tail[i - shift]));
                let (a, b) = choose|a: int, b: int|
                    next <= a < b <= chars.len() && tail[i - shift] == #[trigger] lexeme_at(
                        chars,
                        tail[i - shift].token,
                        a,
                        b,
                    );
                assert(pos <= a < b <= chars.len() && whole[i] == lexeme_at(chars, whole[i].token, a, b));
            }
        }
        assert forall|i: int, j: int| 0 <= i < j < whole.len() implies (#[trigger] whole[i]).end <= (
        #[trigger] whole[j]).start by {
            assert(whole[j] == tail[j - shift]);
            if i < shift {
                assert(whole[i].end == byte_offset(chars, next));
            } else {
                assert(whole[i] == tail[i - shift]);
            }
        }
    }
}

/// The encoding of a concatenation is the concatenation of the encodings.
pub proof fn lemma_encode_concat(a: Seq<char>, b: Seq<char>)
    ensures
        encode_utf8(a + b) == encode_utf8(a) + encode_utf8(b),
    decreases a.len(),
{
    if a.len() == 0 {
        assert(a + b =~= b);
        assert(encode_utf8(a) + encode_utf8(b) =~= encode_utf8(b));
    } else {
        lemma_encode_concat(a.drop_first(), b);
        assert((a + b).drop_first() =~= a.drop_first() + b);
        assert(encode_scalar(a[0] as u32) + (encode_utf8(a.drop_first()) + encode_utf8(b)) =~= (encode_scalar(
            a[0] as u32,
        ) + encode_utf8(a.drop_first())) + encode_utf8(b));
    }
}

/// The offset behind a character is the offset in front of it plus its width.
pub proof fn lemma_byte_offset_step(chars: Seq<char>, pos: int)
    requires
        0 <= pos < chars.len(),
    ensures
        byte_offset(chars, pos + 1) == byte_offset(chars, pos) + encode_scalar(chars[pos] as u32).len(),
        1 <= encode_scalar(chars[pos] as u32).len() <= 4,
{
    let one = seq![chars[pos]];
    assert(chars.take(pos + 1) =~= chars.take(pos) + one);
    lemma_encode_concat(chars.take(pos), one);
    assert(one.drop_first() =~= Seq::<char>::empty());
    assert(encode_utf8(one) =~= encode_scalar(chars[pos] as u32)) by {
        reveal_with_fuel(encode_utf8, 2);
    }
}

/// Offsets grow with the place.
pub proof fn lemma_byte_offset_grows(chars: Seq<char>, from: int, to: int)
    requires
        0 <= from <= to <= chars.len(),
    ensures
        byte_offset(chars, from) <= byte_offset(chars, to),
{
    assert(chars.take(to) =~= chars.take(from) + chars.subrange(from, to));
    lemma_encode_concat(chars.take(from), chars.subrange(from, to));
}

fn width(c: char) -> (n: usize)
    ensures
        n == encode_scalar(c as u32).len(),
{
    proof {
        char_is_scalar(c);
    }
    let v: u32 = c as u32;
    if v < 0x80 {
        1
    } else if v < 0x800 {
        2
    } else if v < 0x10000 {
        3
    } else {
        4
    }
}

/// Returns the characters of `source`, in order.
pub fn characters(source: &str) -> (chars: Vec<char>)
    ensures
        chars@ == source@,
{
    let mut chars: Vec<char> = Vec::new();
    for c in it: source.chars()
        invariant
            chars@ == it.seq().take(it.index() as int),
            it.seq() == source@,
    {
        chars.push(c);
        assert(it.seq().take(it.index() + 1) =~= it.seq().take(it.index() as int).push(c));
    }
    assert(chars@ =~= source@);
    chars
}

fn scan_run(chars: &Vec<char>, pos: usize, class: CharClass, limit: usize) -> (end: usize)
    requires
        pos <= chars.len(),
    ensures
        end == nearer(run_end(chars@, pos as int, class), pos + limit),
        pos <= end <= chars.len(),
{
    let mut end: usize = pos;
    while end < chars.len() && end - pos < limit && class.test(chars[end])
        invariant
            pos <= end <= chars.len(),
            end - pos <= limit,
            forall|i: int| pos <= i < end ==> class.holds(#[trigger] chars@[i]),
        decreases chars.len() - end,
    {
        end = end + 1;
    }
    proof {
        lemma_run_reaches(chars@, pos as int, end as int, class);
        lemma_run_end(chars@, end as int, class);
    }
    end
}

fn take_span(chars: &Vec<char>, pos: usize, end: usize, offset: usize) -> (result: (String, usize))
    requires
        pos <= end <= chars.len(),
        offset == byte_offset(chars@, pos as int),
        byte_offset(chars@, chars.len() as int) <= usize::MAX,
    ensures
        result.0@ == chars@.subrange(pos as int, end as int),
        result.1 == byte_offset(chars@, end as int),
{
    let mut text = String::new();
    let mut place: usize = pos;
    let mut behind: usize = offset;
    assert(text@ =~= chars@.subrange(pos as int, place as int));
    while place < end
        invariant
            pos <= place <= end <= chars.len(),
            text@ == chars@.subrange(pos as int, place as int),
            behind == byte_offset(chars@, place as int),
            byte_offset(chars@, chars.len() as int) <= usize::MAX,
        decreases end - place,
    {
        let c = chars[place];
        proof {
            lemma_byte_offset_step(chars@, place as int);
            lemma_byte_offset_grows(chars@, place as int + 1, chars.len() as int);
            assert(chars@.subrange(pos as int, place as int).push(c) =~= chars@.subrange(pos as int, place as int + 1));
        }
        text.push(c);
        behind = behind + width(c);
        place = place + 1;
    }
    (text, behind)
}

pub(crate) fn heading(n: usize) -> (token: Token)
    ensures
        token == heading_token(n as int),
{
    if n <= 1 {
        Token::Heading1
    } else if n == 2 {
        Token::Heading2
    } else if n == 3 {
        Token::Heading3
    } else if n == 4 {
        Token::Heading4
    } else if n == 5 {
        Token::Heading5
    } else {
        Token::Heading6
    }
}

/// Cuts `source` into lexemes.
///
/// Each lexeme holds its tag, the characters it covers, and the offsets in
/// bytes of its first character and of the place behind its last one. Spaces,
/// tabs and characters that start no token are dropped. An empty source, and
/// one of spaces and tabs only, gives no lexeme.
pub fn tokenize(source: &str) -> (lexemes: Vec<Lexeme>)
    ensures
        lexeme_views(lexemes@) == lex(source@),
{
    let chars = characters(source);
    let total: usize = source.as_bytes().len();
    assert(chars@.take(chars.len() as int) =~= chars@);
    let mut lexemes: Vec<Lexeme> = Vec::new();
    let mut pos: usize = 0;
    let mut offset: usize = 0;
    assert(lexeme_views(lexemes@) + lex_from(chars@, 0) =~= lex(chars@));
    assert(chars@.take(0) =~= Seq::<char>::empty());
    while pos < chars.len()
        invariant
            pos <= chars.len(),
            offset == byte_offset(chars@, pos as int),
            byte_offset(chars@, chars.len() as int) <= usize::MAX,
            lexeme_views(lexemes@) + lex_from(chars@, pos as int) == lex(chars@),
        decreases chars.len() - pos,
    {
        let c = chars[pos];
        let ghost here = pos as int;
        let ghost before = lexeme_views(lexemes@);
        proof {
            lemma_lex_step_advances(chars@, here);
            lemma_byte_offset_step(chars@, here);
            lemma_byte_offset_grows(chars@, here + 1, chars.len() as int);
        }
        let mut found: Option<(Token, usize)> = None;
        if c == '=' {
            let end = scan_run(&chars, pos, CharClass::Equals, 6);
            found = Some((heading(end - pos), end));
        } else if c == '*' {
            if pos + 1 < chars.len() && chars[pos + 1] == '*' {
                found = Some((Token::BoldDelimiter, pos + 2));
            }
        } else if c == '_' {
            found = Some((Token::ItalicDelimiter, pos + 1));
        } else if c == '\n' {
            let end = scan_run(&chars, pos, CharClass::LineBreak, usize::MAX);
            let token = if end - pos >= 2 {
                Token::BlankLine
            } else {
                Token::Newline
            };
            found = Some((token, end));
        } else if CharClass::Word.test(c) {
            let end = scan_run(&chars, pos, CharClass::Word, usize::MAX);
            found = Some((Token::Word, end));
        }
        match found {
            Some((token, end)) => {
                assert(lex_step(chars@, here) == (Some(lexeme_at(chars@, token, here, end as int)), end as int));
                let (text, behind) = take_span(&chars, pos, end, offset);
                let lexeme = Lexeme { token, text, start: offset, end: behind };
                lexemes.push(lexeme);
                assert(lexeme_views(lexemes@) =~= before.push(lexeme@));
                assert(before.push(lexeme@) + lex_from(chars@, end as int) =~= before + lex_from(chars@, here));
                pos = end;
                offset = behind;
            },
            None => {
                assert(lex_step(chars@, here) == (None::<LexemeView>, here + 1));
                offset = offset + width(c);
                pos = pos + 1;
            },
        }
    }
    assert(lexeme_views(lexemes@) + lex_from(chars@, pos as int) =~= lexeme_views(lexemes@));
    lexemes
}

} // verus!
