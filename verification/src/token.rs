//! Lexical tokens of the markup language.
//!
//! A [`Token`] is the tag of a lexical unit. A [`Lexeme`] is a token as it was
//! found in a source text: the tag, the text it covers and the place of that
//! text in the source.

use vstd::prelude::*;

verus! {

/// The tag of a lexical unit.
#[derive(Debug, Clone, Copy, PartialEq, Eq, Structural)]
pub enum Token {
    /// Level 1 heading marker (`=`).
    Heading1,
    /// Level 2 heading marker (`==`).
    Heading2,
    /// Level 3 heading marker (`===`).
    Heading3,
    /// Level 4 heading marker (`====`).
    Heading4,
    /// Level 5 heading marker (`=====`).
    Heading5,
    /// Level 6 heading marker (`======`).
    Heading6,
    /// Bold delimiter (`**`).
    BoldDelimiter,
    /// Italic delimiter (`_`).
    ItalicDelimiter,
    /// A single line break.
    Newline,
    /// Two or more consecutive line breaks: the separator between blocks.
    BlankLine,
    /// A maximal run of characters that are neither whitespace nor one of `*`, `_`, `=`.
    Word,
}

impl Token {
    /// The heading level of a heading marker, 0 for every other token.
    pub open spec fn level(self) -> nat {
        match self {
            Token::Heading1 => 1,
            Token::Heading2 => 2,
            Token::Heading3 => 3,
            Token::Heading4 => 4,
            Token::Heading5 => 5,
            Token::Heading6 => 6,
            _ => 0,
        }
    }

    /// Whether the token is a heading marker.
    pub open spec fn is_heading(self) -> bool {
        self.level() > 0
    }

    /// Whether the token can stand inside a paragraph: a word or a delimiter.
    pub open spec fn is_inline(self) -> bool {
        self == Token::Word || self == Token::BoldDelimiter || self == Token::ItalicDelimiter
    }

    /// The text that describes the token in error messages.
    pub open spec fn description_text(self) -> Seq<char> {
        match self {
            Token::Heading1 => "level 1 heading (=)"@,
            Token::Heading2 => "level 2 heading (==)"@,
            Token::Heading3 => "level 3 heading (===)"@,
            Token::Heading4 => "level 4 heading (====)"@,
            Token::Heading5 => "level 5 heading (=====)"@,
            Token::Heading6 => "level 6 heading (======)"@,
            Token::BoldDelimiter => "bold delimiter (**)"@,
            Token::ItalicDelimiter => "italic delimiter (_)"@,
            Token::Newline => "newline"@,
            Token::BlankLine => "blank line"@,
            Token::Word => "word"@,
        }
    }

    /// The text the token has when no source text is at hand.
    ///
    /// For the markers and delimiters this is their shortest spelling; a word
    /// stands for itself as `word`.
    pub open spec fn canonical_text(self) -> Seq<char> {
        match self {
            Token::Heading1 => "="@,
            Token::Heading2 => "=="@,
            Token::Heading3 => "==="@,
            Token::Heading4 => "===="@,
            Token::Heading5 => "====="@,
            Token::Heading6 => "======"@,
            Token::BoldDelimiter => "**"@,
            Token::ItalicDelimiter => "_"@,
            Token::Newline => "\n"@,
            Token::BlankLine => "\n\n"@,
            Token::Word => "word"@,
        }
    }

    /// Returns a human-readable description of the token for error messages.
    pub fn description(&self) -> (text: &'static str)
        ensures
            text@ == self.description_text(),
    {
        match self {
            Token::Heading1 => "level 1 heading (=)",
            Token::Heading2 => "level 2 heading (==)",
            Token::Heading3 => "level 3 heading (===)",
            Token::Heading4 => "level 4 heading (====)",
            Token::Heading5 => "level 5 heading (=====)",
            Token::Heading6 => "level 6 heading (======)",
            Token::BoldDelimiter => "bold delimiter (**)",
            Token::ItalicDelimiter => "italic delimiter (_)",
            Token::Newline => "newline",
            Token::BlankLine => "blank line",
            Token::Word => "word",
        }
    }

    /// Returns the shortest spelling of the token, `word` for a word.
    pub fn canonical(&self) -> (text: &'static str)
        ensures
            text@ == self.canonical_text(),
    {
        match self {
            Token::Heading1 => "=",
            Token::Heading2 => "==",
            Token::Heading3 => "===",
            Token::Heading4 => "====",
            Token::Heading5 => "=====",
            Token::Heading6 => "======",
            Token::BoldDelimiter => "**",
            Token::ItalicDelimiter => "_",
            Token::Newline => "\n",
            Token::BlankLine => "\n\n",
            Token::Word => "word",
        }
    }

    /// Returns the level of a heading marker, and `None` for any other token.
    pub fn heading_level(&self) -> (level: Option<u8>)
        ensures
            self.is_heading() <==> level is Some,
            level matches Some(n) ==> n == self.level() && 1 <= n <= 6,
    {
        match self {
            Token::Heading1 => Some(1u8),
            Token::Heading2 => Some(2u8),
            Token::Heading3 => Some(3u8),
            Token::Heading4 => Some(4u8),
            Token::Heading5 => Some(5u8),
            Token::Heading6 => Some(6u8),
            _ => None,
        }
    }
}

/// What a lexeme is in contracts: its tag, its text and its place.
pub struct LexemeView {
    /// The tag.
    pub token: Token,
    /// The characters the lexeme covers.
    pub text: Seq<char>,
    /// Offset of the first byte of the lexeme in its source.
    pub start: int,
    /// Offset just behind the last byte of the lexeme in its source.
    pub end: int,
}

/// A token as found in a source text.
#[derive(Debug, PartialEq)]
pub struct Lexeme {
    /// The tag.
    pub token: Token,
    /// The characters the lexeme covers.
    pub text: String,
    /// Offset of the first byte of the lexeme in its source.
    pub start: usize,
    /// Offset just behind the last byte of the lexeme in its source.
    pub end: usize,
}

impl Clone for Lexeme {
    /// Copies the lexeme.
    fn clone(&self) -> (copy: Lexeme)
        ensures
            copy == *self,
    {
        Lexeme { token: self.token, text: self.text.clone(), start: self.start, end: self.end }
    }
}

impl View for Lexeme {
    type V = LexemeView;

    open spec fn view(&self) -> LexemeView {
        LexemeView { token: self.token, text: self.text@, start: self.start as int, end: self.end as int }
    }
}

/// The views of a sequence of lexemes, in order.
pub open spec fn lexeme_views(lexemes: Seq<Lexeme>) -> Seq<LexemeView> {
    lexemes.map_values(|l: Lexeme| l@)
}

/// The lexeme that stands for the tag `token` at index `index` of a sequence
/// of bare tags: it has the canonical text and covers the place `index`.
pub open spec fn bare_lexeme(token: Token, index: int) -> LexemeView {
    LexemeView { token, text: token.canonical_text(), start: index, end: index + 1 }
}

/// The lexemes that stand for a sequence of bare tags.
pub open spec fn bare_lexemes(tokens: Seq<Token>) -> Seq<LexemeView> {
    Seq::new(tokens.len(), |i: int| bare_lexeme(tokens[i], i))
}

impl Lexeme {
    /// Makes the lexeme that stands for a bare tag at index `index`.
    pub fn bare(token: Token, index: usize) -> (lexeme: Lexeme)
        requires
            index < usize::MAX,
        ensures
            lexeme@ == bare_lexeme(token, index as int),
    {
        Lexeme { token, text: String::from_str(token.canonical()), start: index, end: index + 1 }
    }
}

} // verus!
