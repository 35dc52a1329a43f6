//! Parsing a sequence of bare tags.
//!
//! Where no source text is at hand, a document can still be parsed from the
//! tags of its tokens alone. Each tag then stands for the lexeme with its
//! canonical text, at the place of its index in the sequence, so that the
//! positions in the errors are indices into the tags.

use vstd::prelude::*;
use crate::ast::Document;
use crate::error_recovery::{error_views, ParseError};
use crate::grammar::parse_result;
use crate::parser::document;
use crate::token::{bare_lexemes, lexeme_views, Lexeme, Token};

verus! {

/// Makes the lexemes that stand for a sequence of bare tags.
pub fn lexemes_of(input: &[Token]) -> (lexemes: Vec<Lexeme>)
    ensures
        lexeme_views(lexemes@) == bare_lexemes(input@),
{
    let mut lexemes: Vec<Lexeme> = Vec::new();
    let mut index: usize = 0;
    while index < input.len()
        invariant
            index <= input.len(),
            lexemes.len() == index,
            forall|i: int| 0 <= i < index ==> (#[trigger] lexemes@[i])@ == bare_lexemes(input@)[i],
        decreases input.len() - index,
    {
        lexemes.push(Lexeme::bare(input[index], index));
        index = index + 1;
    }
    assert(lexeme_views(lexemes@) =~= bare_lexemes(input@));
    lexemes
}

/// Parses a complete document from the tags of its tokens.
///
/// Gives the document if the tags hold no error, and otherwise every error in
/// the order they were met: the result is
/// [`parse_result`](crate::grammar::parse_result) of the lexemes that stand
/// for the tags. Every word has the text `word`.
pub fn parse_document_winnow(input: &[Token]) -> (result: Result<Document, Vec<ParseError>>)
    ensures
        match parse_result(bare_lexemes(input@)) {
            Ok(view) => result matches Ok(doc) && doc@ == view,
            Err(views) => result matches Err(errors) && error_views(errors@) == views,
        },
{
    let lexemes = lexemes_of(input);
    document(lexemes.as_slice())
}

} // verus!
