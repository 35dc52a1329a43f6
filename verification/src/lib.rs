//! A parser for a lightweight structured-text markup language.
//!
//! A source text is cut into lexemes, and the lexemes are parsed into a
//! document tree: sections that nest by their heading level, paragraphs, and
//! inline text with bold and italic spans.
//!
//! What the library computes:
//!
//! - [`token`]: the tags of the lexical units, and lexemes
//! - [`lexer`]: source text to lexemes
//! - [`ast`]: the document tree
//! - [`grammar`]: what parsing means
//! - [`parser`]: lexemes to document tree
//! - [`parser_winnow`]: bare tags to document tree
//! - [`error_recovery`]: parse errors and their collector
//! - [`render`]: document tree to lexemes, in the canonical way
//! - [`canonical`]: document tree to text, in the canonical way
//! - [`outline`]: document tree to a plain-text outline
//!
//! What is proved of it:
//!
//! - [`wellformed`] and [`invariants`]: which trees a parse gives
//! - [`plain`]: a span stands inside a span of its own kind only as its last
//!   node
//! - [`fidelity`]: the text nodes hold the words of the input
//! - [`stretches`]: every node is what was read at its place
//! - [`nesting`]: spans nest as deep as their delimiters
//! - [`roundtrip`]: parsing the rendering of a tree gives the tree back
//! - [`places`]: the offsets of the lexemes have no part in the tree
//! - [`canonical`]: tokenizing and parsing the canonical text of a tree gives
//!   the tree back

use vstd::prelude::*;

pub mod ast;
pub mod canonical;
pub mod error_recovery;
pub mod fidelity;
pub mod grammar;
pub mod invariants;
pub mod lexer;
pub mod nesting;
pub mod outline;
pub mod parser;
pub mod parser_winnow;
pub mod plain;
pub mod places;
pub mod render;
pub mod roundtrip;
pub mod stretches;
pub mod token;
pub mod wellformed;

verus! {

/// Parses a document from source text.
///
/// The text is cut into lexemes, and the lexemes are parsed. Gives the
/// document if the text holds no error, and otherwise every error in the order
/// they were met, each with the offset in bytes of the lexeme it is about:
/// the result is [`parse_result`](grammar::parse_result) of
/// [`lex`](lexer::lex) of the text.
///
/// A document that is given is well-formed, and its text nodes hold the texts
/// of the words of the input: all of them, each once, in their order. Every
/// paragraph and every title holds the texts of the words of its own stretch
/// of the input.
pub fn parse_document(input: &str) -> (result: Result<ast::Document, Vec<error_recovery::ParseError>>)
    ensures
        match grammar::parse_result(lexer::lex(input@)) {
            Ok(view) => result matches Ok(doc) && doc@ == view,
            Err(views) => result matches Err(errors) && error_recovery::error_views(errors@) == views && errors.len()
                > 0,
        },
        input@.len() == 0 ==> (result matches Ok(doc) && doc@.blocks.len() == 0),
        result matches Ok(doc) ==> wellformed::document_wf(doc@) && canonical::document_spelled(doc@)
            && fidelity::document_texts(doc@) == fidelity::word_texts(
            lexer::lex(input@),
            0,
            lexer::lex(input@).len() as int,
        ) && stretches::document_read(lexer::lex(input@), doc@),
{
    let lexemes = lexer::tokenize(input);
    proof {
        canonical::lemma_parsed_source_spelled(input@);
        assert(token::lexeme_views(lexemes@).len() == lexemes@.len());
    }
    parser::document(lexemes.as_slice())
}

} // verus!
