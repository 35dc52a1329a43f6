//! Structured parse errors and the collector that gathers them.
//!
//! The parser does not stop at the first error. It records the error in an
//! [`ErrorRecovery`], skips ahead to a place where a block can start, and goes
//! on, so that one pass reports every structural problem.

use vstd::prelude::*;

verus! {

/// What a parse error is in contracts.
pub enum ParseErrorView {
    /// A token that no rule allows at its place.
    UnexpectedToken { position: int, expected: Seq<char>, got: Seq<char> },
    /// A bold or italic span that is opened and never closed.
    UnclosedDelimiter { delimiter: Seq<char>, start: int },
    /// A structure that the parser does not accept.
    InvalidStructure { message: Seq<char> },
    /// The input ends where a rule needs more tokens.
    UnexpectedEOF { context: Seq<char> },
}

/// Parser error with location information.
///
/// A position is the `start` offset of the lexeme that the error is about.
#[derive(Debug, PartialEq)]
pub enum ParseError {
    /// Unexpected token encountered.
    UnexpectedToken { position: usize, expected: String, got: String },
    /// Unclosed delimiter (bold or italic).
    UnclosedDelimiter { delimiter: String, start: usize },
    /// Invalid document structure.
    InvalidStructure { message: String },
    /// End of input reached unexpectedly.
    UnexpectedEOF { context: String },
}

impl Clone for ParseError {
    /// Copies the error.
    fn clone(&self) -> (copy: ParseError)
        ensures
            copy == *self,
    {
        match self {
            ParseError::UnexpectedToken { position, expected, got } => ParseError::UnexpectedToken {
                position: *position,
                expected: expected.clone(),
                got: got.clone(),
            },
            ParseError::UnclosedDelimiter { delimiter, start } => ParseError::UnclosedDelimiter {
                delimiter: delimiter.clone(),
                start: *start,
            },
            ParseError::InvalidStructure { message } => ParseError::InvalidStructure { message: message.clone() },
            ParseError::UnexpectedEOF { context } => ParseError::UnexpectedEOF { context: context.clone() },
        }
    }
}

impl View for ParseError {
    type V = ParseErrorView;

    open spec fn view(&self) -> ParseErrorView {
        match self {
            ParseError::UnexpectedToken { position, expected, got } => ParseErrorView::UnexpectedToken {
                position: *position as int,
                expected: expected@,
                got: got@,
            },
            ParseError::UnclosedDelimiter { delimiter, start } => ParseErrorView::UnclosedDelimiter {
                delimiter: delimiter@,
                start: *start as int,
            },
            ParseError::InvalidStructure { message } => ParseErrorView::InvalidStructure { message: message@ },
            ParseError::UnexpectedEOF { context } => ParseErrorView::UnexpectedEOF { context: context@ },
        }
    }
}

/// The views of a sequence of errors, in order.
pub open spec fn error_views(errors: Seq<ParseError>) -> Seq<ParseErrorView> {
    errors.map_values(|e: ParseError| e@)
}

/// The character of a decimal digit.
pub open spec fn digit_text(d: nat) -> Seq<char>
    recommends
        d < 10,
{
    if d == 0 {
        "0"@
    } else if d == 1 {
        "1"@
    } else if d == 2 {
        "2"@
    } else if d == 3 {
        "3"@
    } else if d == 4 {
        "4"@
    } else if d == 5 {
        "5"@
    } else if d == 6 {
        "6"@
    } else if d == 7 {
        "7"@
    } else if d == 8 {
        "8"@
    } else {
        "9"@
    }
}

/// The decimal numeral of a natural number, without leading zeros.
pub open spec fn decimal_text(n: nat) -> Seq<char>
    decreases n,
{
    if n < 10 {
        digit_text(n)
    } else {
        decimal_text(n / 10) + digit_text(n % 10)
    }
}

/// The message of an error.
pub open spec fn message_text(error: ParseErrorView) -> Seq<char> {
    match error {
        ParseErrorView::UnexpectedToken { position, expected, got } => "Unexpected token at position "@
            + decimal_text(position as nat) + ": expected "@ + expected + ", got "@ + got,
        ParseErrorView::UnclosedDelimiter { delimiter, start } => "Unclosed "@ + delimiter
            + " delimiter starting at position "@ + decimal_text(start as nat),
        ParseErrorView::InvalidStructure { message } => "Invalid structure: "@ + message,
        ParseErrorView::UnexpectedEOF { context } => "Unexpected end of input: "@ + context,
    }
}

fn digit(d: usize) -> (text: &'static str)
    requires
        d < 10,
    ensures
        text@ == digit_text(d as nat),
{
    if d == 0 {
        "0"
    } else if d == 1 {
        "1"
    } else if d == 2 {
        "2"
    } else if d == 3 {
        "3"
    } else if d == 4 {
        "4"
    } else if d == 5 {
        "5"
    } else if d == 6 {
        "6"
    } else if d == 7 {
        "7"
    } else if d == 8 {
        "8"
    } else {
        "9"
    }
}

/// Writes a number as a decimal numeral.
pub fn decimal(n: usize) -> (text: String)
    ensures
        text@ == decimal_text(n as nat),
    decreases n,
{
    if n < 10 {
        String::from_str(digit(n))
    } else {
        let mut text = decimal(n / 10);
        text.append(digit(n % 10));
        text
    }
}

impl ParseError {
    /// The message of the error, as one line of text.
    pub fn to_string(&self) -> (text: String)
        ensures
            text@ == message_text(self@),
    {
        match self {
            ParseError::UnexpectedToken { position, expected, got } => {
                let mut text = String::from_str("Unexpected token at position ");
                let number = decimal(*position);
                text.append(number.as_str());
                text.append(": expected ");
                text.append(expected.as_str());
                text.append(", got ");
                text.append(got.as_str());
                text
            },
            ParseError::UnclosedDelimiter { delimiter, start } => {
                let mut text = String::from_str("Unclosed ");
                text.append(delimiter.as_str());
                text.append(" delimiter starting at position ");
                let number = decimal(*start);
                text.append(number.as_str());
                text
            },
            ParseError::InvalidStructure { message } => {
                let mut text = String::from_str("Invalid structure: ");
                text.append(message.as_str());
                text
            },
            ParseError::UnexpectedEOF { context } => {
                let mut text = String::from_str("Unexpected end of input: ");
                text.append(context.as_str());
                text
            },
        }
    }
}

/// Collector of the errors met during one parse, in the order they were met.
#[derive(Debug)]
pub struct ErrorRecovery {
    errors: Vec<ParseError>,
}

impl View for ErrorRecovery {
    type V = Seq<ParseErrorView>;

    closed spec fn view(&self) -> Seq<ParseErrorView> {
        error_views(self.errors@)
    }
}

impl ErrorRecovery {
    /// Creates a collector that holds no error.
    pub fn new() -> (recovery: ErrorRecovery)
        ensures
            recovery@ == Seq::<ParseErrorView>::empty(),
    {
        let recovery = ErrorRecovery { errors: Vec::new() };
        assert(recovery@ =~= Seq::<ParseErrorView>::empty());
        recovery
    }

    /// Records an error behind those already recorded.
    pub fn record_error(&mut self, error: ParseError)
        ensures
            final(self)@ == old(self)@.push(error@),
    {
        self.errors.push(error);
        assert(self@ =~= old(self)@.push(error@));
    }

    /// Gets all collected errors, in the order they were recorded.
    pub fn errors(&self) -> (errors: &[ParseError])
        ensures
            error_views(errors@) == self@,
    {
        self.errors.as_slice()
    }

    /// Checks if any errors were collected.
    pub fn has_errors(&self) -> (b: bool)
        ensures
            b == (self@.len() > 0),
    {
        !self.errors.is_empty()
    }

    /// Hands out the collected errors, in the order they were recorded.
    pub fn into_errors(self) -> (errors: Vec<ParseError>)
        ensures
            error_views(errors@) == self@,
    {
        self.errors
    }
}

impl Default for ErrorRecovery {
    fn default() -> (recovery: ErrorRecovery)
        ensures
            recovery@ == Seq::<ParseErrorView>::empty(),
    {
        ErrorRecovery::new()
    }
}

} // verus!
