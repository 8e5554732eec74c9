//! The ways in which loading a dictionary or parsing a query can fail.

use vstd::prelude::*;

verus! {

/// What went wrong.
#[derive(Clone, Copy, Debug, PartialEq, Eq, Structural)]
pub enum ErrorKind {
    /// The input holds nothing but whitespace.
    NoData,
    /// The input ended where more was expected.
    DataIncomplete,
    /// A required byte was expected and another one was found.
    UnexpectedByte,
    /// A required byte was expected and the input had ended.
    UnexpectedEnd,
    /// The input ended inside a string.
    UnterminatedString,
    /// A stroke string holds a backslash.
    EscapeInStrokes,
    /// A stroke string holds more than a thousand strokes.
    TooManyStrokes,
    /// A record or a table entry does not fit its 16-bit length header.
    EntryTooLong,
    /// The tables do not fit the 32-bit offsets that link them.
    ImageTooLarge,
    /// A stroke query does not fit the buffer it is parsed into.
    QueryTooLong,
}

/// An error, as handed to the host: its kind, a message for everyone and
/// details for whoever looks closer.
#[derive(Clone, Copy, Debug, PartialEq, Eq, Structural)]
pub struct InternalError {
    pub kind: ErrorKind,
}

/// Whether an error of this kind says that the text is no dictionary.
pub open spec fn is_parser_error(kind: ErrorKind) -> bool {
    kind == ErrorKind::NoData || kind == ErrorKind::DataIncomplete || kind
        == ErrorKind::UnexpectedByte || kind == ErrorKind::UnexpectedEnd || kind
        == ErrorKind::UnterminatedString || kind == ErrorKind::EscapeInStrokes
}

/// The message of an error of this kind.
pub open spec fn message_of(kind: ErrorKind) -> Seq<char> {
    if is_parser_error(kind) {
        "Sorry, we couldn't load your dictionary because we don't understand its formatting."@
    } else if kind == ErrorKind::QueryTooLong {
        "parse strokes error"@
    } else {
        "I'm sorry, but we can't handle your dictionary."@
    }
}

/// The details of an error of this kind.
pub open spec fn details_of(kind: ErrorKind) -> Seq<char> {
    match kind {
        ErrorKind::NoData => "Parser error: no data found"@,
        ErrorKind::DataIncomplete => "Parser error: data incomplete"@,
        ErrorKind::UnexpectedByte => "Parser error: expected '$', but got '$'"@,
        ErrorKind::UnexpectedEnd => "Parser error: expected '$', but hit the end of data"@,
        ErrorKind::UnterminatedString => "Parser error: data ended in the middle of string"@,
        ErrorKind::EscapeInStrokes => "Parser error: escape sequence found in stroke definition"@,
        ErrorKind::TooManyStrokes => "There is nothing wrong with it, except that one definition uses more than a thousand strokes, which is not something we can currently deal with."@,
        ErrorKind::EntryTooLong => "There is nothing wrong with it, except that it has at least one really reaaallly long entry, and this is not something that our internal format can deal with."@,
        ErrorKind::ImageTooLarge => "There is nothing wrong with it, except that it is too large for the offsets of our internal format."@,
        ErrorKind::QueryTooLong => "strokes don't fit in provided buffer"@,
    }
}

impl InternalError {
    /// The error of the kind given.
    pub fn new(kind: ErrorKind) -> (e: InternalError)
        ensures
            e.kind == kind,
    {
        InternalError { kind }
    }

    /// The part of the error that is meant to be simple.
    pub fn message(&self) -> (text: &'static str)
        ensures
            text@ == message_of(self.kind),
    {
        match self.kind {
            ErrorKind::NoData
            | ErrorKind::DataIncomplete
            | ErrorKind::UnexpectedByte
            | ErrorKind::UnexpectedEnd
            | ErrorKind::UnterminatedString
            | ErrorKind::EscapeInStrokes => "Sorry, we couldn't load your dictionary because we don't understand its formatting.",
            ErrorKind::QueryTooLong => "parse strokes error",
            _ => "I'm sorry, but we can't handle your dictionary.",
        }
    }

    /// The part of the error that says more precisely what went wrong.
    pub fn details(&self) -> (text: &'static str)
        ensures
            text@ == details_of(self.kind),
    {
        match self.kind {
            ErrorKind::NoData => "Parser error: no data found",
            ErrorKind::DataIncomplete => "Parser error: data incomplete",
            ErrorKind::UnexpectedByte => "Parser error: expected '$', but got '$'",
            ErrorKind::UnexpectedEnd => "Parser error: expected '$', but hit the end of data",
            ErrorKind::UnterminatedString => "Parser error: data ended in the middle of string",
            ErrorKind::EscapeInStrokes => "Parser error: escape sequence found in stroke definition",
            ErrorKind::TooManyStrokes => "There is nothing wrong with it, except that one definition uses more than a thousand strokes, which is not something we can currently deal with.",
            ErrorKind::EntryTooLong => "There is nothing wrong with it, except that it has at least one really reaaallly long entry, and this is not something that our internal format can deal with.",
            ErrorKind::ImageTooLarge => "There is nothing wrong with it, except that it is too large for the offsets of our internal format.",
            ErrorKind::QueryTooLong => "strokes don't fit in provided buffer",
        }
    }
}

} // verus!
