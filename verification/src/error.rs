//! The ways in which parsing fails.

use vstd::prelude::*;

verus! {

/// Why a parse stopped. Positions are byte offsets into the input.
#[derive(Debug, PartialEq, Eq)]
pub enum ParseError {
    /// The byte at `position` is `found` where `expected` had to stand.
    UnexpectedToken { expected: u8, found: u8, position: usize },
    /// The input ended at `position`, where more bytes were needed.
    UnexpectedEOF { position: usize },
    /// Inside a tag header, the byte at `position` stands where `=` or an
    /// opening `"` of an attribute had to stand.
    MalformedAttribute { position: usize },
    /// A tag header has no name: the byte at `position`, right after `<`, is
    /// a space or `>`.
    EmptyTagName { position: usize },
    /// A closing tag names `closed` where the open element is `opened`.
    MismatchedClosingTag { opened: String, closed: String },
}

/// The mathematical model of a [`ParseError`]: positions as integers, names as bytes.
pub enum ParseErrorView {
    UnexpectedToken { expected: u8, found: u8, position: int },
    UnexpectedEOF { position: int },
    MalformedAttribute { position: int },
    EmptyTagName { position: int },
    MismatchedClosingTag { opened: Seq<u8>, closed: Seq<u8> },
}

impl View for ParseError {
    type V = ParseErrorView;

    open spec fn view(&self) -> ParseErrorView {
        match *self {
            ParseError::UnexpectedToken { expected, found, position } => ParseErrorView::UnexpectedToken {
                expected,
                found,
                position: position as int,
            },
            ParseError::UnexpectedEOF { position } => ParseErrorView::UnexpectedEOF {
                position: position as int,
            },
            ParseError::MalformedAttribute { position } => ParseErrorView::MalformedAttribute {
                position: position as int,
            },
            ParseError::EmptyTagName { position } => ParseErrorView::EmptyTagName {
                position: position as int,
            },
            ParseError::MismatchedClosingTag { opened, closed } => ParseErrorView::MismatchedClosingTag {
                opened: vstd::utf8::encode_utf8(opened@),
                closed: vstd::utf8::encode_utf8(closed@),
            },
        }
    }
}

} // verus!
