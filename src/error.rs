//! Failures of decoding, with their mathematical counterparts.
use vstd::prelude::*;

use crate::buf_utils::CursorError;

verus! {

/// Why one directory-listing record could not be read.
#[derive(Debug, Clone, Copy, PartialEq, Eq, Structural)]
pub enum EntryError {
    /// A field ran past the end of the listing.
    Cursor(CursorError),
    /// The mode field is not an octal number that fits in 32 bits.
    InvalidMode,
    /// The name field is not valid UTF-8.
    InvalidName,
}

/// A field of an object's header.
#[derive(Debug, Clone, Copy, PartialEq, Eq, Structural)]
pub enum HeaderField {
    /// The type tag, before the space.
    Tag,
    /// The declared size, before the NUL.
    Size,
}

/// Why a directory listing could not be read: the record that failed, by the
/// offset in the listing at which it starts, and what went wrong in it.
#[derive(Debug, Clone, Copy, PartialEq, Eq, Structural)]
pub struct TreeError {
    pub offset: usize,
    pub error: EntryError,
}

/// Why an object or an identifier could not be decoded.
#[derive(Debug, PartialEq, Eq)]
pub enum ObjectError {
    /// A header field ran past the end of the buffer, or is not text.
    Header(HeaderField, CursorError),
    /// The declared size is not a decimal number that fits in 64 bits.
    MalformedHeader,
    /// The type tag names no supported kind of object.
    UnknownObjectType(String),
    /// The body is not as long as the header declares.
    SizeMismatch,
    /// A record of a directory listing is malformed or cut short.
    IncompleteTreeEntry(TreeError),
    /// A hexadecimal identifier does not have 40 digits.
    InvalidHexLength,
    /// A hexadecimal identifier holds a character that is no hex digit.
    InvalidHexDigit,
}

/// `ObjectError` with its text as a sequence of characters.
pub enum ObjectErrorView {
    Header(HeaderField, CursorError),
    MalformedHeader,
    UnknownObjectType(Seq<char>),
    SizeMismatch,
    IncompleteTreeEntry(int, EntryError),
    InvalidHexLength,
    InvalidHexDigit,
}

impl View for ObjectError {
    type V = ObjectErrorView;

    open spec fn view(&self) -> ObjectErrorView {
        match self {
            ObjectError::Header(h, e) => ObjectErrorView::Header(*h, *e),
            ObjectError::MalformedHeader => ObjectErrorView::MalformedHeader,
            ObjectError::UnknownObjectType(t) => ObjectErrorView::UnknownObjectType(t@),
            ObjectError::SizeMismatch => ObjectErrorView::SizeMismatch,
            ObjectError::IncompleteTreeEntry(t) => ObjectErrorView::IncompleteTreeEntry(
                t.offset as int,
                t.error,
            ),
            ObjectError::InvalidHexLength => ObjectErrorView::InvalidHexLength,
            ObjectError::InvalidHexDigit => ObjectErrorView::InvalidHexDigit,
        }
    }
}

} // verus!
