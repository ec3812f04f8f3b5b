//! The ways in which decoding fails.

use vstd::prelude::*;

verus! {

/// Where, and how, bytes stop being UTF-8.
#[derive(Clone, Copy, Debug, PartialEq, Eq, Structural)]
pub struct Utf8Fault {
    /// The number of leading bytes that are UTF-8; no longer prefix is.
    pub valid_up_to: usize,
    /// The length of the invalid sequence that starts there, or `None` where
    /// the bytes break off within a character.
    pub error_len: Option<usize>,
}

/// Where, and how, a byte sequence stopped being acceptable.
#[derive(Clone, Copy, Debug, PartialEq, Eq, Structural)]
pub enum EncodingCause {
    /// The input is not UTF-8.
    InvalidUtf8(Utf8Fault),
    /// The byte at `offset` of the input is a `%` that two hexadecimal digits
    /// do not follow.
    InvalidEscape { offset: usize },
    /// A name or value does not stand for UTF-8 once its escapes are
    /// resolved. The fault is that of the bytes it stands for.
    InvalidDecoded(Utf8Fault),
}

/// Error type for reporting decoding errors.
#[derive(Clone, Copy, Debug, PartialEq, Eq, Structural)]
pub enum UrlDecodingError {
    /// The input, or a name or value after percent-decoding, is not text.
    EncodingError(EncodingCause),
    /// An empty query string or body was found.
    EmptyQuery,
}

impl UrlDecodingError {
    /// What kind of error this is, whichever it is.
    pub fn description(&self) -> (r: &'static str)
        ensures
            r@ == "Error decoding a UrlEncoded query or body"@,
    {
        "Error decoding a UrlEncoded query or body"
    }

    /// What went wrong, in words.
    pub fn message(&self) -> (r: &'static str)
        ensures
            r@ == match *self {
                UrlDecodingError::EncodingError(_) => "Invalid query string"@,
                UrlDecodingError::EmptyQuery => "An emppty query string was found"@,
            },
    {
        match self {
            UrlDecodingError::EncodingError(_) => "Invalid query string",
            UrlDecodingError::EmptyQuery => "An emppty query string was found",
        }
    }

    /// The underlying encoding fault, if that is what went wrong.
    pub fn cause(&self) -> (r: Option<EncodingCause>)
        ensures
            r == match *self {
                UrlDecodingError::EncodingError(c) => Some(c),
                UrlDecodingError::EmptyQuery => None,
            },
    {
        match self {
            UrlDecodingError::EncodingError(c) => Some(*c),
            UrlDecodingError::EmptyQuery => None,
        }
    }
}

} // verus!
