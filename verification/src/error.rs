//! Why reading a document fails.

use vstd::prelude::*;
use vstd::utf8::encode_utf8;

use crate::bytes::{occurs_at, starts_with_at};

verus! {

/// Why reading a document fails.
#[derive(Clone, Debug)]
pub enum Error {
    /// The input is not valid UTF-8.
    Utf8,
    /// The plan is not valid or does not fit.
    Plan(String),
    /// Two chunks do not go together.
    Merge(String),
    /// The input cannot be read.
    Io(String),
    /// The table cannot be built.
    Arrow(String),
}

/// The kind of failure that a caller sees.
#[derive(Clone, Copy, Debug, PartialEq, Eq, Structural)]
pub enum ErrorClass {
    Xml,
    Plan,
    Merge,
    Io,
    Other,
}

/// The text starts with `prefix`.
pub open spec fn starts_with(text: Seq<char>, prefix: Seq<char>) -> bool {
    occurs_at(encode_utf8(text), encode_utf8(prefix), 0)
}

/// A text with another one before it.
fn prefixed(prefix: &str, text: &str) -> (whole: String)
    ensures
        whole@ == prefix@ + text@,
{
    let mut whole = prefix.to_string();
    whole.append(text);
    whole
}

impl Error {
    /// The kind of failure that a caller sees, and its message.
    pub open spec fn reported(self) -> (ErrorClass, Seq<char>) {
        match self {
            Error::Utf8 => (
                ErrorClass::Xml,
                "Columnar parse error: "@ + "invalid UTF-8: invalid utf-8 sequence"@,
            ),
            Error::Plan(message) => if starts_with(message@, "XML parse error"@) || starts_with(
                message@,
                "invalid UTF-8"@,
            ) {
                (ErrorClass::Xml, "Columnar parse error: "@ + message@)
            } else {
                (ErrorClass::Plan, message@)
            },
            Error::Merge(message) => (ErrorClass::Merge, message@),
            Error::Io(message) => (ErrorClass::Io, message@),
            Error::Arrow(message) => (ErrorClass::Other, "Arrow error: "@ + message@),
        }
    }

    /// The kind of failure that a caller sees, and its message.
    pub fn report(&self) -> (seen: (ErrorClass, String))
        ensures
            (seen.0, seen.1@) == self.reported(),
    {
        match self {
            Error::Utf8 => (
                ErrorClass::Xml,
                prefixed("Columnar parse error: ", "invalid UTF-8: invalid utf-8 sequence"),
            ),
            Error::Plan(message) => {
                let text = message.as_str().as_bytes();
                if starts_with_at(text, "XML parse error".as_bytes(), 0) || starts_with_at(
                    text,
                    "invalid UTF-8".as_bytes(),
                    0,
                ) {
                    (ErrorClass::Xml, prefixed("Columnar parse error: ", message.as_str()))
                } else {
                    (ErrorClass::Plan, message.clone())
                }
            },
            Error::Merge(message) => (ErrorClass::Merge, message.clone()),
            Error::Io(message) => (ErrorClass::Io, message.clone()),
            Error::Arrow(message) => (
                ErrorClass::Other,
                prefixed("Arrow error: ", message.as_str()),
            ),
        }
    }
}

} // verus!
