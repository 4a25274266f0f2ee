//! The ways a request can fail.

use vstd::prelude::*;
use vstd::string::StringExecFns;

verus! {

/// Why a request failed. Every error ends the request it belongs to; the
/// text is meant for the person in front of the screen.
#[derive(Debug, PartialEq, Eq)]
pub enum EngineError {
    /// A file could not be read.
    Io(String),
    /// The bytes are not an image of a supported format.
    Decode(String),
    /// Pixel data does not fill its width and height, or is too large.
    Buffer(String),
    /// An image could not be written as PNG.
    Encode(String),
    /// The cache lock could not be taken.
    Lock(String),
}

impl EngineError {
    /// The text of the error.
    pub fn message(&self) -> (text: String)
        ensures
            text@ == self.text(),
    {
        match self {
            EngineError::Io(text) => text.clone(),
            EngineError::Decode(text) => text.clone(),
            EngineError::Buffer(text) => text.clone(),
            EngineError::Encode(text) => text.clone(),
            EngineError::Lock(text) => text.clone(),
        }
    }

    /// The same kind of error with a text put in front of its text.
    pub fn prefixed(self, prefix: &str) -> (out: EngineError)
        ensures
            out.text() == prefix@ + self.text(),
            self is Io == out is Io,
            self is Decode == out is Decode,
            self is Buffer == out is Buffer,
            self is Encode == out is Encode,
            self is Lock == out is Lock,
    {
        match self {
            EngineError::Io(text) => EngineError::Io(String::from_str(prefix).concat(text.as_str())),
            EngineError::Decode(text) => EngineError::Decode(
                String::from_str(prefix).concat(text.as_str()),
            ),
            EngineError::Buffer(text) => EngineError::Buffer(
                String::from_str(prefix).concat(text.as_str()),
            ),
            EngineError::Encode(text) => EngineError::Encode(
                String::from_str(prefix).concat(text.as_str()),
            ),
            EngineError::Lock(text) => EngineError::Lock(
                String::from_str(prefix).concat(text.as_str()),
            ),
        }
    }

    /// The text of the error, as a sequence of characters.
    pub open spec fn text(&self) -> Seq<char> {
        match self {
            EngineError::Io(text) => text@,
            EngineError::Decode(text) => text@,
            EngineError::Buffer(text) => text@,
            EngineError::Encode(text) => text@,
            EngineError::Lock(text) => text@,
        }
    }
}

} // verus!
