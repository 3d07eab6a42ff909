//! The failures that the ciphers report, and what each has to say.

use vstd::prelude::*;
use crate::common::as_chars;
use crate::text::{append_decimal, character_text, decimal};

verus! {

/// Why an operation of this crate did not produce a result.
#[derive(Debug)]
pub enum Error {
    /// A byte outside `A`-`Z` reached a step that works on letters only.
    EncipheringError(String),
    /// A failure while deciphering. No operation of this crate reports it at
    /// present; it is here for callers that tell the two directions apart.
    DecipheringError(String),
    /// The byte held here does not lie in `A`-`Z`, so it is no letter.
    AsciiUppercaseError(u8),
    /// An empty key was paired with a text that is not empty.
    InvalidKey,
}

/// What an error has to say for itself: `Error: ` and then the text that the
/// error carries, or for a byte that is no letter its number and its
/// character, or for an unusable key a sentence that says so.
pub open spec fn message_text(error: Error) -> Seq<char> {
    match error {
        Error::EncipheringError(text) => "Error: "@ + text@,
        Error::DecipheringError(text) => "Error: "@ + text@,
        Error::AsciiUppercaseError(value) => "Error: Byte "@ + as_chars(decimal(value as nat))
            + " ("@ + seq![value as char] + ") not in in range A-Z"@,
        Error::InvalidKey => "Error: an empty key cannot be used on a text that holds a letter"@,
    }
}

impl Error {
    /// The message of the error, as it is shown to a user.
    pub fn message(&self) -> (text: String)
        ensures
            text@ == message_text(*self),
    {
        match self {
            Error::EncipheringError(reason) => {
                let mut text = String::from_str("Error: ");
                text.append(reason.as_str());
                text
            },
            Error::DecipheringError(reason) => {
                let mut text = String::from_str("Error: ");
                text.append(reason.as_str());
                text
            },
            Error::AsciiUppercaseError(value) => {
                let mut text = String::from_str("Error: Byte ");
                append_decimal(&mut text, *value as usize);
                text.append(" (");
                text.append(character_text(*value));
                text.append(") not in in range A-Z");
                assert(text@ =~= message_text(*self));
                text
            },
            Error::InvalidKey => String::from_str(
                "Error: an empty key cannot be used on a text that holds a letter",
            ),
        }
    }
}

} // verus!
