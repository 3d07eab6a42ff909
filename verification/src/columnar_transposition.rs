//! # Columnar transposition
//!
//! The cipher of [`crate::column_transposition`] under the name by which most
//! books know it. The message is written into a set number of columns, the
//! columns are re-arranged in the manner that the key defines, and the cipher
//! text is read out column by column.
//!
//! With the key `2 0 1` and the message `ATTACK AT DAWN`:
//!
//! ```text
//! 2  0  1
//! -------
//! A  T  T
//! A  C  K
//! A  T  D
//! A  W  N
//! ```
//!
//! the cipher text is `TCTWT KDNAA AA`.

use vstd::prelude::*;
use crate::column_transposition;
use crate::column_transposition::{deciphered_text, enciphered_text};
use crate::common::{as_chars, bytes_of, key_fits, AsciiUppercaseByte};
use crate::errors::Error;
use crate::key::{ascending, identity_key, is_permutation, key_of};

verus! {

/// Enciphers `plain_text` with `key_phrase` using regular columnar transposition
pub fn encipher(key_phrase: &[u8], plain_text: &[u8]) -> (result: Result<String, Error>)
    ensures
        key_fits(key_phrase@, plain_text@) ==> (result matches Ok(text) && text@ == as_chars(
            enciphered_text(key_phrase@, plain_text@),
        )),
        !key_fits(key_phrase@, plain_text@) ==> (result matches Err(Error::InvalidKey)),
{
    column_transposition::encipher(key_phrase, plain_text)
}

/// Deciphers `cipher_text` with `key_phrase` using regular columnar transposition
pub fn decipher(key_phrase: &[u8], cipher_text: &[u8]) -> (result: Result<String, Error>)
    ensures
        key_fits(key_phrase@, cipher_text@) ==> (result matches Ok(text) && text@ == as_chars(
            deciphered_text(key_phrase@, cipher_text@),
        )),
        !key_fits(key_phrase@, cipher_text@) ==> (result matches Err(Error::InvalidKey)),
{
    column_transposition::decipher(key_phrase, cipher_text)
}

/// Create a columnar transposition key out of a key phrase
///
/// The key is created by "counting off" the letters in the key phrase in the
/// order of their values; a letter that occurs twice is counted twice, the
/// left one first.
pub fn create_key(key_phrase: &[AsciiUppercaseByte]) -> (key: Vec<usize>)
    ensures
        key@ == key_of(bytes_of(key_phrase@)),
        is_permutation(key@),
        key@.sort_by(ascending()) == identity_key(key_phrase@.len()),
{
    column_transposition::create_key(key_phrase)
}

} // verus!
