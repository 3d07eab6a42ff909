//! Implementation of the Vigenere cipher
//!
//! If _P_ is the plain text, _C_ the cipher text and _K_ the key,
//! then abstractly speaking, enciphering is:
//!
//! `C = P + K`
//!
//! And deciphering is:
//!
//! `P = C - K`
//!
//! This is the plain form of the cipher, byte by byte: it insists on a key.

use vstd::prelude::*;
use vstd::arithmetic::div_mod::lemma_mod_bound;
use crate::common::{
    as_chars, bytes_of, format_output, formatted, is_upper, key_fits, letter_difference,
    letter_sum, sanitize_text, sanitized, AsciiUppercaseByte, FIRST_LETTER, LAST_LETTER,
};
use crate::errors::Error;
use crate::vigenere_standard::{deciphered, enciphered, lemma_next_place};

verus! {

/// Encipher `plain_text` with the Vigenere cipher under the key `key`
///
/// Whatever is no letter is dropped from both, and lower case is raised.
/// Fails with `InvalidKey` when the key holds no letter and the text holds
/// one.
pub fn encipher(key: &[u8], plain_text: &[u8]) -> (result: Result<String, Error>)
    ensures
        key_fits(key@, plain_text@) ==> (result matches Ok(text) && text@ == as_chars(
            formatted(enciphered(sanitized(key@), sanitized(plain_text@))),
        )),
        !key_fits(key@, plain_text@) ==> (result matches Err(Error::InvalidKey)),
{
    let key = sanitize_text(key);
    let plain_text = sanitize_text(plain_text);

    if key.len() == 0 {
        if plain_text.len() == 0 {
            return Ok(format_output(plain_text));
        }
        return Err(Error::InvalidKey);
    }
    let mut key_counter = 0usize;
    let mut plain_text_counter = 0usize;

    let mut cipher_letters: Vec<AsciiUppercaseByte> = Vec::new();

    while plain_text_counter < plain_text.len()
        invariant
            plain_text_counter <= plain_text@.len(),
            0 < key@.len(),
            key_counter == (plain_text_counter as int) % (key@.len() as int),
            cipher_letters@.len() == plain_text_counter,
            forall|i: int|
                0 <= i < plain_text_counter ==> (#[trigger] cipher_letters@[i])@ == letter_sum(
                    plain_text@[i]@,
                    key@[i % (key@.len() as int)]@,
                ),
        decreases plain_text@.len() - plain_text_counter,
    {
        proof {
            lemma_mod_bound(plain_text_counter as int, key@.len() as int);
            lemma_next_place(plain_text_counter as int, key@.len() as int);
        }
        let c = match _encipher_ascii_byte(
            plain_text[plain_text_counter].get_byte(),
            key[key_counter].get_byte(),
        ) {
            Ok(c) => c,
            Err(error) => {
                return Err(error);
            },
        };
        match AsciiUppercaseByte::try_from(c) {
            Ok(letter) => {
                cipher_letters.push(letter);
            },
            Err(error) => {
                return Err(error);
            },
        }

        key_counter = (key_counter + 1) % key.len();
        plain_text_counter += 1;
    }
    assert(bytes_of(cipher_letters@) =~= enciphered(bytes_of(key@), bytes_of(plain_text@)));

    Ok(format_output(cipher_letters))
}

/// Decipher `cipher_text` with the Vigenere cipher under the key `key`
///
/// Whatever is no letter is dropped from both, and lower case is raised.
/// Fails with `InvalidKey` when the key holds no letter and the text holds
/// one.
pub fn decipher(key: &[u8], cipher_text: &[u8]) -> (result: Result<String, Error>)
    ensures
        key_fits(key@, cipher_text@) ==> (result matches Ok(text) && text@ == as_chars(
            formatted(deciphered(sanitized(key@), sanitized(cipher_text@))),
        )),
        !key_fits(key@, cipher_text@) ==> (result matches Err(Error::InvalidKey)),
{
    let key = sanitize_text(key);
    let cipher_text = sanitize_text(cipher_text);

    if key.len() == 0 {
        if cipher_text.len() == 0 {
            return Ok(format_output(cipher_text));
        }
        return Err(Error::InvalidKey);
    }
    let mut key_counter = 0usize;
    let mut cipher_text_counter = 0usize;

    let mut plain_letters: Vec<AsciiUppercaseByte> = Vec::new();

    while cipher_text_counter < cipher_text.len()
        invariant
            cipher_text_counter <= cipher_text@.len(),
            0 < key@.len(),
            key_counter == (cipher_text_counter as int) % (key@.len() as int),
            plain_letters@.len() == cipher_text_counter,
            forall|i: int|
                0 <= i < cipher_text_counter ==> (#[trigger] plain_letters@[i])@
                    == letter_difference(cipher_text@[i]@, key@[i % (key@.len() as int)]@),
        decreases cipher_text@.len() - cipher_text_counter,
    {
        proof {
            lemma_mod_bound(cipher_text_counter as int, key@.len() as int);
            lemma_next_place(cipher_text_counter as int, key@.len() as int);
        }
        let p = match _decipher_ascii_byte(
            cipher_text[cipher_text_counter].get_byte(),
            key[key_counter].get_byte(),
        ) {
            Ok(p) => p,
            Err(error) => {
                return Err(error);
            },
        };
        match AsciiUppercaseByte::try_from(p) {
            Ok(letter) => {
                plain_letters.push(letter);
            },
            Err(error) => {
                return Err(error);
            },
        }

        key_counter = (key_counter + 1) % key.len();
        cipher_text_counter += 1;
    }
    assert(bytes_of(plain_letters@) =~= deciphered(bytes_of(key@), bytes_of(cipher_text@)));

    Ok(format_output(plain_letters))
}

/// Adds the key letter to one byte of the plain text; a byte that is no
/// letter is refused with an `EncipheringError`.
pub fn _encipher_ascii_byte(plain_char: u8, key: u8) -> (result: Result<u8, Error>)
    requires
        is_upper(key),
    ensures
        is_upper(plain_char) ==> result == Ok::<u8, Error>(letter_sum(plain_char, key)),
        is_upper(plain_char) ==> is_upper(letter_sum(plain_char, key)),
        !is_upper(plain_char) ==> (result matches Err(Error::EncipheringError(message))
            && message@ == "fatal: not an alphabetic character"@),
{
    if plain_char >= FIRST_LETTER && plain_char <= LAST_LETTER {
        let p = plain_char - FIRST_LETTER;
        let k = key - FIRST_LETTER;
        let c = (p + k) % 26;
        Ok(c + FIRST_LETTER)
    } else {
        Err(Error::EncipheringError(String::from_str("fatal: not an alphabetic character")))
    }
}

/// Subtracts the key letter from one byte of the cipher text; a byte that is
/// no letter is refused, with an `EncipheringError` as in the other direction.
pub fn _decipher_ascii_byte(cipher_char: u8, key: u8) -> (result: Result<u8, Error>)
    requires
        is_upper(key),
    ensures
        is_upper(cipher_char) ==> result == Ok::<u8, Error>(letter_difference(cipher_char, key)),
        is_upper(cipher_char) ==> is_upper(letter_difference(cipher_char, key)),
        !is_upper(cipher_char) ==> (result matches Err(Error::EncipheringError(message))
            && message@ == "fatal: not an alphabetic character"@),
{
    if cipher_char >= FIRST_LETTER && cipher_char <= LAST_LETTER {
        let c = cipher_char - FIRST_LETTER;
        let k = 26 - (key - FIRST_LETTER);  // avoids signed arithmetic
        let p = (c + k) % 26;
        Ok(p + FIRST_LETTER)
    } else {
        Err(Error::EncipheringError(String::from_str("fatal: not an alphabetic character")))
    }
}

} // verus!
