//! Implementation of the standard Vigenere cipher
//!
//! If _P_ is the plain text, _C_ the cipher text and _K_ the key, repeated
//! until it is as long as the text, then enciphering is
//!
//! `C = P + K`
//!
//! and deciphering is
//!
//! `P = C - K`
//!
//! letter by letter, where letters are added by their places in the alphabet.

use vstd::prelude::*;
use vstd::arithmetic::div_mod::{
    lemma_add_mod_noop, lemma_fundamental_div_mod_converse, lemma_mod_bound, lemma_mod_twice,
};
use crate::common::{
    all_upper, as_chars, bytes_of, format_output, formatted, is_upper, letter_difference,
    letter_sum, sanitize_text, sanitized, AsciiUppercaseByte,
};
use crate::errors::Error;

verus! {

/// The key stream: `key`, repeated over and over and cut off after `len`
/// letters.
pub open spec fn repeated<T>(key: Seq<T>, len: nat) -> Seq<T> {
    Seq::new(len, |i: int| key[i % (key.len() as int)])
}

/// The sums of the letters of `left` and `right`, place by place.
pub open spec fn letter_sums(left: Seq<u8>, right: Seq<u8>) -> Seq<u8> {
    Seq::new(left.len(), |i: int| letter_sum(left[i], right[i]))
}

/// The differences of the letters of `left` and `right`, place by place.
pub open spec fn letter_differences(left: Seq<u8>, right: Seq<u8>) -> Seq<u8> {
    Seq::new(left.len(), |i: int| letter_difference(left[i], right[i]))
}

/// The letters of the cipher text: without a key the text itself, else the
/// text with the key stream added.
pub open spec fn enciphered(key: Seq<u8>, plain_text: Seq<u8>) -> Seq<u8> {
    if key.len() == 0 {
        plain_text
    } else {
        letter_sums(plain_text, repeated(key, plain_text.len()))
    }
}

/// The letters of the plain text: without a key the text itself, else the
/// text with the key stream subtracted.
pub open spec fn deciphered(key: Seq<u8>, cipher_text: Seq<u8>) -> Seq<u8> {
    if key.len() == 0 {
        cipher_text
    } else {
        letter_differences(cipher_text, repeated(key, cipher_text.len()))
    }
}

/// Encipher `plain_text` with the Vigenere cipher under the key `key`
///
/// Whatever is no letter is dropped from both, and lower case is raised. A
/// key without a letter leaves the text as it is.
pub fn encipher(key: &[u8], plain_text: &[u8]) -> (result: Result<String, Error>)
    ensures
        result matches Ok(text) && text@ == as_chars(
            formatted(enciphered(sanitized(key@), sanitized(plain_text@))),
        ),
{
    let key = sanitize_text(key);

    let plain_text = sanitize_text(plain_text);

    // If no key was passed, we don't encrypt
    if key.len() == 0 {
        return Ok(format_output(plain_text));
    }
    let ghost key_letters = key@;
    let key = repeat_key(key, plain_text.len());

    let cipher_letters = add_bytes(plain_text.as_slice(), key.as_slice());
    proof {
        assert(bytes_of(key@) =~= repeated(bytes_of(key_letters), plain_text@.len()));
    }

    Ok(format_output(cipher_letters))
}

/// Decipher `cipher_text` with the Vigenere cipher under the key `key`
///
/// Whatever is no letter is dropped from both, and lower case is raised. A
/// key without a letter leaves the text as it is.
pub fn decipher(key: &[u8], cipher_text: &[u8]) -> (result: Result<String, Error>)
    ensures
        result matches Ok(text) && text@ == as_chars(
            formatted(deciphered(sanitized(key@), sanitized(cipher_text@))),
        ),
{
    let key = sanitize_text(key);

    let cipher_text = sanitize_text(cipher_text);

    // If no key was passed, we don't decrypt
    if key.len() == 0 {
        return Ok(format_output(cipher_text));
    }
    let ghost key_letters = key@;
    let key = repeat_key(key, cipher_text.len());

    let plain_letters = subtract_bytes(cipher_text.as_slice(), key.as_slice());
    proof {
        assert(bytes_of(key@) =~= repeated(bytes_of(key_letters), cipher_text@.len()));
    }

    Ok(format_output(plain_letters))
}

/// Repeat the key so that its length matches `target_length`
///
/// A key that is too long is cut off. An empty key can be stretched to no
/// length but zero.
pub fn repeat_key(key: Vec<AsciiUppercaseByte>, target_length: usize) -> (stream: Vec<
    AsciiUppercaseByte,
>)
    requires
        key@.len() > 0 || target_length == 0,
    ensures
        stream@ == repeated(key@, target_length as nat),
{
    let mut key = key;
    let ghost pattern = key@;
    proof {
        assert forall|i: int| 0 <= i < pattern.len() implies (#[trigger] pattern[i])
            == pattern[i % (pattern.len() as int)] by {
            lemma_fundamental_div_mod_converse(i, pattern.len() as int, 0, i);
        }
    }
    if target_length == key.len() {
        assert(key@ =~= repeated(pattern, target_length as nat));
        key
    } else if target_length < key.len() {
        key.truncate(target_length);
        assert(key@ =~= repeated(pattern, target_length as nat));
        key
    } else {
        let period = key.len();
        let mut key_counter: usize = 0;
        proof {
            lemma_fundamental_div_mod_converse(period as int, period as int, 1, 0);
        }

        while target_length > key.len()
            invariant
                0 < period == pattern.len(),
                period <= key@.len() <= target_length,
                key_counter == (key@.len() as int) % (period as int),
                forall|i: int| 0 <= i < key@.len() ==> key@[i] == pattern[i % (period as int)],
            decreases target_length - key@.len(),
        {
            proof {
                lemma_mod_bound(key@.len() as int, period as int);
                lemma_next_place(key@.len() as int, period as int);
                lemma_fundamental_div_mod_converse(
                    key_counter as int,
                    period as int,
                    0,
                    key_counter as int,
                );
            }
            let next = key[key_counter];
            key.push(next);
            key_counter = (key_counter + 1) % period;
        }
        assert(key@ =~= repeated(pattern, target_length as nat));
        key
    }
}

/// Going one letter further in the text moves one place further in the key,
/// and from its last place back to its first.
pub(crate) proof fn lemma_next_place(i: int, width: int)
    requires
        0 <= i,
        0 < width,
    ensures
        (i + 1) % width == (i % width + 1) % width,
{
    lemma_add_mod_noop(i, 1, width);
    lemma_mod_twice(i, width);
    if width == 1 {
        lemma_fundamental_div_mod_converse(1, width, 1, 0);
        lemma_fundamental_div_mod_converse(i + 1, width, i + 1, 0);
        lemma_fundamental_div_mod_converse(i, width, i, 0);
    } else {
        lemma_fundamental_div_mod_converse(1, width, 0, 1);
    }
}

/// Adds each element of the `left` Vec to the corresponding element in the `right` Vec
///
/// The two must be of the same length.
pub fn add_bytes(left: &[AsciiUppercaseByte], right: &[AsciiUppercaseByte]) -> (result: Vec<
    AsciiUppercaseByte,
>)
    requires
        left@.len() == right@.len(),
    ensures
        bytes_of(result@) == letter_sums(bytes_of(left@), bytes_of(right@)),
{
    let mut result: Vec<AsciiUppercaseByte> = Vec::new();

    let mut i: usize = 0;
    while i < left.len()
        invariant
            i <= left@.len() == right@.len(),
            result@.len() == i,
            forall|j: int| 0 <= j < i ==> result@[j]@ == letter_sum(left@[j]@, right@[j]@),
        decreases left@.len() - i,
    {
        result.push(left[i] + right[i]);
        i += 1;
    }
    assert(bytes_of(result@) =~= letter_sums(bytes_of(left@), bytes_of(right@)));

    result
}

/// Subtracts each element of the `right` Vec from the `left` Vec
///
/// The two must be of the same length.
pub fn subtract_bytes(left: &[AsciiUppercaseByte], right: &[AsciiUppercaseByte]) -> (result: Vec<
    AsciiUppercaseByte,
>)
    requires
        left@.len() == right@.len(),
    ensures
        bytes_of(result@) == letter_differences(bytes_of(left@), bytes_of(right@)),
{
    let mut result: Vec<AsciiUppercaseByte> = Vec::new();

    let mut i: usize = 0;
    while i < left.len()
        invariant
            i <= left@.len() == right@.len(),
            result@.len() == i,
            forall|j: int|
                0 <= j < i ==> result@[j]@ == letter_difference(left@[j]@, right@[j]@),
        decreases left@.len() - i,
    {
        result.push(left[i] - right[i]);
        i += 1;
    }
    assert(bytes_of(result@) =~= letter_differences(bytes_of(left@), bytes_of(right@)));

    result
}

/// Subtracting a letter undoes adding it, and the sum of two letters is a
/// letter.
pub proof fn lemma_difference_undoes_sum(letter: u8, key: u8)
    requires
        is_upper(letter),
        is_upper(key),
    ensures
        is_upper(letter_sum(letter, key)),
        is_upper(letter_difference(letter, key)),
        letter_difference(letter_sum(letter, key), key) == letter,
        letter_sum(letter_difference(letter, key), key) == letter,
{
}

/// Deciphering undoes enciphering under every key.
pub proof fn lemma_decipher_undoes_encipher(key: Seq<u8>, plain_text: Seq<u8>)
    requires
        all_upper(key),
        all_upper(plain_text),
    ensures
        all_upper(enciphered(key, plain_text)),
        deciphered(key, enciphered(key, plain_text)) == plain_text,
{
    if key.len() > 0 {
        let stream = repeated(key, plain_text.len());
        assert forall|i: int| 0 <= i < plain_text.len() implies is_upper(
            #[trigger] enciphered(key, plain_text)[i],
        ) && deciphered(key, enciphered(key, plain_text))[i] == plain_text[i] by {
            lemma_mod_bound(i, key.len() as int);
            assert(is_upper(key[i % (key.len() as int)]));
            assert(is_upper(plain_text[i]));
            lemma_difference_undoes_sum(plain_text[i], stream[i]);
        }
        assert(deciphered(key, enciphered(key, plain_text)) =~= plain_text);
    }
}

} // verus!
