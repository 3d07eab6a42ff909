//! # Implementation of the Vigenere autokey cipher
//!
//! In the autokey system, the plain text is used as the key.
//! To start, both parties agree on a _priming key_ K0
//!
//! The sender then creates the key K as follows:
//!
//! K = K0 || MESSAGE
//!
//! The enciphering proceeds as normal
//!
//! The autokey is technically safer than the standard poly-alphabetic cipher
//! because the key doesn't repeat.

use vstd::prelude::*;
use crate::common::{
    all_upper, as_chars, bytes_of, format_output, formatted, is_upper, letter_difference,
    sanitize_text, sanitized, AsciiUppercaseByte,
};
use crate::errors::Error;
use crate::vigenere_standard::{add_bytes, lemma_difference_undoes_sum, letter_sums};

verus! {

/// The letters of the cipher text: without a priming key the text itself,
/// else the text with the key stream added, which is the priming key
/// followed by the text itself.
pub open spec fn enciphered(priming_key: Seq<u8>, plain_text: Seq<u8>) -> Seq<u8> {
    if priming_key.len() == 0 {
        plain_text
    } else {
        letter_sums(plain_text, (priming_key + plain_text).take(plain_text.len() as int))
    }
}

/// The letters of the plain text: without a priming key the text itself,
/// else each letter of the text with the letter of the key stream
/// subtracted, where the key stream is the priming key followed by the plain
/// text that has been found so far.
pub open spec fn deciphered(priming_key: Seq<u8>, cipher_text: Seq<u8>) -> Seq<u8>
    decreases cipher_text.len(),
{
    if priming_key.len() == 0 || cipher_text.len() == 0 {
        cipher_text
    } else {
        let before = deciphered(priming_key, cipher_text.drop_last());
        before.push(
            letter_difference(
                cipher_text.last(),
                (priming_key + before)[cipher_text.len() - 1],
            ),
        )
    }
}

/// Deciphering keeps the length of the text.
pub proof fn lemma_deciphered_len(priming_key: Seq<u8>, cipher_text: Seq<u8>)
    ensures
        deciphered(priming_key, cipher_text).len() == cipher_text.len(),
    decreases cipher_text.len(),
{
    if priming_key.len() != 0 && cipher_text.len() != 0 {
        lemma_deciphered_len(priming_key, cipher_text.drop_last());
    }
}

/// Enciphers the `plain_text` with `priming_key` using the Vigenere autokey system
///
/// Whatever is no letter is dropped from both, and lower case is raised. A
/// priming key without a letter leaves the text as it is.
pub fn encipher(priming_key: &[u8], plain_text: &[u8]) -> (result: Result<String, Error>)
    ensures
        result matches Ok(text) && text@ == as_chars(
            formatted(enciphered(sanitized(priming_key@), sanitized(plain_text@))),
        ),
{
    let mut key = sanitize_text(priming_key);

    let plain_text = sanitize_text(plain_text);

    if key.len() == 0 {
        return Ok(format_output(plain_text));
    }
    let ghost priming = key@;
    let mut rest = plain_text.clone();
    assert(rest@ =~= plain_text@);
    key.append(&mut rest);

    key.truncate(plain_text.len());
    proof {
        assert(bytes_of(key@) =~= (bytes_of(priming) + bytes_of(plain_text@)).take(
            plain_text@.len() as int,
        ));
    }

    let cipher_letters = add_bytes(plain_text.as_slice(), key.as_slice());

    Ok(format_output(cipher_letters))
}

/// Deciphers `cipher_text` with `priming_key` using the Vigenere autokey system
///
/// Whatever is no letter is dropped from both, and lower case is raised. A
/// priming key without a letter leaves the text as it is.
pub fn decipher(priming_key: &[u8], cipher_text: &[u8]) -> (result: Result<String, Error>)
    ensures
        result matches Ok(text) && text@ == as_chars(
            formatted(deciphered(sanitized(priming_key@), sanitized(cipher_text@))),
        ),
{
    let mut key = sanitize_text(priming_key);

    let cipher_text = sanitize_text(cipher_text);

    if key.len() == 0 {
        return Ok(format_output(cipher_text));
    }
    let ghost priming = bytes_of(key@);
    let ghost cipher = bytes_of(cipher_text@);

    let mut plain_letters: Vec<AsciiUppercaseByte> = Vec::new();

    let mut i: usize = 0;
    proof {
        assert(bytes_of(plain_letters@) =~= deciphered(priming, cipher.take(0)));
        assert(bytes_of(key@) =~= priming + bytes_of(plain_letters@));
    }
    while i < cipher_text.len()
        invariant
            i <= cipher_text@.len(),
            0 < priming.len(),
            cipher == bytes_of(cipher_text@),
            plain_letters@.len() == i,
            key@.len() == priming.len() + i,
            bytes_of(plain_letters@) == deciphered(priming, cipher.take(i as int)),
            bytes_of(key@) == priming + bytes_of(plain_letters@),
        decreases cipher_text@.len() - i,
    {
        let ghost before = bytes_of(plain_letters@);
        let ghost stream = bytes_of(key@);
        let plain_char = cipher_text[i] - key[i];

        plain_letters.push(plain_char);

        key.push(plain_char);
        i += 1;
        proof {
            assert(cipher.take(i as int).drop_last() =~= cipher.take(i - 1));
            assert(bytes_of(plain_letters@) =~= before.push(plain_char@));
            assert(bytes_of(key@) =~= stream.push(plain_char@));
            assert(bytes_of(key@) =~= priming + bytes_of(plain_letters@));
        }
    }
    assert(cipher.take(cipher_text@.len() as int) =~= cipher);

    Ok(format_output(plain_letters))
}

/// Enciphering goes letter by letter: the cipher text of a shorter text is
/// the beginning of the cipher text of a longer one.
proof fn lemma_enciphered_prefix(priming_key: Seq<u8>, plain_text: Seq<u8>)
    requires
        plain_text.len() > 0,
    ensures
        enciphered(priming_key, plain_text.drop_last()) == enciphered(
            priming_key,
            plain_text,
        ).drop_last(),
{
    assert(enciphered(priming_key, plain_text.drop_last()) =~= enciphered(
        priming_key,
        plain_text,
    ).drop_last());
}

/// Deciphering undoes enciphering under every priming key.
pub proof fn lemma_decipher_undoes_encipher(priming_key: Seq<u8>, plain_text: Seq<u8>)
    requires
        all_upper(priming_key),
        all_upper(plain_text),
    ensures
        deciphered(priming_key, enciphered(priming_key, plain_text)) == plain_text,
    decreases plain_text.len(),
{
    if priming_key.len() > 0 && plain_text.len() > 0 {
        let cipher = enciphered(priming_key, plain_text);
        let front = plain_text.drop_last();
        let last = plain_text.len() - 1;
        lemma_decipher_undoes_encipher(priming_key, front);
        lemma_enciphered_prefix(priming_key, plain_text);
        let stream = (priming_key + plain_text).take(plain_text.len() as int);
        assert(stream[last] == (priming_key + front)[last]);
        assert(is_upper(plain_text[last]));
        if last < priming_key.len() {
            assert(is_upper(priming_key[last]));
        } else {
            assert(is_upper(plain_text[last - priming_key.len()]));
        }
        lemma_difference_undoes_sum(plain_text[last], stream[last]);
        assert(deciphered(priming_key, cipher) =~= plain_text);
    }
}

} // verus!
