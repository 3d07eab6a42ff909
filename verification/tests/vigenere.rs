use codebreakers::common;
use codebreakers::errors::Error;
use codebreakers::vigenere;
use codebreakers::vigenere_autokey;
use codebreakers::vigenere_standard;

#[test]
fn test_encipher_vigenere() {
    let key = b"TYPE";

    let enciphered = vigenere::encipher(key, b"NOW IS THE TIME FOR ALL GOOD MEN").unwrap();

    assert_eq!(enciphered, "GMLML RWIMG BIYMG EEJVS HBBIG");

    let deciphered = vigenere::decipher(key, enciphered.as_bytes()).unwrap();

    assert_eq!(deciphered, "NOWIS THETI MEFOR ALLGO ODMEN");
}

#[test]
fn test_vigenere_autokey() {
    let priming_key = b"ZZZ";

    let cipher_text = vigenere_autokey::encipher(priming_key, b"AAAAAA").unwrap();

    assert_eq!("ZZZAA A", cipher_text);

    let plain_text = vigenere_autokey::decipher(priming_key, cipher_text.as_bytes()).unwrap();

    assert_eq!("AAAAA A", plain_text);
}

#[test]
fn test_add_bytes() {
    let left = common::sanitize_text(b"ABC");
    let right = common::sanitize_text(b"BBB");
    let expected = common::sanitize_text(b"BCD");

    let actual = vigenere_standard::add_bytes(&left, &right);

    assert_eq!(expected, actual);
}

#[test]
fn test_subtract_bytes() {
    let left = common::sanitize_text(b"ABC");
    let right = common::sanitize_text(b"BBB");
    let expected = common::sanitize_text(b"ZAB");

    let actual = vigenere_standard::subtract_bytes(&left, &right);

    assert_eq!(expected, actual);
}

#[test]
fn test_vigenere_standard() {
    let key = b"TYPE";

    let enciphered =
        vigenere_standard::encipher(key, b"NOW IS THE TIME FOR ALL GOOD MEN").unwrap();

    assert_eq!(enciphered, "GMLML RWIMG BIYMG EEJVS HBBIG");

    let deciphered = vigenere_standard::decipher(key, enciphered.as_bytes()).unwrap();

    assert_eq!(deciphered, "NOWIS THETI MEFOR ALLGO ODMEN");
}

#[test]
fn standard_key_a_changes_nothing() {
    let text: &[u8] = b"Nothing to see here, move along.";
    let plain = common::format_output(common::sanitize_text(text));
    assert_eq!(vigenere_standard::encipher(b"A", text).unwrap(), plain);
    assert_eq!(vigenere_standard::decipher(b"A", text).unwrap(), plain);
}

#[test]
fn standard_without_a_key_changes_nothing() {
    let text: &[u8] = b"attack at dawn";
    assert_eq!(vigenere_standard::encipher(b"", text).unwrap(), "ATTAC KATDA WN");
    assert_eq!(vigenere_standard::decipher(b"12", text).unwrap(), "ATTAC KATDA WN");
    assert_eq!(vigenere_autokey::encipher(b"", text).unwrap(), "ATTAC KATDA WN");
    assert_eq!(vigenere_autokey::decipher(b"", text).unwrap(), "ATTAC KATDA WN");
}

#[test]
fn standard_output_is_letters_and_layout_only() {
    let res = vigenere_standard::encipher(b"Key!", b"Some text, 42 times over and over again.")
        .unwrap();
    assert!(res.bytes().all(|b| (b >= b'A' && b <= b'Z') || b == b' ' || b == b'\n'));
}

#[test]
fn standard_key_longer_than_the_text() {
    assert_eq!(vigenere_standard::encipher(b"LEMONLEMON", b"ATT").unwrap(), "LXF");
    assert_eq!(vigenere_standard::decipher(b"LEMONLEMON", b"LXF").unwrap(), "ATT");
}

#[test]
fn standard_known_vector() {
    assert_eq!(
        vigenere_standard::encipher(b"LEMON", b"ATTACKATDAWN").unwrap(),
        "LXFOP VEFRN HR"
    );
    assert_eq!(
        vigenere_standard::decipher(b"LEMON", b"LXFOPVEFRNHR").unwrap(),
        "ATTAC KATDA WN"
    );
}

#[test]
fn repeat_key_cuts_and_repeats() {
    let key = common::sanitize_text(b"ABC");
    assert_eq!(vigenere_standard::repeat_key(key.clone(), 3), key);
    assert_eq!(vigenere_standard::repeat_key(key.clone(), 2), common::sanitize_text(b"AB"));
    assert_eq!(vigenere_standard::repeat_key(key.clone(), 0), common::sanitize_text(b""));
    assert_eq!(
        vigenere_standard::repeat_key(key.clone(), 8),
        common::sanitize_text(b"ABCABCAB")
    );
    assert_eq!(vigenere_standard::repeat_key(Vec::new(), 0), Vec::new());
}

#[test]
fn autokey_known_vector() {
    // Key stream: QUEENLY followed by the plain text.
    assert_eq!(
        vigenere_autokey::encipher(b"QUEENLY", b"ATTACK AT DAWN").unwrap(),
        "QNXEP VYTWT WP"
    );
    assert_eq!(
        vigenere_autokey::decipher(b"QUEENLY", b"QNXEPVYTWTWP").unwrap(),
        "ATTAC KATDA WN"
    );
}

#[test]
fn autokey_priming_key_longer_than_the_text() {
    assert_eq!(vigenere_autokey::encipher(b"QUEENLY", b"AT").unwrap(), "QN");
    assert_eq!(vigenere_autokey::decipher(b"QUEENLY", b"QN").unwrap(), "AT");
}

#[test]
fn plain_vigenere_insists_on_a_key() {
    assert!(matches!(vigenere::encipher(b"", b"ANY"), Err(Error::InvalidKey)));
    assert!(matches!(vigenere::decipher(b"", b"ANY"), Err(Error::InvalidKey)));
    assert!(matches!(vigenere::encipher(b"42", b"ANY"), Err(Error::InvalidKey)));
    assert_eq!(vigenere::encipher(b"", b"").unwrap(), "");
    assert_eq!(vigenere::decipher(b"", b"...").unwrap(), "");
}

#[test]
fn plain_vigenere_agrees_with_the_standard_one() {
    let text: &[u8] = b"The quick brown fox jumps over the lazy dog";
    assert_eq!(
        vigenere::encipher(b"LEMON", text).unwrap(),
        vigenere_standard::encipher(b"LEMON", text).unwrap()
    );
    assert_eq!(
        vigenere::decipher(b"LEMON", text).unwrap(),
        vigenere_standard::decipher(b"LEMON", text).unwrap()
    );
}

#[test]
fn single_bytes_are_enciphered_and_refused() {
    assert!(matches!(vigenere::_encipher_ascii_byte(b'N', b'T'), Ok(b'G')));
    assert!(matches!(vigenere::_decipher_ascii_byte(b'G', b'T'), Ok(b'N')));
    assert!(matches!(vigenere::_encipher_ascii_byte(b'Z', b'Z'), Ok(b'Y')));
    assert!(matches!(vigenere::_decipher_ascii_byte(b'A', b'Z'), Ok(b'B')));
    match vigenere::_encipher_ascii_byte(b'n', b'T') {
        Err(Error::EncipheringError(message)) => {
            assert_eq!(message, "fatal: not an alphabetic character")
        }
        _ => panic!("a lower-case byte was let through"),
    }
    match vigenere::_decipher_ascii_byte(b' ', b'T') {
        Err(Error::EncipheringError(message)) => {
            assert_eq!(message, "fatal: not an alphabetic character")
        }
        _ => panic!("a space was let through"),
    }
}

#[test]
fn decipher_undoes_encipher_for_both_systems() {
    let texts: [&[u8]; 3] = [b"Now is the time for all good men", b"x", b""];
    let keys: [&[u8]; 4] = [b"TYPE", b"a", b"QUEENLYQUEENLYQUEENLYQUEENLYQUEENLYQUEENLY", b""];
    for key in keys {
        for text in texts {
            let plain = common::format_output(common::sanitize_text(text));
            let cipher = vigenere_standard::encipher(key, text).unwrap();
            assert_eq!(vigenere_standard::decipher(key, cipher.as_bytes()).unwrap(), plain);
            let cipher = vigenere_autokey::encipher(key, text).unwrap();
            assert_eq!(vigenere_autokey::decipher(key, cipher.as_bytes()).unwrap(), plain);
        }
    }
}
