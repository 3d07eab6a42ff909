use codebreakers::column_transposition::{
    create_key, decipher, decipher_letters, encipher, encipher_letters, is_valid_key,
};
use codebreakers::common;
use codebreakers::errors::Error;

#[test]
fn column_transposition_test_key_creation() {
    let key_phrase = common::sanitize_text(b"BACD");

    let key = create_key(&key_phrase);

    assert_eq!(key, vec![1, 0, 2, 3]);
}

#[test]
fn column_transposition_test_key_creation_repeated_character() {
    let key_phrase = common::sanitize_text(b"BAACDDZZXY");

    let key = create_key(&key_phrase);

    assert_eq!(key, vec![2, 0, 1, 3, 4, 5, 8, 9, 6, 7]);
}

#[test]
fn test_column_transposition() {
    let enciphered = encipher(b"ZEBRAS", b"WE ARE DISCOVERED. FLEE AT ONCE").unwrap();

    assert_eq!("EVLNA CDTES EAROF ODEEC WIREE", enciphered);

    let deciphered = decipher(b"ZEBRAS", b"EVLNA CDTES EAROF ODEEC WIREE").unwrap();

    assert_eq!("WEARE DISCO VERED FLEEA TONCE", deciphered);

    let enciphered = encipher(b"CAB", b"ATTACK AT DAWN").unwrap();

    assert_eq!("TCTWT KDNAA AA", enciphered);

    let deciphered = decipher(b"CAB", b"TCTWT KDNAA AA").unwrap();

    assert_eq!("ATTAC KATDA WN", deciphered);
}

#[test]
fn key_of_the_documented_phrase() {
    let key = create_key(&common::sanitize_text(b"BAACDD"));
    assert_eq!(key, vec![2, 0, 1, 3, 4, 5]);
}

#[test]
fn key_of_the_empty_phrase_is_empty() {
    let key = create_key(&common::sanitize_text(b""));
    assert_eq!(key, Vec::<usize>::new());
}

#[test]
fn key_sorts_to_the_identity() {
    let phrases: [&[u8]; 5] = [b"ZEBRAS", b"AAAA", b"BAACDDZZXY", b"QWERTYUIOPASDFGHJKLZXCVBNM", b"Z"];
    for phrase in phrases {
        let mut key = create_key(&common::sanitize_text(phrase));
        key.sort();
        let identity: Vec<usize> = (0..key.len()).collect();
        assert_eq!(key, identity);
    }
}

#[test]
fn equal_letters_are_ranked_from_the_left() {
    let key = create_key(&common::sanitize_text(b"AAAA"));
    assert_eq!(key, vec![0, 1, 2, 3]);
}

#[test]
fn grid_from_the_module_text() {
    let enciphered = encipher(b"CAB", b"NO JUSTICE NO PEACE").unwrap();
    assert_eq!("OSCOA JTEPC NUINE E", enciphered);
    let deciphered = decipher(b"CAB", enciphered.as_bytes()).unwrap();
    assert_eq!("NOJUS TICEN OPEAC E", deciphered);
}

#[test]
fn letters_are_read_column_by_column() {
    let key = vec![2, 0, 1];
    let text = common::sanitize_text(b"ABCDEFGH");
    let cipher = encipher_letters(&key, &text).unwrap();
    assert_eq!(cipher, common::sanitize_text(b"BEHCFADG"));
    let plain = decipher_letters(&key, &cipher).unwrap();
    assert_eq!(plain, text);
}

#[test]
fn uneven_division_with_a_key_of_four() {
    // 15 letters under a key of 4: three columns of 4 and one of 3.
    let key = create_key(&common::sanitize_text(b"DCBA"));
    assert_eq!(key, vec![3, 2, 1, 0]);
    let text = common::sanitize_text(b"ABCDEFGHIJKLMNO");
    let cipher = encipher_letters(&key, &text).unwrap();
    assert_eq!(cipher, common::sanitize_text(b"DHLCGKOBFJNAEIM"));
    let plain = decipher_letters(&key, &cipher).unwrap();
    assert_eq!(plain, text);

    let enciphered = encipher(b"DCBA", b"ABCDEFGHIJKLMNO").unwrap();
    assert_eq!("DHLCG KOBFJ NAEIM", enciphered);
    let deciphered = decipher(b"DCBA", enciphered.as_bytes()).unwrap();
    assert_eq!("ABCDE FGHIJ KLMNO", deciphered);
}

#[test]
fn round_trip_for_every_length_and_several_keys() {
    let phrases: [&[u8]; 6] = [b"A", b"BA", b"CAB", b"ZEBRAS", b"BAACDDZZXY", b"MISSISSIPPI"];
    let alphabet = b"THEQUICKBROWNFOXJUMPSOVERTHELAZYDOGANDRUNSAWAYFROMIT";
    for phrase in phrases {
        let key = create_key(&common::sanitize_text(phrase));
        for len in 0..alphabet.len() {
            let text = common::sanitize_text(&alphabet[..len]);
            let cipher = encipher_letters(&key, &text).unwrap();
            assert_eq!(cipher.len(), text.len());
            let mut sorted_cipher: Vec<u8> = cipher.iter().map(|l| l.get_byte()).collect();
            let mut sorted_text: Vec<u8> = text.iter().map(|l| l.get_byte()).collect();
            sorted_cipher.sort();
            sorted_text.sort();
            assert_eq!(sorted_cipher, sorted_text);
            let plain = decipher_letters(&key, &cipher).unwrap();
            assert_eq!(plain, text);
            let back = encipher_letters(&key, &decipher_letters(&key, &text).unwrap()).unwrap();
            assert_eq!(back, text);
        }
    }
}

#[test]
fn text_shorter_than_the_key() {
    let enciphered = encipher(b"ZEBRAS", b"HI").unwrap();
    assert_eq!("IH", enciphered);
    let deciphered = decipher(b"ZEBRAS", b"IH").unwrap();
    assert_eq!("HI", deciphered);
}

#[test]
fn empty_key_with_text_is_an_invalid_key() {
    let text = common::sanitize_text(b"ANY");
    assert!(matches!(encipher_letters(&[], &text), Err(Error::InvalidKey)));
    assert!(matches!(decipher_letters(&[], &text), Err(Error::InvalidKey)));
    assert!(matches!(encipher(b"", b"ANY"), Err(Error::InvalidKey)));
    assert!(matches!(decipher(b"", b"ANY"), Err(Error::InvalidKey)));
    assert!(matches!(encipher(b"123 !", b"ANY"), Err(Error::InvalidKey)));
    assert!(matches!(decipher(b"123 !", b"ANY"), Err(Error::InvalidKey)));
}

#[test]
fn empty_key_with_empty_text_gives_empty_output() {
    assert_eq!(encipher_letters(&[], &[]).unwrap(), vec![]);
    assert_eq!(decipher_letters(&[], &[]).unwrap(), vec![]);
    assert_eq!(encipher(b"", b"").unwrap(), "");
    assert_eq!(decipher(b"", b"").unwrap(), "");
    assert_eq!(encipher(b"", b"12 ..").unwrap(), "");
    assert_eq!(decipher(b"", b"12 ..").unwrap(), "");
}

#[test]
fn empty_text_gives_empty_output_under_any_key() {
    assert_eq!(encipher(b"ZEBRAS", b"").unwrap(), "");
    assert_eq!(decipher(b"ZEBRAS", b"").unwrap(), "");
    assert_eq!(encipher_letters(&[1, 0], &[]).unwrap(), vec![]);
    assert_eq!(decipher_letters(&[1, 0], &[]).unwrap(), vec![]);
}

#[test]
fn sanitized_input_behaves_like_raw_input() {
    let raw: &[u8] = b"We are discovered. Flee at once!";
    let clean: Vec<u8> = common::sanitize_text(raw).iter().map(|l| l.get_byte()).collect();
    assert_eq!(clean, b"WEAREDISCOVEREDFLEEATONCE".to_vec());
    assert_eq!(encipher(b"zebras", raw).unwrap(), encipher(b"ZEBRAS", &clean).unwrap());
    assert_eq!(decipher(b"zebras", raw).unwrap(), decipher(b"ZEBRAS", &clean).unwrap());
}

#[test]
fn valid_keys_hold_every_rank_once() {
    assert!(is_valid_key(&[]));
    assert!(is_valid_key(&[0]));
    assert!(is_valid_key(&[2, 0, 1]));
    assert!(is_valid_key(&create_key(&common::sanitize_text(b"MISSISSIPPI"))));
    assert!(!is_valid_key(&[1]));
    assert!(!is_valid_key(&[0, 0]));
    assert!(!is_valid_key(&[0, 2]));
    assert!(!is_valid_key(&[1, 2, 3]));
    assert!(!is_valid_key(&[2, 1, 2]));
}

#[test]
fn cipher_text_is_the_plain_text_sorted_stably_by_rank() {
    let key = create_key(&common::sanitize_text(b"BAACDDZZXY"));
    let text = common::sanitize_text(b"THEQUICKBROWNFOXJUMPSOVERTHELAZYDOG");
    let mut tagged: Vec<(usize, u8)> = text
        .iter()
        .enumerate()
        .map(|(idx, letter)| (key[idx % key.len()], letter.get_byte()))
        .collect();
    tagged.sort_by_key(|pair| pair.0);
    let expected: Vec<u8> = tagged.iter().map(|pair| pair.1).collect();
    let cipher: Vec<u8> =
        encipher_letters(&key, &text).unwrap().iter().map(|l| l.get_byte()).collect();
    assert_eq!(cipher, expected);
}

#[test]
fn decipher_undoes_encipher_on_whole_texts() {
    let texts: [&[u8]; 4] = [
        b"We are discovered. Flee at once!",
        b"a",
        b"The quick brown fox jumps over the lazy dog, twice: the quick brown fox jumps.",
        b"",
    ];
    let phrases: [&[u8]; 4] = [b"zebras", b"Q", b"Mississippi mud", b"AB"];
    for phrase in phrases {
        for text in texts {
            let cipher = encipher(phrase, text).unwrap();
            let plain = decipher(phrase, cipher.as_bytes()).unwrap();
            assert_eq!(plain, common::format_output(common::sanitize_text(text)));
        }
    }
}
