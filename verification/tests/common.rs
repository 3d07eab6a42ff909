use codebreakers::common::{format_output, sanitize_text, AsciiUppercaseByte};
use codebreakers::errors::Error;

fn bytes(letters: &[AsciiUppercaseByte]) -> Vec<u8> {
    letters.iter().map(|l| l.get_byte()).collect()
}

#[test]
fn sanitize_raises_and_drops() {
    assert_eq!(bytes(&sanitize_text(b"Hello, World! 123")), b"HELLOWORLD".to_vec());
    assert_eq!(bytes(&sanitize_text(b"")), Vec::<u8>::new());
    assert_eq!(bytes(&sanitize_text(b"@[`{ \n\t0189")), Vec::<u8>::new());
    assert_eq!(bytes(&sanitize_text(b"azAZ")), b"AZAZ".to_vec());
    assert_eq!(bytes(&sanitize_text(&[0x80, 0xc1, 0xe1, 0xff, b'q'])), b"Q".to_vec());
}

#[test]
fn sanitize_leaves_letters_alone() {
    let clean = sanitize_text(b"ALREADYCLEAN");
    assert_eq!(bytes(&clean), b"ALREADYCLEAN".to_vec());
    assert_eq!(sanitize_text(&bytes(&clean)), clean);
}

#[test]
fn format_groups_of_five() {
    assert_eq!(format_output(sanitize_text(b"")), "");
    assert_eq!(format_output(sanitize_text(b"ABCDE")), "ABCDE");
    assert_eq!(format_output(sanitize_text(b"ABCDEF")), "ABCDE F");
    assert_eq!(format_output(sanitize_text(b"ABCDEFGHIJKL")), "ABCDE FGHIJ KL");
}

#[test]
fn format_breaks_the_line_after_twenty_five() {
    let text = format_output(sanitize_text(b"ABCDEFGHIJKLMNOPQRSTUVWXYZABCDEFGHIJKLMNOPQRSTUVWXYZ"));
    assert_eq!(
        text,
        "ABCDE FGHIJ KLMNO PQRST UVWXY \nZABCD EFGHI JKLMN OPQRS TUVWX \nYZ"
    );
}

#[test]
fn format_then_sanitize_gives_the_letters_back() {
    let letters = sanitize_text(b"THEQUICKBROWNFOXJUMPSOVERTHELAZYDOGTHEQUICKBROWNFOX");
    let text = format_output(letters.clone());
    assert_eq!(sanitize_text(text.as_bytes()), letters);
}

#[test]
fn try_from_accepts_letters_only() {
    assert_eq!(AsciiUppercaseByte::try_from(b'A').unwrap().get_byte(), b'A');
    assert_eq!(AsciiUppercaseByte::try_from(b'Z').unwrap().get_byte(), b'Z');
    assert!(matches!(AsciiUppercaseByte::try_from(b'@'), Err(Error::AsciiUppercaseError(0x40))));
    assert!(matches!(AsciiUppercaseByte::try_from(b'['), Err(Error::AsciiUppercaseError(0x5b))));
    assert!(matches!(AsciiUppercaseByte::try_from(b'a'), Err(Error::AsciiUppercaseError(0x61))));
}

#[test]
fn letters_add_and_subtract_round_the_alphabet() {
    let a = AsciiUppercaseByte::try_from(b'A').unwrap();
    let b = AsciiUppercaseByte::try_from(b'B').unwrap();
    let y = AsciiUppercaseByte::try_from(b'Y').unwrap();
    let z = AsciiUppercaseByte::try_from(b'Z').unwrap();
    assert_eq!((z + b).get_byte(), b'A');
    assert_eq!((a + a).get_byte(), b'A');
    assert_eq!((y + z).get_byte(), b'X');
    assert_eq!((a - b).get_byte(), b'Z');
    assert_eq!((z - z).get_byte(), b'A');
    assert_eq!((b - a).get_byte(), b'B');
    assert_eq!(((y + z) - z).get_byte(), b'Y');
}

#[test]
fn errors_say_what_went_wrong() {
    assert_eq!(
        Error::EncipheringError(String::from("fatal: not an alphabetic character")).message(),
        "Error: fatal: not an alphabetic character"
    );
    assert_eq!(Error::DecipheringError(String::from("no luck")).message(), "Error: no luck");
    assert_eq!(Error::DecipheringError(String::new()).message(), "Error: ");
    assert_eq!(
        Error::InvalidKey.message(),
        "Error: an empty key cannot be used on a text that holds a letter"
    );
}

#[test]
fn a_byte_that_is_no_letter_is_named_by_number_and_character() {
    assert_eq!(Error::AsciiUppercaseError(b'a').message(), "Error: Byte 97 (a) not in in range A-Z");
    assert_eq!(Error::AsciiUppercaseError(b'7').message(), "Error: Byte 55 (7) not in in range A-Z");
    assert_eq!(Error::AsciiUppercaseError(0).message(), "Error: Byte 0 (\0) not in in range A-Z");
    assert_eq!(
        Error::AsciiUppercaseError(b'\n').message(),
        "Error: Byte 10 (\n) not in in range A-Z"
    );
    assert_eq!(
        Error::AsciiUppercaseError(0xe9).message(),
        "Error: Byte 233 (\u{e9}) not in in range A-Z"
    );
    for value in 0..=255u8 {
        let expected =
            format!("Error: Byte {} ({}) not in in range A-Z", value, value as char);
        assert_eq!(Error::AsciiUppercaseError(value).message(), expected);
        if let Err(error) = AsciiUppercaseByte::try_from(value) {
            assert_eq!(error.message(), expected);
        }
    }
}
