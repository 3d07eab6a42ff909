use codebreakers::common::AsciiUppercaseByte;
use codebreakers::frequency;
use codebreakers::letter_frequency;

#[test]
fn test_single_letter() {
    let freq = frequency::single_letter(b"Over the horizon\nShe's smooth sailing");

    let upper_case_o = AsciiUppercaseByte::try_from(b'O').unwrap();
    let upper_case_z = AsciiUppercaseByte::try_from(b'Z').unwrap();

    assert_eq!(freq.get(&upper_case_o.get_byte()), Some(&5));
    assert_eq!(freq.get(&upper_case_z.get_byte()), Some(&1));
}

#[test]
fn test_digram() {
    let freq = frequency::digram(b"But there wasn't any water in the wishing well");

    let in_digram = frequency::digram_key(
        AsciiUppercaseByte::try_from(b'I').unwrap(),
        AsciiUppercaseByte::try_from(b'N').unwrap(),
    );

    assert_eq!(freq.get(&in_digram), Some(&2));
}

#[test]
fn test_get_letter_frequency() {
    let freq = letter_frequency::get_letter_frequency(b"Over the horizon\nShe's smooth sailing");

    let upper_case_o = AsciiUppercaseByte::try_from(b'O').unwrap();
    let upper_case_z = AsciiUppercaseByte::try_from(b'Z').unwrap();

    assert_eq!(freq.get(&upper_case_o.get_byte()), Some(&5));
    assert_eq!(freq.get(&upper_case_z.get_byte()), Some(&1));
}

#[test]
fn single_letter_counts_every_letter_and_nothing_else() {
    let freq = frequency::single_letter(b"Abba, 1974!");
    assert_eq!(freq.len(), 2);
    assert_eq!(freq.get(&b'A'), Some(&2));
    assert_eq!(freq.get(&b'B'), Some(&2));
    assert_eq!(freq.get(&b'C'), None);
    assert_eq!(freq.get(&b'a'), None);
    assert!(frequency::single_letter(b"").is_empty());
    assert!(frequency::single_letter(b"12 34").is_empty());
}

#[test]
fn digram_key_puts_the_letters_side_by_side() {
    let a = AsciiUppercaseByte::try_from(b'A').unwrap();
    let z = AsciiUppercaseByte::try_from(b'Z').unwrap();
    assert_eq!(frequency::digram_key(a, z), 0x415a);
    assert_eq!(frequency::digram_key(z, a), 0x5a41);
}

#[test]
fn digram_counts_every_pair_of_neighbours() {
    let a = AsciiUppercaseByte::try_from(b'A').unwrap();
    let b = AsciiUppercaseByte::try_from(b'B').unwrap();
    let c = AsciiUppercaseByte::try_from(b'C').unwrap();
    let freq = frequency::digram(b"ABABC");
    assert_eq!(freq.len(), 3);
    assert_eq!(freq.get(&frequency::digram_key(a, b)), Some(&2));
    assert_eq!(freq.get(&frequency::digram_key(b, a)), Some(&1));
    assert_eq!(freq.get(&frequency::digram_key(b, c)), Some(&1));
    assert_eq!(freq.get(&frequency::digram_key(c, a)), None);
    assert_eq!(freq.values().sum::<usize>(), 4);
}

#[test]
fn digram_counts_the_pair_that_ends_the_text() {
    let a = AsciiUppercaseByte::try_from(b'A').unwrap();
    let b = AsciiUppercaseByte::try_from(b'B').unwrap();
    let c = AsciiUppercaseByte::try_from(b'C').unwrap();
    let freq = frequency::digram(b"a b");
    assert_eq!(freq.len(), 1);
    assert_eq!(freq.get(&frequency::digram_key(a, b)), Some(&1));
    let freq = frequency::digram(b"ABC");
    assert_eq!(freq.len(), 2);
    assert_eq!(freq.get(&frequency::digram_key(a, b)), Some(&1));
    assert_eq!(freq.get(&frequency::digram_key(b, c)), Some(&1));
}

#[test]
fn digram_of_a_short_text_is_empty() {
    assert!(frequency::digram(b"").is_empty());
    assert!(frequency::digram(b"A").is_empty());
    assert!(frequency::digram(b"1 2 a 3").is_empty());
}

#[test]
fn digram_counts_add_up_to_one_less_than_the_letters() {
    let texts: [&[u8]; 4] = [
        b"But there wasn't any water in the wishing well",
        b"AAAAAAA",
        b"xy",
        b"The quick brown fox jumps over the lazy dog",
    ];
    for text in texts {
        let letters = codebreakers::common::sanitize_text(text).len();
        let freq = frequency::digram(text);
        assert_eq!(freq.values().sum::<usize>(), letters - 1);
    }
}

#[test]
fn histogram_draws_a_bar_for_every_count() {
    let freq = frequency::single_letter(b"Abba, cab");
    let text = frequency::single_letter_histogram(&freq);
    let lines: Vec<&str> = text.split('\n').collect();
    assert_eq!(lines.len(), 27);
    assert_eq!(lines[0], "A |||");
    assert_eq!(lines[1], "B |||");
    assert_eq!(lines[2], "C |");
    assert_eq!(lines[3], "D ");
    assert_eq!(lines[25], "Z ");
    assert_eq!(lines[26], "");
    assert_eq!(letter_frequency::histogram(&freq), text);
}

#[test]
fn histogram_of_nothing_is_the_bare_alphabet() {
    let text = frequency::single_letter_histogram(&frequency::single_letter(b""));
    assert_eq!(
        text,
        "A \nB \nC \nD \nE \nF \nG \nH \nI \nJ \nK \nL \nM \nN \nO \nP \nQ \nR \nS \nT \nU \nV \nW \nX \nY \nZ \n"
    );
}

#[test]
fn digram_table_shows_pairs_and_counts() {
    let mut text = Vec::new();
    for _ in 0..12 {
        text.extend_from_slice(b"AB");
    }
    text.extend_from_slice(b"ZZZZ");
    // AB twelve times, BA eleven times, then BZ once and ZZ three times.
    let freq = frequency::digram(&text);
    let table = frequency::digram_frequencies(&freq);
    let rows: Vec<&str> = table.split('\n').collect();
    assert_eq!(rows.len(), 27);
    assert_eq!(rows[26], "");
    for row in &rows[..26] {
        assert_eq!(row.len(), 26 * 8);
    }
    assert!(rows[0].starts_with("AA(  )  AB(12)  AC(  )  "));
    assert!(rows[1].starts_with("BA(11)  BB(  )  "));
    assert!(rows[1].ends_with("BY(  )  BZ( 1)  "));
    assert!(rows[25].ends_with("ZY(  )  ZZ( 3)  "));
}

#[test]
fn digram_table_widens_for_large_counts() {
    let mut freq = std::collections::HashMap::new();
    let a = AsciiUppercaseByte::try_from(b'A').unwrap();
    let b = AsciiUppercaseByte::try_from(b'B').unwrap();
    freq.insert(frequency::digram_key(a, a), 0usize);
    freq.insert(frequency::digram_key(a, b), 1234567usize);
    let table = frequency::digram_frequencies(&freq);
    assert!(table.starts_with("AA( 0)  AB(1234567)  AC(  )  "));
}
