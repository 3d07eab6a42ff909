//! # From David Kahn's "Codebreakers":
//!
//! > Cryptanalysis rests upon the fact that the letters of language have "personalities" of their own. [..]
//! > Though in a cryptogram they wear disguises, the cryptanalyst observes their actions and idiosyncrasies, and infers
//! > their identity from these traits
//!
//! The counts are kept in hash maps that are keyed by plain integers: a
//! letter by its byte, a pair of letters by the two bytes side by side.

use vstd::prelude::*;
use vstd::multiset::Multiset;
use vstd::seq_lib::to_multiset_build;
use std::collections::HashMap;
use crate::common::{
    as_chars, bytes_of, is_upper, sanitize_text, sanitized, spelled, AsciiUppercaseByte,
    FIRST_LETTER, LAST_LETTER,
};
use crate::text::{append_decimal, decimal};

verus! {

/// Whether `counts` is the frequency table of `items`: it has an entry for
/// exactly the items that occur, and the entry says how often.
pub open spec fn tallies<K>(counts: Map<K, usize>, items: Multiset<K>) -> bool {
    forall|k: K|
        (counts.contains_key(k) <==> items.count(k) > 0) && (counts.contains_key(k)
            ==> counts[k] == #[trigger] items.count(k))
}

/// The number that stands for the pair of letters `left`, `right`: the two
/// bytes side by side, `left` in the high byte.
pub open spec fn digram_code(left: u8, right: u8) -> u16 {
    (left * 256 + right) as u16
}

/// The pairs of neighbours among `letters`: each letter but the last,
/// together with the letter that follows it.
pub open spec fn digrams(letters: Seq<u8>) -> Seq<u16> {
    Seq::new(
        if letters.len() >= 1 {
            (letters.len() - 1) as nat
        } else {
            0nat
        },
        |i: int| digram_code(letters[i], letters[i + 1]),
    )
}

/// The key under which `digram` keeps the count of the pair `left`, `right`.
pub fn digram_key(left: AsciiUppercaseByte, right: AsciiUppercaseByte) -> (key: u16)
    ensures
        key == digram_code(left@, right@),
{
    let high: u16 = left.get_byte() as u16;
    let low: u16 = right.get_byte() as u16;
    high * 256 + low
}

/// Creates a dictionary of letter frequency counts for each letter that appears in `text`
///
/// The letters are those that are left after cleaning; each is kept under
/// its byte.
pub fn single_letter(text: &[u8]) -> (counts: HashMap<u8, usize>)
    ensures
        tallies(counts@, sanitized(text@).to_multiset()),
{
    broadcast use vstd::std_specs::hash::group_hash_axioms;
    broadcast use vstd::multiset::group_multiset_axioms;

    let text = sanitize_text(text);
    let ghost letters = bytes_of(text@);
    let mut counts: HashMap<u8, usize> = HashMap::new();

    let mut i: usize = 0;
    proof {
        letters.take(0).to_multiset_ensures();
        assert forall|k: u8| letters.take(0).to_multiset().count(k) == 0 by {
            assert(letters.take(0).to_multiset().count(k) <= letters.take(0).to_multiset().len());
        }
    }
    while i < text.len()
        invariant
            i <= text@.len(),
            letters == bytes_of(text@),
            tallies(counts@, letters.take(i as int).to_multiset()),
        decreases text@.len() - i,
    {
        let character = text[i].get_byte();
        let ghost seen = letters.take(i as int);
        proof {
            assert(letters.take(i + 1) =~= seen.push(character));
            to_multiset_build(seen, character);
            seen.to_multiset_ensures();
            assert(seen.to_multiset().count(character) <= seen.len());
        }
        let count: usize = match counts.get(&character) {
            Some(count) => *count,
            None => 0,
        };
        counts.insert(character, count + 1);
        i += 1;
    }
    assert(letters.take(text@.len() as int) =~= letters);

    counts
}

/// Creates a dictionary of digram frequencies for each pair of letters that appears in `text`
///
/// The letters are those that are left after cleaning. Every letter but the
/// last is counted together with its right neighbour, so a text of `n`
/// letters holds `n - 1` pairs, and a text of fewer than two letters holds
/// none. A pair is kept under `digram_key`.
pub fn digram(text: &[u8]) -> (counts: HashMap<u16, usize>)
    ensures
        tallies(counts@, digrams(sanitized(text@)).to_multiset()),
{
    broadcast use vstd::std_specs::hash::group_hash_axioms;
    broadcast use vstd::multiset::group_multiset_axioms;

    let text = sanitize_text(text);
    let ghost pairs = digrams(bytes_of(text@));
    let mut counts: HashMap<u16, usize> = HashMap::new();

    // The last letter starts no pair.
    let end: usize = if text.len() >= 1 {
        text.len() - 1
    } else {
        0
    };
    let mut i: usize = 0;
    proof {
        pairs.take(0).to_multiset_ensures();
        assert forall|k: u16| pairs.take(0).to_multiset().count(k) == 0 by {
            assert(pairs.take(0).to_multiset().count(k) <= pairs.take(0).to_multiset().len());
        }
    }
    while i < end
        invariant
            i <= end == pairs.len(),
            end + 1 <= text@.len() || end == 0,
            pairs == digrams(bytes_of(text@)),
            tallies(counts@, pairs.take(i as int).to_multiset()),
        decreases end - i,
    {
        let digram = digram_key(text[i], text[i + 1]);
        let ghost seen = pairs.take(i as int);
        proof {
            assert(pairs.take(i + 1) =~= seen.push(digram));
            to_multiset_build(seen, digram);
            seen.to_multiset_ensures();
            assert(seen.to_multiset().count(digram) <= seen.len());
        }
        let count: usize = match counts.get(&digram) {
            Some(count) => *count,
            None => 0,
        };
        counts.insert(digram, count + 1);
        i += 1;
    }
    assert(pairs.take(end as int) =~= pairs);

    counts
}

/// A row of `count` bars, `|`.
pub open spec fn bars(count: nat) -> Seq<u8> {
    Seq::new(count, |i: int| 0x7cu8)
}

/// The line of the histogram for `letter`: the letter, a space, one bar for
/// each time that it was counted, and a line break.
pub open spec fn histogram_line(counts: Map<u8, usize>, letter: u8) -> Seq<u8> {
    seq![letter, 0x20u8] + bars(
        if counts.contains_key(letter) {
            counts[letter] as nat
        } else {
            0nat
        },
    ) + seq![0x0au8]
}

/// The lines of the histogram for the first `upto` letters of the alphabet.
pub open spec fn histogram_lines(counts: Map<u8, usize>, upto: int) -> Seq<u8>
    decreases upto,
{
    if upto <= 0 {
        Seq::empty()
    } else {
        histogram_lines(counts, upto - 1) + histogram_line(
            counts,
            (FIRST_LETTER + upto - 1) as u8,
        )
    }
}

/// What stands between the brackets of a cell of the digram table: the count
/// in decimal, with a space in front of a single digit, or two spaces where
/// the pair was never counted.
pub open spec fn count_cell(counts: Map<u16, usize>, pair: u16) -> Seq<u8> {
    if !counts.contains_key(pair) {
        seq![0x20u8, 0x20u8]
    } else if counts[pair] < 10 {
        seq![0x20u8] + decimal(counts[pair] as nat)
    } else {
        decimal(counts[pair] as nat)
    }
}

/// A cell of the digram table: the pair, its count in brackets, two spaces.
pub open spec fn digram_cell(counts: Map<u16, usize>, left: u8, right: u8) -> Seq<u8> {
    seq![left, right, 0x28u8] + count_cell(counts, digram_code(left, right)) + seq![
        0x29u8,
        0x20u8,
        0x20u8,
    ]
}

/// The cells of the row of `left` for the first `upto` letters of the
/// alphabet.
pub open spec fn digram_cells(counts: Map<u16, usize>, left: u8, upto: int) -> Seq<u8>
    decreases upto,
{
    if upto <= 0 {
        Seq::empty()
    } else {
        digram_cells(counts, left, upto - 1) + digram_cell(
            counts,
            left,
            (FIRST_LETTER + upto - 1) as u8,
        )
    }
}

/// The rows of the digram table for the first `upto` letters of the
/// alphabet: each row holds 26 cells and ends in a line break.
pub open spec fn digram_rows(counts: Map<u16, usize>, upto: int) -> Seq<u8>
    decreases upto,
{
    if upto <= 0 {
        Seq::empty()
    } else {
        digram_rows(counts, upto - 1) + digram_cells(
            counts,
            (FIRST_LETTER + upto - 1) as u8,
            26,
        ).push(0x0au8)
    }
}

/// The letter that `byte` is, for a byte that is one.
fn letter_of(byte: u8) -> (letter: AsciiUppercaseByte)
    requires
        is_upper(byte),
    ensures
        letter@ == byte,
{
    AsciiUppercaseByte::try_from(byte).unwrap()
}

/// Draws a single letter frequency map as a histogram: one line for each
/// letter of the alphabet, with one bar for each time that it was counted.
pub fn single_letter_histogram(map: &HashMap<u8, usize>) -> (text: String)
    ensures
        text@ == as_chars(histogram_lines(map@, 26)),
{
    broadcast use vstd::std_specs::hash::group_hash_axioms;

    let mut text = String::new();
    let mut key: u8 = FIRST_LETTER;
    proof {
        reveal_strlit(" ");
        reveal_strlit("|");
        reveal_strlit("\n");
    }
    assert(text@ =~= as_chars(histogram_lines(map@, 0)));
    while key <= LAST_LETTER
        invariant
            FIRST_LETTER <= key <= LAST_LETTER + 1,
            " "@ == seq![' '],
            "|"@ == seq!['|'],
            "\n"@ == seq!['\n'],
            text@ == as_chars(histogram_lines(map@, key - FIRST_LETTER)),
        decreases LAST_LETTER + 1 - key,
    {
        let ghost before = histogram_lines(map@, key - FIRST_LETTER);
        text.append(spelled(letter_of(key)));
        text.append(" ");
        let count: usize = match map.get(&key) {
            Some(count) => *count,
            None => 0,
        };
        let mut drawn: usize = 0;
        assert(text@ =~= as_chars(before + seq![key, 0x20u8] + bars(0)));
        while drawn < count
            invariant
                drawn <= count,
                "|"@ == seq!['|'],
                text@ == as_chars(before + seq![key, 0x20u8] + bars(drawn as nat)),
            decreases count - drawn,
        {
            text.append("|");
            drawn += 1;
            assert(text@ =~= as_chars(before + seq![key, 0x20u8] + bars(drawn as nat)));
        }
        text.append("\n");
        key += 1;
        assert(text@ =~= as_chars(histogram_lines(map@, key - FIRST_LETTER))) by {
            assert(before + seq![(key - 1) as u8, 0x20u8] + bars(count as nat) + seq![0x0au8]
                =~= before + histogram_line(map@, (key - 1) as u8));
        }
    }

    text
}

/// Draws the digram frequency map as a table: one row for each first letter,
/// one cell for each second letter, and in each cell the pair and its count.
pub fn digram_frequencies(map: &HashMap<u16, usize>) -> (text: String)
    ensures
        text@ == as_chars(digram_rows(map@, 26)),
{
    broadcast use vstd::std_specs::hash::group_hash_axioms;

    let mut text = String::new();
    let mut left: u8 = FIRST_LETTER;
    proof {
        reveal_strlit(" ");
        reveal_strlit("  ");
        reveal_strlit("(");
        reveal_strlit(")  ");
        reveal_strlit("\n");
    }
    assert(text@ =~= as_chars(digram_rows(map@, 0)));
    while left <= LAST_LETTER
        invariant
            FIRST_LETTER <= left <= LAST_LETTER + 1,
            " "@ == seq![' '],
            "  "@ == seq![' ', ' '],
            "("@ == seq!['('],
            ")  "@ == seq![')', ' ', ' '],
            "\n"@ == seq!['\n'],
            text@ == as_chars(digram_rows(map@, left - FIRST_LETTER)),
        decreases LAST_LETTER + 1 - left,
    {
        let ghost rows = digram_rows(map@, left - FIRST_LETTER);
        let mut right: u8 = FIRST_LETTER;
        assert(text@ =~= as_chars(rows + digram_cells(map@, left, 0)));
        while right <= LAST_LETTER
            invariant
                FIRST_LETTER <= left <= LAST_LETTER,
                FIRST_LETTER <= right <= LAST_LETTER + 1,
                " "@ == seq![' '],
                "  "@ == seq![' ', ' '],
                "("@ == seq!['('],
                ")  "@ == seq![')', ' ', ' '],
                text@ == as_chars(rows + digram_cells(map@, left, right - FIRST_LETTER)),
            decreases LAST_LETTER + 1 - right,
        {
            let ghost cells = rows + digram_cells(map@, left, right - FIRST_LETTER);
            let left_letter = letter_of(left);
            let right_letter = letter_of(right);
            text.append(spelled(left_letter));
            text.append(spelled(right_letter));
            text.append("(");
            let ghost opened = text@;
            assert(opened =~= as_chars(cells + seq![left, right, 0x28u8]));

            let key = digram_key(left_letter, right_letter);

            match map.get(&key) {
                Some(count) => {
                    if *count < 10 {
                        text.append(" ");
                    }
                    append_decimal(&mut text, *count);
                },
                None => {
                    text.append("  ");
                },
            }
            assert(text@ =~= opened + as_chars(count_cell(map@, key)));

            text.append(")  ");
            right += 1;
            assert(text@ =~= as_chars(rows + digram_cells(map@, left, right - FIRST_LETTER))) by {
                assert(cells + seq![left, (right - 1) as u8, 0x28u8] + count_cell(map@, key)
                    + seq![0x29u8, 0x20u8, 0x20u8] =~= cells + digram_cell(
                    map@,
                    left,
                    (right - 1) as u8,
                ));
            }
        }

        text.append("\n");
        left += 1;
        assert(text@ =~= as_chars(digram_rows(map@, left - FIRST_LETTER)));
    }

    text
}

} // verus!
