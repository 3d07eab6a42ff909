//! # Column transposition
//!
//! The message is written row by row into a grid that is as wide as the key.
//! The columns are then read out from top to bottom, in the order that the key
//! gives them: the column under rank 0 first, the column under rank 1 next,
//! and so on.
//!
//! With the key phrase `CAB` (key `2 0 1`) and the message
//! `NO JUSTICE NO PEACE`:
//!
//! ```text
//! 2  0  1
//! -------
//! N  O  J
//! U  S  T
//! I  C  E
//! N  O  P
//! E  A  C
//! E
//! ```
//!
//! the cipher text is `OSCOA JTEPC NUINE E`.
//!
//! Deciphering has to rebuild the grid. When the length of the message is not
//! a multiple of the width, the last row is short, and the columns that reach
//! into it (the leftmost ones in the grid) are one letter longer than the rest.

use vstd::prelude::*;
use vstd::arithmetic::div_mod::lemma_fundamental_div_mod;
use vstd::arithmetic::mul::{lemma_mul_inequality, lemma_mul_is_commutative};
use std::collections::VecDeque;
use crate::common::{
    all_upper, as_chars, bytes_of, format_output, formatted, is_upper, key_fits,
    lemma_sanitized_formatted, lemma_sanitized_is_upper, lemma_sanitized_twice, sanitize_text,
    sanitized, AsciiUppercaseByte, FIRST_LETTER,
};
use crate::errors::Error;
use crate::grid::{
    column_at, column_height, column_start, columns_below, deciphered, enciphered,
    lemma_cell_of_index, lemma_column_start_bounds, lemma_decipher_undoes_encipher,
    lemma_enciphered_index, lemma_height_step, lemma_index_maps, lemma_index_of_cell,
    lemma_transposition_moves_letters,
};
use crate::key::{
    ascending, count_equal, count_less, identity_key, is_permutation, key_of,
    lemma_count_less_step, lemma_counts_bounded, lemma_key_of_is_permutation,
    lemma_key_sorts_to_identity, lemma_position_of, lemma_rank_in_range, position_of, rank_of,
};

verus! {

/// The bytes of the text that `encipher` returns: both inputs are cleaned,
/// the key is made from the phrase, the letters are transposed, and the
/// result is laid out in groups.
pub open spec fn enciphered_text(key_phrase: Seq<u8>, plain_text: Seq<u8>) -> Seq<u8> {
    formatted(enciphered(key_of(sanitized(key_phrase)), sanitized(plain_text)))
}

/// The bytes of the text that `decipher` returns.
pub open spec fn deciphered_text(key_phrase: Seq<u8>, cipher_text: Seq<u8>) -> Seq<u8> {
    formatted(deciphered(key_of(sanitized(key_phrase)), sanitized(cipher_text)))
}

/// Enciphers `plain_text` with `key_phrase` using regular column transposition
///
/// Whatever is no letter is dropped from both, and lower case is raised.
/// Fails with `InvalidKey` when the phrase holds no letter and the text
/// holds one.
pub fn encipher(key_phrase: &[u8], plain_text: &[u8]) -> (result: Result<String, Error>)
    ensures
        key_fits(key_phrase@, plain_text@) ==> (result matches Ok(text) && text@ == as_chars(
            enciphered_text(key_phrase@, plain_text@),
        )),
        !key_fits(key_phrase@, plain_text@) ==> (result matches Err(Error::InvalidKey)),
{
    let key = create_key(sanitize_text(key_phrase).as_slice());
    let plain_text = sanitize_text(plain_text);

    match encipher_letters(key.as_slice(), plain_text.as_slice()) {
        Ok(cipher_letters) => {
            proof {
                lemma_transposition_moves_letters(
                    key@,
                    plain_text@,
                    bytes_of(plain_text@),
                    |letter: AsciiUppercaseByte| letter@,
                );
                assert(bytes_of(cipher_letters@) =~= enciphered(key@, bytes_of(plain_text@)));
            }
            Ok(format_output(cipher_letters))
        },
        Err(error) => Err(error),
    }
}

/// Deciphers `cipher_text` with `key_phrase` using regular column transposition
///
/// Whatever is no letter is dropped from both, and lower case is raised.
/// Fails with `InvalidKey` when the phrase holds no letter and the text
/// holds one.
pub fn decipher(key_phrase: &[u8], cipher_text: &[u8]) -> (result: Result<String, Error>)
    ensures
        key_fits(key_phrase@, cipher_text@) ==> (result matches Ok(text) && text@ == as_chars(
            deciphered_text(key_phrase@, cipher_text@),
        )),
        !key_fits(key_phrase@, cipher_text@) ==> (result matches Err(Error::InvalidKey)),
{
    let key = create_key(sanitize_text(key_phrase).as_slice());
    let cipher_text = sanitize_text(cipher_text);

    match decipher_letters(key.as_slice(), cipher_text.as_slice()) {
        Ok(plain_letters) => {
            proof {
                lemma_transposition_moves_letters(
                    key@,
                    cipher_text@,
                    bytes_of(cipher_text@),
                    |letter: AsciiUppercaseByte| letter@,
                );
                assert(bytes_of(plain_letters@) =~= deciphered(key@, bytes_of(cipher_text@)));
            }
            Ok(format_output(plain_letters))
        },
        Err(error) => Err(error),
    }
}

/// Counts how often each of the 26 letters occurs in `key_phrase`.
fn letter_counts(key_phrase: &[AsciiUppercaseByte]) -> (counts: Vec<usize>)
    ensures
        counts@.len() == 26,
        forall|v: int|
            0 <= v < 26 ==> counts@[v] == count_equal(
                bytes_of(key_phrase@),
                v + FIRST_LETTER,
                key_phrase@.len() as int,
            ),
        all_upper(bytes_of(key_phrase@)),
{
    let ghost phrase = bytes_of(key_phrase@);
    let mut counts: Vec<usize> = Vec::new();
    while counts.len() < 26
        invariant
            counts@.len() <= 26,
            forall|v: int| 0 <= v < counts@.len() ==> counts@[v] == 0,
        decreases 26 - counts@.len(),
    {
        counts.push(0);
    }
    let mut idx: usize = 0;
    while idx < key_phrase.len()
        invariant
            idx <= key_phrase@.len(),
            phrase == bytes_of(key_phrase@),
            counts@.len() == 26,
            forall|v: int|
                0 <= v < 26 ==> counts@[v] == count_equal(phrase, v + FIRST_LETTER, idx as int),
            forall|i: int| 0 <= i < idx ==> is_upper(#[trigger] phrase[i]),
        decreases key_phrase@.len() - idx,
    {
        let value: usize = (key_phrase[idx].get_byte() - FIRST_LETTER) as usize;
        proof {
            lemma_counts_bounded(phrase, value + FIRST_LETTER, idx as int);
        }
        let seen: usize = counts[value];
        counts.set(value, seen + 1);
        idx += 1;
    }
    counts
}

/// Create a column transposition key out of a key phrase
///
/// The letters of the key phrase are counted off in the order of the
/// alphabet. A letter that occurs more than once still takes a number each
/// time, from left to right: with two `A`s the first gets 0 and the second 1.
///
/// - The key phrase `BACD` gives the key `1 0 2 3`
/// - The key phrase `BAACDD` gives the key `2 0 1 3 4 5`
pub fn create_key(key_phrase: &[AsciiUppercaseByte]) -> (key: Vec<usize>)
    ensures
        key@ == key_of(bytes_of(key_phrase@)),
        is_permutation(key@),
        key@.sort_by(ascending()) == identity_key(key_phrase@.len()),
{
    let ghost phrase = bytes_of(key_phrase@);
    let n = key_phrase.len();
    let duplicates = letter_counts(key_phrase);

    // How often each letter has been met so far in the scan below.
    let mut counter: Vec<usize> = Vec::new();
    while counter.len() < 26
        invariant
            counter@.len() <= 26,
            forall|v: int| 0 <= v < counter@.len() ==> counter@[v] == 0,
        decreases 26 - counter@.len(),
    {
        counter.push(0);
    }

    let mut key: Vec<usize> = Vec::new();
    let mut idx: usize = 0;
    while idx < n
        invariant
            idx <= n,
            n == key_phrase@.len(),
            phrase == bytes_of(key_phrase@),
            duplicates@.len() == 26,
            forall|v: int|
                0 <= v < 26 ==> duplicates@[v] == count_equal(phrase, v + FIRST_LETTER, n as int),
            counter@.len() == 26,
            forall|v: int| 0 <= v < 26 ==> counter@[v] == count_equal(phrase, v + FIRST_LETTER, idx as int),
            key@.len() == idx,
            forall|p: int| 0 <= p < idx ==> key@[p] == rank_of(phrase, p),
            all_upper(phrase),
        decreases n - idx,
    {
        let value: usize = (key_phrase[idx].get_byte() - FIRST_LETTER) as usize;

        // The letters that come earlier in the alphabet: one for each that
        // occurs at all, and one more for each of its repetitions.
        let mut distinct: usize = 0;
        let mut repeated: usize = 0;
        let mut lesser: usize = 0;
        proof {
            lemma_letters_below_a(phrase, n as int);
        }
        while lesser < value
            invariant
                lesser <= value < 26,
                n == phrase.len(),
                duplicates@.len() == 26,
                forall|v: int|
                    0 <= v < 26 ==> duplicates@[v] == count_equal(phrase, v + FIRST_LETTER, n as int),
                distinct + repeated == count_less(phrase, lesser + FIRST_LETTER, n as int),
            decreases value - lesser,
        {
            proof {
                lemma_count_less_step(phrase, lesser + FIRST_LETTER, n as int);
                lemma_counts_bounded(phrase, lesser + FIRST_LETTER, n as int);
                lemma_counts_bounded(phrase, lesser + FIRST_LETTER + 1, n as int);
            }
            let occurrences: usize = duplicates[lesser];
            if occurrences > 0 {
                distinct += 1;
            }
            if occurrences > 1 {
                repeated += occurrences - 1;
            }
            lesser += 1;
        }

        proof {
            lemma_counts_bounded(phrase, value + FIRST_LETTER, n as int);
            lemma_counts_bounded(phrase, value + FIRST_LETTER, idx as int);
            lemma_rank_in_range(phrase, idx as int);
        }
        let seen: usize = counter[value];
        let final_value: usize = distinct + repeated + seen;
        counter.set(value, seen + 1);
        key.push(final_value);
        idx += 1;
    }

    // Every occurrence has been numbered: the running counters have reached
    // the occurrence counts.
    assert(counter@ =~= duplicates@);

    proof {
        lemma_key_of_is_permutation(phrase);
        lemma_key_sorts_to_identity(phrase);
        assert(key@ =~= key_of(phrase));
    }
    key
}

/// No letter comes before `A`.
proof fn lemma_letters_below_a(phrase: Seq<u8>, upto: int)
    requires
        0 <= upto <= phrase.len(),
        all_upper(phrase),
    ensures
        count_less(phrase, FIRST_LETTER as int, upto) == 0,
    decreases upto,
{
    if upto > 0 {
        lemma_letters_below_a(phrase, upto - 1);
    }
}

/// Tells whether `key` is a valid key: whether it holds each of the numbers
/// below its length exactly once.
pub fn is_valid_key(key: &[usize]) -> (valid: bool)
    ensures
        valid == is_permutation(key@),
{
    let width = key.len();
    let mut seen: Vec<bool> = Vec::with_capacity(width);
    while seen.len() < width
        invariant
            seen@.len() <= width,
            forall|r: int| 0 <= r < seen@.len() ==> !seen@[r],
        decreases width - seen@.len(),
    {
        seen.push(false);
    }
    let mut p: usize = 0;
    while p < width
        invariant
            p <= width == key@.len(),
            seen@.len() == width,
            forall|q: int| 0 <= q < p ==> (#[trigger] key@[q]) < width,
            forall|q: int, t: int| 0 <= q < t < p ==> key@[q] != key@[t],
            forall|r: int|
                0 <= r < width ==> (seen@[r] <==> exists|q: int| 0 <= q < p && key@[q] == r),
        decreases width - p,
    {
        let r = key[p];
        if r >= width {
            return false;
        }
        if seen[r] {
            let ghost q = choose|q: int| 0 <= q < p && key@[q] == r;
            assert(key@[q] == key@[p as int]);
            return false;
        }
        seen.set(r, true);
        p += 1;
    }
    true
}

/// Finds, for every rank, the position at which the key holds it.
fn invert_key(key: &[usize]) -> (positions: Vec<usize>)
    requires
        is_permutation(key@),
    ensures
        positions@.len() == key@.len(),
        forall|r: int| 0 <= r < key@.len() ==> positions@[r] == position_of(key@, r),
{
    let width = key.len();
    let mut positions: Vec<usize> = Vec::new();
    while positions.len() < width
        invariant
            positions@.len() <= width,
        decreases width - positions@.len(),
    {
        positions.push(0);
    }
    let mut p: usize = 0;
    while p < width
        invariant
            p <= width,
            width == key@.len(),
            positions@.len() == width,
            is_permutation(key@),
            forall|q: int| 0 <= q < p ==> positions@[key@[q] as int] == q,
        decreases width - p,
    {
        positions.set(key[p], p);
        p += 1;
    }
    proof {
        assert forall|r: int| 0 <= r < width implies positions@[r] == position_of(key@, r) by {
            lemma_position_of(key@, r);
        }
    }
    positions
}

/// The height of the grid column at position `p`: every column has the base
/// height, and those that reach into the short last row have one letter more.
fn height_of_column(width: usize, len: usize, p: usize) -> (height: usize)
    requires
        p < width,
    ensures
        height == column_height(width as int, len as int, p as int),
        height <= len,
{
    let base_height = len / width;
    let remainder = len % width;
    proof {
        lemma_fundamental_div_mod(len as int, width as int);
        lemma_mul_inequality(1, width as int, (len / width) as int);
        lemma_mul_is_commutative(width as int, (len / width) as int);
    }
    if p < remainder {
        base_height + 1
    } else {
        base_height
    }
}

/// Enciphers `plain_text` under `key`: the letters are written row by row into
/// a grid as wide as the key, and the columns are read out in the order of
/// their ranks.
///
/// Fails with `InvalidKey` when the key is empty and the text is not: there
/// is then no column to write a letter into.
pub fn encipher_letters(key: &[usize], plain_text: &[AsciiUppercaseByte]) -> (result: Result<
    Vec<AsciiUppercaseByte>,
    Error,
>)
    requires
        is_permutation(key@),
    ensures
        key@.len() == 0 && plain_text@.len() > 0 ==> (result matches Err(Error::InvalidKey)),
        key@.len() > 0 || plain_text@.len() == 0 ==> (result matches Ok(cipher_text)
            && cipher_text@ == enciphered(key@, plain_text@) && cipher_text@.len()
            == plain_text@.len()),
{
    let width = key.len();
    let len = plain_text.len();
    if width == 0 {
        if len == 0 {
            return Ok(Vec::new());
        }
        return Err(Error::InvalidKey);
    }
    let positions = invert_key(key);

    let mut cipher_text: Vec<AsciiUppercaseByte> = Vec::with_capacity(len);
    let mut rank: usize = 0;
    while rank < width
        invariant
            rank <= width,
            0 < width == key@.len(),
            len == plain_text@.len(),
            is_permutation(key@),
            positions@.len() == width,
            forall|r: int| 0 <= r < width ==> positions@[r] == position_of(key@, r),
            cipher_text@ == columns_below(key@, plain_text@, rank as int),
        decreases width - rank,
    {
        let p = positions[rank];
        proof {
            lemma_position_of(key@, rank as int);
        }
        let height = height_of_column(width, len, p);
        let ghost column = column_at(width as int, plain_text@, p as int);
        let ghost before = cipher_text@;
        let mut row: usize = 0;
        while row < height
            invariant
                0 < width,
                p < width,
                len == plain_text@.len(),
                row <= height == column_height(width as int, len as int, p as int),
                column == column_at(width as int, plain_text@, p as int),
                cipher_text@ == before + column.take(row as int),
            decreases height - row,
        {
            proof {
                lemma_index_of_cell(width as int, len as int, p as int, row as int);
            }
            cipher_text.push(plain_text[row * width + p]);
            row += 1;
            assert(cipher_text@ =~= before + column.take(row as int));
        }
        assert(column.take(row as int) =~= column);
        rank += 1;
    }
    proof {
        lemma_decipher_undoes_encipher(key@, plain_text@);
    }
    Ok(cipher_text)
}

/// Deciphers `cipher_text` under `key`: the text is cut into the columns of
/// the grid, in the order of their ranks, and the grid is read row by row.
///
/// Fails with `InvalidKey` when the key is empty and the text is not.
pub fn decipher_letters(key: &[usize], cipher_text: &[AsciiUppercaseByte]) -> (result: Result<
    Vec<AsciiUppercaseByte>,
    Error,
>)
    requires
        is_permutation(key@),
    ensures
        key@.len() == 0 && cipher_text@.len() > 0 ==> (result matches Err(Error::InvalidKey)),
        key@.len() > 0 || cipher_text@.len() == 0 ==> (result matches Ok(plain_text)
            && plain_text@ == deciphered(key@, cipher_text@) && plain_text@.len()
            == cipher_text@.len()),
{
    let width = key.len();
    let len = cipher_text.len();
    if width == 0 {
        if len == 0 {
            let plain_text: Vec<AsciiUppercaseByte> = Vec::new();
            assert(plain_text@ =~= deciphered(key@, cipher_text@));
            return Ok(plain_text);
        }
        return Err(Error::InvalidKey);
    }
    let positions = invert_key(key);

    // One buffer for each rank, filled with its stretch of the cipher text.
    let mut columns: Vec<VecDeque<AsciiUppercaseByte>> = Vec::with_capacity(width);
    let mut counter: usize = 0;
    let mut rank: usize = 0;
    while rank < width
        invariant
            rank <= width,
            0 < width == key@.len(),
            len == cipher_text@.len(),
            is_permutation(key@),
            positions@.len() == width,
            forall|r: int| 0 <= r < width ==> positions@[r] == position_of(key@, r),
            counter == column_start(key@, len as int, rank as int),
            columns@.len() == rank,
            forall|r: int|
                0 <= r < rank ==> (#[trigger] columns@[r])@ == cipher_text@.subrange(
                    column_start(key@, len as int, r),
                    column_start(key@, len as int, r + 1),
                ),
        decreases width - rank,
    {
        proof {
            lemma_position_of(key@, rank as int);
            lemma_column_start_bounds(key@, len as int, rank as int);
        }
        let height = height_of_column(width, len, positions[rank]);
        let mut column: VecDeque<AsciiUppercaseByte> = VecDeque::with_capacity(height);
        let mut row: usize = 0;
        while row < height
            invariant
                row <= height,
                counter + height <= len == cipher_text@.len(),
                column@ == cipher_text@.subrange(counter as int, counter + row),
            decreases height - row,
        {
            column.push_back(cipher_text[counter + row]);
            row += 1;
            assert(column@ =~= cipher_text@.subrange(counter as int, counter + row));
        }
        counter += height;
        columns.push(column);
        rank += 1;
    }

    let mut plain_text: Vec<AsciiUppercaseByte> = Vec::with_capacity(len);
    let mut idx: usize = 0;
    proof {
        // Nothing has been read yet: every buffer still holds its whole
        // column.
        assert forall|r: int| 0 <= r < width implies column_height(
            width as int,
            0,
            position_of(key@, r),
        ) == 0 by {
            lemma_position_of(key@, r);
            lemma_height_step(width as int, 0, position_of(key@, r));
        }
        assert(plain_text@ =~= deciphered(key@, cipher_text@).take(0));
    }
    while idx < len
        invariant
            idx <= len == cipher_text@.len(),
            0 < width == key@.len(),
            is_permutation(key@),
            columns@.len() == width,
            forall|r: int|
                0 <= r < width ==> (#[trigger] columns@[r])@ == cipher_text@.subrange(
                    column_start(key@, len as int, r) + column_height(
                        width as int,
                        idx as int,
                        position_of(key@, r),
                    ),
                    column_start(key@, len as int, r + 1),
                ),
            plain_text@ == deciphered(key@, cipher_text@).take(idx as int),
        decreases len - idx,
    {
        let k = key[idx % width];
        proof {
            lemma_cell_of_index(width as int, len as int, idx as int);
            lemma_position_of(key@, k as int);
            lemma_column_start_bounds(key@, len as int, k as int);
            lemma_height_step(width as int, idx as int, (idx % width) as int);
            assert forall|r: int| 0 <= r < width implies column_height(
                width as int,
                idx + 1,
                position_of(key@, r),
            ) == column_height(width as int, idx as int, position_of(key@, r)) + if r == k {
                1int
            } else {
                0int
            } by {
                lemma_position_of(key@, r);
                lemma_height_step(width as int, idx as int, position_of(key@, r));
            }
        }
        let ghost before = columns@;
        // The column of this rank is as high as the rows that are read from
        // it, so it cannot have run dry.
        let letter = columns[k].pop_front().unwrap();
        assert(columns@.len() == width);
        assert(forall|r: int| 0 <= r < width && r != k ==> columns@[r] == before[r]);
        plain_text.push(letter);
        idx += 1;
        assert(plain_text@ =~= deciphered(key@, cipher_text@).take(idx as int));
    }
    assert(deciphered(key@, cipher_text@).take(len as int) =~= deciphered(key@, cipher_text@));
    Ok(plain_text)
}

/// The transposition of letters holds letters: neither direction brings in
/// a byte that the text did not hold.
pub proof fn lemma_transposed_letters_are_upper(key: Seq<usize>, letters: Seq<u8>)
    requires
        is_permutation(key),
        key.len() > 0 || letters.len() == 0,
        all_upper(letters),
    ensures
        all_upper(enciphered(key, letters)),
        all_upper(deciphered(key, letters)),
        enciphered(key, letters).len() == letters.len(),
        deciphered(key, letters).len() == letters.len(),
{
    let len = letters.len() as int;
    lemma_decipher_undoes_encipher(key, letters);
    if key.len() > 0 {
        assert forall|j: int| 0 <= j < len implies is_upper(
            #[trigger] enciphered(key, letters)[j],
        ) by {
            lemma_enciphered_index(key, letters, j);
        }
        assert forall|i: int| 0 <= i < len implies is_upper(
            #[trigger] deciphered(key, letters)[i],
        ) by {
            lemma_index_maps(key, len, i);
        }
    }
}

/// Deciphering the text that `encipher` returned, under the same key phrase,
/// gives the plain text back: cleaned and laid out, which is all that
/// enciphering keeps of it.
pub proof fn lemma_decipher_undoes_encipher_text(key_phrase: Seq<u8>, plain_text: Seq<u8>)
    requires
        key_phrase.len() <= usize::MAX,
        key_fits(key_phrase, plain_text),
    ensures
        key_fits(key_phrase, enciphered_text(key_phrase, plain_text)),
        deciphered_text(key_phrase, enciphered_text(key_phrase, plain_text)) == formatted(
            sanitized(plain_text),
        ),
{
    let key = key_of(sanitized(key_phrase));
    let letters = sanitized(plain_text);
    lemma_sanitized_is_upper(key_phrase);
    lemma_sanitized_is_upper(plain_text);
    lemma_key_of_is_permutation(sanitized(key_phrase));
    lemma_transposed_letters_are_upper(key, letters);
    lemma_sanitized_formatted(enciphered(key, letters));
    lemma_decipher_undoes_encipher(key, letters);
}

/// Input that has been cleaned already is treated as the raw input is:
/// cleaning the key phrase or the text beforehand changes neither what
/// `encipher` and `decipher` return nor whether they fail.
pub proof fn lemma_sanitizing_first_changes_nothing(key_phrase: Seq<u8>, text: Seq<u8>)
    ensures
        key_fits(sanitized(key_phrase), sanitized(text)) == key_fits(key_phrase, text),
        enciphered_text(sanitized(key_phrase), sanitized(text)) == enciphered_text(
            key_phrase,
            text,
        ),
        deciphered_text(sanitized(key_phrase), sanitized(text)) == deciphered_text(
            key_phrase,
            text,
        ),
{
    lemma_sanitized_twice(key_phrase);
    lemma_sanitized_twice(text);
}

} // verus!
