//! The grid behind the transposition, as mathematics.
//!
//! A text of `len` letters is written row by row into a grid of `width`
//! columns, so that the letter at index `i` stands in row `i / width` and
//! column `i % width`. Unless `width` divides `len` the last row is short, and
//! only the leftmost `len % width` columns reach into it.
//!
//! The cipher text is the columns read top to bottom, the column under rank 0
//! first. Deciphering cuts the cipher text back into those columns and reads
//! the grid row by row.

use vstd::prelude::*;
use vstd::arithmetic::div_mod::{
    lemma_div_is_ordered, lemma_fundamental_div_mod, lemma_fundamental_div_mod_converse,
    lemma_mod_bound,
};
use vstd::arithmetic::mul::{lemma_mul_inequality, lemma_mul_is_commutative};
use crate::key::{is_permutation, lemma_position_of, position_of};

verus! {

/// The number of letters in the grid column at position `p`.
pub open spec fn column_height(width: int, len: int, p: int) -> int {
    len / width + if p < len % width {
        1int
    } else {
        0int
    }
}

/// The letters of the grid column at position `p`, from top to bottom.
pub open spec fn column_at<T>(width: int, text: Seq<T>, p: int) -> Seq<T> {
    Seq::new(
        column_height(width, text.len() as int, p) as nat,
        |row: int| text[row * width + p],
    )
}

/// The columns whose rank is below `r`, joined in the order of their ranks.
pub open spec fn columns_below<T>(key: Seq<usize>, text: Seq<T>, r: int) -> Seq<T>
    decreases r,
{
    if r <= 0 {
        Seq::empty()
    } else {
        columns_below(key, text, r - 1) + column_at(
            key.len() as int,
            text,
            position_of(key, r - 1),
        )
    }
}

/// The cipher text: all columns, joined in the order of their ranks.
pub open spec fn enciphered<T>(key: Seq<usize>, text: Seq<T>) -> Seq<T> {
    columns_below(key, text, key.len() as int)
}

/// The index in a cipher text of `len` letters at which the column of rank
/// `r` begins: the heights of the columns of lower rank, added up.
pub open spec fn column_start(key: Seq<usize>, len: int, r: int) -> int
    decreases r,
{
    if r <= 0 {
        0
    } else {
        column_start(key, len, r - 1) + column_height(
            key.len() as int,
            len,
            position_of(key, r - 1),
        )
    }
}

/// The index in the cipher text of the letter that belongs at index `i` of
/// the plain text: row `i / width` of the column that the key ranks for
/// position `i % width`.
pub open spec fn cipher_index(key: Seq<usize>, len: int, i: int) -> int {
    column_start(key, len, key[i % (key.len() as int)] as int) + i / (key.len() as int)
}

/// The rank of the column in which index `j` of the cipher text lies.
pub open spec fn rank_at(key: Seq<usize>, len: int, j: int) -> int {
    choose|r: int|
        0 <= r < key.len() && (#[trigger] column_start(key, len, r)) <= j < column_start(
            key,
            len,
            r + 1,
        )
}

/// The index in the plain text of the letter that stands at index `j` of the
/// cipher text: the way back from `cipher_index`.
pub open spec fn plain_index(key: Seq<usize>, len: int, j: int) -> int {
    let r = rank_at(key, len, j);
    (j - column_start(key, len, r)) * (key.len() as int) + position_of(key, r)
}

/// The plain text: the grid rebuilt from `cipher` and read row by row.
pub open spec fn deciphered<T>(key: Seq<usize>, cipher: Seq<T>) -> Seq<T> {
    Seq::new(cipher.len(), |i: int| cipher[cipher_index(key, cipher.len() as int, i)])
}

/// The letter at index `i` has a place in the grid: its row lies within the
/// height of its column.
pub proof fn lemma_cell_of_index(width: int, len: int, i: int)
    requires
        0 < width,
        0 <= i < len,
    ensures
        0 <= i % width < width,
        0 <= i / width < column_height(width, len, i % width),
        i == (i / width) * width + i % width,
{
    lemma_fundamental_div_mod(i, width);
    lemma_fundamental_div_mod(len, width);
    lemma_div_is_ordered(0, i, width);
    lemma_div_is_ordered(i, len, width);
    lemma_mul_is_commutative(width, i / width);
    if i / width == len / width {
        assert(width * (i / width) == width * (len / width));
    }
}

/// Every cell of the grid holds a letter of the text, and the index of that
/// letter leads back to the cell.
pub proof fn lemma_index_of_cell(width: int, len: int, p: int, row: int)
    requires
        0 < width,
        0 <= len,
        0 <= p < width,
        0 <= row < column_height(width, len, p),
    ensures
        0 <= row * width + p < len,
        (row * width + p) % width == p,
        (row * width + p) / width == row,
{
    lemma_fundamental_div_mod(len, width);
    lemma_fundamental_div_mod_converse(row * width + p, width, row, p);
    lemma_mul_inequality(0, row, width);
    lemma_mul_is_commutative(width, len / width);
    if row < len / width {
        lemma_mul_inequality(row + 1, len / width, width);
        assert((row + 1) * width == row * width + width) by (nonlinear_arith);
    }
}

/// Writing one more letter into the grid lengthens exactly one column: the
/// one in which the new letter stands.
pub proof fn lemma_height_step(width: int, len: int, p: int)
    requires
        0 < width,
        0 <= len,
        0 <= p < width,
    ensures
        column_height(width, len + 1, p) == column_height(width, len, p) + if p == len % width {
            1int
        } else {
            0int
        },
        column_height(width, 0, p) == 0,
{
    lemma_fundamental_div_mod(len, width);
    lemma_mul_is_commutative(width, len / width);
    if len % width + 1 < width {
        lemma_fundamental_div_mod_converse(len + 1, width, len / width, len % width + 1);
    } else {
        assert((len / width + 1) * width == (len / width) * width + width) by (nonlinear_arith);
        lemma_fundamental_div_mod_converse(len + 1, width, len / width + 1, 0);
    }
    lemma_fundamental_div_mod_converse(0, width, 0, 0);
}

/// How many of the first `upto` positions hold a rank below `r`.
spec fn count_below(key: Seq<usize>, upto: int, r: int) -> int
    decreases upto,
{
    if upto <= 0 {
        0
    } else {
        count_below(key, upto - 1, r) + if key[upto - 1] < r {
            1int
        } else {
            0int
        }
    }
}

proof fn lemma_count_below_step(key: Seq<usize>, upto: int, r: int)
    requires
        is_permutation(key),
        0 <= upto <= key.len(),
        0 <= r < key.len(),
    ensures
        count_below(key, upto, r + 1) == count_below(key, upto, r) + if position_of(key, r)
            < upto {
            1int
        } else {
            0int
        },
    decreases upto,
{
    lemma_position_of(key, r);
    if upto > 0 {
        lemma_count_below_step(key, upto - 1, r);
    }
}

proof fn lemma_count_below_ends(key: Seq<usize>, upto: int)
    requires
        is_permutation(key),
        0 <= upto <= key.len(),
    ensures
        count_below(key, upto, 0) == 0,
        count_below(key, upto, key.len() as int) == upto,
    decreases upto,
{
    if upto > 0 {
        lemma_count_below_ends(key, upto - 1);
    }
}

/// The start of a column in closed form: below rank `r` stand `r` columns of
/// the base height, and one more letter for each of them that reaches into
/// the short last row.
proof fn lemma_column_start_closed(key: Seq<usize>, len: int, r: int)
    requires
        is_permutation(key),
        0 < key.len(),
        0 <= len,
        0 <= r <= key.len(),
    ensures
        column_start(key, len, r) == r * (len / (key.len() as int)) + count_below(
            key,
            len % (key.len() as int),
            r,
        ),
    decreases r,
{
    let width = key.len() as int;
    lemma_mod_bound(len, width);
    if r > 0 {
        lemma_column_start_closed(key, len, r - 1);
        lemma_count_below_step(key, len % width, r - 1);
        assert(r * (len / width) == (r - 1) * (len / width) + len / width) by (nonlinear_arith);
    } else {
        lemma_count_below_ends(key, len % width);
    }
}

/// The columns lie one behind the other, and together they fill the cipher
/// text exactly.
pub proof fn lemma_column_start_bounds(key: Seq<usize>, len: int, r: int)
    requires
        is_permutation(key),
        0 <= len,
        0 <= r < key.len(),
    ensures
        0 <= column_start(key, len, r),
        column_start(key, len, r + 1) == column_start(key, len, r) + column_height(
            key.len() as int,
            len,
            position_of(key, r),
        ),
        column_start(key, len, r + 1) <= len,
        column_start(key, len, key.len() as int) == len,
{
    let width = key.len() as int;
    lemma_column_start_monotone(key, len, 0, r);
    lemma_column_start_monotone(key, len, r + 1, width);
    lemma_column_start_closed(key, len, width);
    lemma_fundamental_div_mod(len, width);
    lemma_mod_bound(len, width);
    lemma_count_below_ends(key, len % width);
}

/// A column of higher rank starts no earlier than one of lower rank.
pub proof fn lemma_column_start_monotone(key: Seq<usize>, len: int, lo: int, hi: int)
    requires
        0 < key.len(),
        0 <= len,
        0 <= lo <= hi,
    ensures
        column_start(key, len, lo) <= column_start(key, len, hi),
    decreases hi - lo,
{
    if lo < hi {
        lemma_column_start_monotone(key, len, lo, hi - 1);
        lemma_div_is_ordered(0, len, key.len() as int);
    }
}

/// The joined columns below rank `r` are as long as the start of column `r`
/// says.
pub proof fn lemma_columns_below_len<T>(key: Seq<usize>, text: Seq<T>, r: int)
    requires
        0 < key.len(),
        0 <= r,
    ensures
        columns_below(key, text, r).len() == column_start(key, text.len() as int, r),
    decreases r,
{
    if r > 0 {
        lemma_columns_below_len(key, text, r - 1);
        lemma_div_is_ordered(0, text.len() as int, key.len() as int);
    }
}

/// Where a letter of the grid stands in the joined columns: at its row,
/// counted from the start of its column.
pub proof fn lemma_columns_below_index<T>(
    key: Seq<usize>,
    text: Seq<T>,
    bound: int,
    r: int,
    row: int,
)
    requires
        0 < key.len(),
        0 <= r < bound,
        0 <= row < column_height(key.len() as int, text.len() as int, position_of(key, r)),
    ensures
        0 <= column_start(key, text.len() as int, r) + row < columns_below(key, text, bound).len(),
        columns_below(key, text, bound)[column_start(key, text.len() as int, r) + row]
            == text[row * (key.len() as int) + position_of(key, r)],
    decreases bound,
{
    let len = text.len() as int;
    lemma_columns_below_len(key, text, bound - 1);
    lemma_columns_below_len(key, text, bound);
    lemma_column_start_monotone(key, len, 0, r);
    if r < bound - 1 {
        lemma_columns_below_index(key, text, bound - 1, r, row);
    }
}

/// Every index of the cipher text lies in exactly one column.
pub proof fn lemma_rank_at(key: Seq<usize>, len: int, j: int)
    requires
        is_permutation(key),
        0 <= j < len,
        0 < key.len(),
    ensures
        0 <= rank_at(key, len, j) < key.len(),
        column_start(key, len, rank_at(key, len, j)) <= j < column_start(
            key,
            len,
            rank_at(key, len, j) + 1,
        ),
        forall|r: int|
            0 <= r < key.len() && (#[trigger] column_start(key, len, r)) <= j < column_start(
                key,
                len,
                r + 1,
            ) ==> r == rank_at(key, len, j),
{
    lemma_column_start_bounds(key, len, 0);
    let found = lemma_find_column(key, len, j, key.len() as int);
    assert(column_start(key, len, found) <= j < column_start(key, len, found + 1));
    assert forall|r: int|
        0 <= r < key.len() && (#[trigger] column_start(key, len, r)) <= j < column_start(
            key,
            len,
            r + 1,
        ) implies r == rank_at(key, len, j) by {
        let chosen = rank_at(key, len, j);
        if r < chosen {
            lemma_column_start_monotone(key, len, r + 1, chosen);
        } else if chosen < r {
            lemma_column_start_monotone(key, len, chosen + 1, r);
        }
    }
}

/// Searches downwards from `bound` for the column that holds index `j`.
proof fn lemma_find_column(key: Seq<usize>, len: int, j: int, bound: int) -> (r: int)
    requires
        0 <= j < column_start(key, len, bound),
        0 <= bound,
    ensures
        0 <= r < bound,
        column_start(key, len, r) <= j < column_start(key, len, r + 1),
    decreases bound,
{
    if column_start(key, len, bound - 1) <= j {
        bound - 1
    } else {
        lemma_find_column(key, len, j, bound - 1)
    }
}

/// `cipher_index` and `plain_index` are each other's way back, and both stay
/// within the text.
pub proof fn lemma_index_maps(key: Seq<usize>, len: int, i: int)
    requires
        is_permutation(key),
        0 < key.len(),
        0 <= i < len,
    ensures
        0 <= cipher_index(key, len, i) < len,
        0 <= plain_index(key, len, i) < len,
        plain_index(key, len, cipher_index(key, len, i)) == i,
        cipher_index(key, len, plain_index(key, len, i)) == i,
{
    let width = key.len() as int;
    // From the plain text to the cipher text and back.
    lemma_cell_of_index(width, len, i);
    let r = key[i % width] as int;
    lemma_position_of(key, r);
    lemma_column_start_bounds(key, len, r);
    let j = cipher_index(key, len, i);
    lemma_rank_at(key, len, j);
    // From the cipher text to the plain text and back.
    lemma_rank_at(key, len, i);
    let s = rank_at(key, len, i);
    lemma_position_of(key, s);
    lemma_column_start_bounds(key, len, s);
    lemma_index_of_cell(width, len, position_of(key, s), i - column_start(key, len, s));
}

/// The cipher text, letter by letter: at index `j` stands the letter that the
/// plain text holds at `plain_index(j)`.
pub proof fn lemma_enciphered_index<T>(key: Seq<usize>, text: Seq<T>, j: int)
    requires
        is_permutation(key),
        0 < key.len(),
        0 <= j < text.len(),
    ensures
        enciphered(key, text).len() == text.len(),
        0 <= plain_index(key, text.len() as int, j) < text.len(),
        enciphered(key, text)[j] == text[plain_index(key, text.len() as int, j)],
{
    let len = text.len() as int;
    let width = key.len() as int;
    lemma_columns_below_len(key, text, width);
    lemma_column_start_bounds(key, len, 0);
    lemma_index_maps(key, len, j);
    lemma_rank_at(key, len, j);
    let r = rank_at(key, len, j);
    lemma_column_start_bounds(key, len, r);
    lemma_columns_below_index(key, text, width, r, j - column_start(key, len, r));
}

/// The cipher text is the plain text sorted by rank, where the rank of a
/// letter is the one that the key gives to its column, and letters of one
/// rank keep the order that they had in the plain text.
pub proof fn lemma_cipher_text_is_sorted_by_rank(key: Seq<usize>, len: int, j: int, k: int)
    requires
        is_permutation(key),
        0 < key.len(),
        0 <= j < k < len,
    ensures
        ({
            let first = plain_index(key, len, j);
            let second = plain_index(key, len, k);
            let width = key.len() as int;
            key[first % width] < key[second % width] || (key[first % width] == key[second
                % width] && first < second)
        }),
{
    let width = key.len() as int;
    lemma_rank_at(key, len, j);
    lemma_rank_at(key, len, k);
    let r = rank_at(key, len, j);
    let s = rank_at(key, len, k);
    lemma_position_of(key, r);
    lemma_position_of(key, s);
    lemma_column_start_bounds(key, len, r);
    lemma_column_start_bounds(key, len, s);
    lemma_index_of_cell(width, len, position_of(key, r), j - column_start(key, len, r));
    lemma_index_of_cell(width, len, position_of(key, s), k - column_start(key, len, s));
    if s < r {
        lemma_column_start_monotone(key, len, s + 1, r);
    } else if r == s {
        lemma_mul_inequality(
            j - column_start(key, len, r) + 1,
            k - column_start(key, len, r),
            width,
        );
        assert((j - column_start(key, len, r) + 1) * width == (j - column_start(key, len, r))
            * width + width) by (nonlinear_arith);
    }
}

/// Deciphering undoes enciphering, under every valid key and for every
/// text.
///
/// An empty key has no columns to hold a letter, so it goes with the empty
/// text only.
pub proof fn lemma_decipher_undoes_encipher<T>(key: Seq<usize>, text: Seq<T>)
    requires
        is_permutation(key),
        key.len() > 0 || text.len() == 0,
    ensures
        enciphered(key, text).len() == text.len(),
        deciphered(key, enciphered(key, text)) == text,
{
    let width = key.len() as int;
    let len = text.len() as int;
    let cipher = enciphered(key, text);
    if width > 0 {
        lemma_columns_below_len(key, text, width);
        lemma_column_start_bounds(key, len, 0);
        assert forall|i: int| 0 <= i < len implies deciphered(key, cipher)[i] == text[i] by {
            lemma_cell_of_index(width, len, i);
            let p = i % width;
            let r = key[p] as int;
            lemma_position_of(key, r);
            lemma_columns_below_index(key, text, width, r, i / width);
        }
    }
    assert(deciphered(key, cipher) =~= text);
}

/// Enciphering undoes deciphering: every text is the cipher text of the
/// plain text that deciphering finds in it.
pub proof fn lemma_encipher_undoes_decipher<T>(key: Seq<usize>, cipher: Seq<T>)
    requires
        is_permutation(key),
        key.len() > 0 || cipher.len() == 0,
    ensures
        deciphered(key, cipher).len() == cipher.len(),
        enciphered(key, deciphered(key, cipher)) == cipher,
{
    let len = cipher.len() as int;
    let plain = deciphered(key, cipher);
    if key.len() > 0 {
        assert forall|j: int| 0 <= j < len implies enciphered(key, plain)[j] == cipher[j] by {
            lemma_enciphered_index(key, plain, j);
            lemma_index_maps(key, len, j);
        }
        if len > 0 {
            lemma_enciphered_index(key, plain, 0);
        } else {
            lemma_columns_below_len(key, plain, key.len() as int);
            lemma_column_start_bounds(key, len, 0);
        }
    }
    assert(enciphered(key, plain) =~= cipher);
}

/// The transposition moves letters and does not look at them: what holds
/// letter by letter between two texts holds between their cipher texts and
/// between their plain texts.
pub proof fn lemma_transposition_moves_letters<A, B>(
    key: Seq<usize>,
    a: Seq<A>,
    b: Seq<B>,
    f: spec_fn(A) -> B,
)
    requires
        is_permutation(key),
        key.len() > 0 || a.len() == 0,
        b.len() == a.len(),
        forall|i: int| 0 <= i < a.len() ==> b[i] == f(#[trigger] a[i]),
    ensures
        enciphered(key, b).len() == a.len(),
        enciphered(key, a).len() == a.len(),
        forall|j: int| 0 <= j < a.len() ==> enciphered(key, b)[j] == f(#[trigger] enciphered(key, a)[j]),
        deciphered(key, b).len() == a.len(),
        forall|i: int| 0 <= i < a.len() ==> deciphered(key, b)[i] == f(#[trigger] deciphered(key, a)[i]),
{
    let len = a.len() as int;
    if key.len() > 0 {
        lemma_columns_below_len(key, a, key.len() as int);
        lemma_columns_below_len(key, b, key.len() as int);
        lemma_column_start_bounds(key, len, 0);
        assert forall|j: int| 0 <= j < len implies enciphered(key, b)[j] == f(
            #[trigger] enciphered(key, a)[j],
        ) by {
            lemma_enciphered_index(key, a, j);
            lemma_enciphered_index(key, b, j);
        }
        assert forall|i: int| 0 <= i < len implies deciphered(key, b)[i] == f(
            #[trigger] deciphered(key, a)[i],
        ) by {
            lemma_index_maps(key, len, i);
        }
    }
}

} // verus!
