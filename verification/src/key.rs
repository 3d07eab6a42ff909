//! The mathematics of a transposition key.
//!
//! A key phrase is ranked letter by letter: a letter comes before another when
//! it is earlier in the alphabet, and of two equal letters the one that stands
//! further left comes first. The key holds, for every position of the phrase,
//! the rank of the letter that stands there.

use vstd::prelude::*;
use vstd::relations::{sorted_by, total_ordering};
use vstd::seq_lib::{lemma_sorted_unique, seq_to_set_is_finite};
use vstd::set_lib::{lemma_int_range, lemma_subset_equality, set_int_range};

verus! {

/// How many of the first `upto` entries of `phrase` are smaller than `v`.
pub open spec fn count_less(phrase: Seq<u8>, v: int, upto: int) -> int
    decreases upto,
{
    if upto <= 0 {
        0
    } else {
        count_less(phrase, v, upto - 1) + if phrase[upto - 1] < v {
            1int
        } else {
            0int
        }
    }
}

/// How many of the first `upto` entries of `phrase` are equal to `v`.
pub open spec fn count_equal(phrase: Seq<u8>, v: int, upto: int) -> int
    decreases upto,
{
    if upto <= 0 {
        0
    } else {
        count_equal(phrase, v, upto - 1) + if phrase[upto - 1] == v {
            1int
        } else {
            0int
        }
    }
}

/// The rank of the entry at position `p`: the number of entries that are
/// smaller, plus the number of equal entries to its left.
pub open spec fn rank_of(phrase: Seq<u8>, p: int) -> int {
    count_less(phrase, phrase[p] as int, phrase.len() as int) + count_equal(
        phrase,
        phrase[p] as int,
        p,
    )
}

/// The key that belongs to `phrase`: position by position, the rank.
pub open spec fn key_of(phrase: Seq<u8>) -> Seq<usize> {
    Seq::new(phrase.len(), |p: int| rank_of(phrase, p) as usize)
}

/// A key of length `n` is valid when it holds each of `0..n` exactly once.
/// Stated as: every entry is below `n`, and no two entries are equal.
pub open spec fn is_permutation(key: Seq<usize>) -> bool {
    &&& forall|p: int| 0 <= p < key.len() ==> (#[trigger] key[p]) < key.len()
    &&& forall|p: int, q: int| 0 <= p < q < key.len() ==> key[p] != key[q]
}

/// The position at which `key` holds the rank `r`.
pub open spec fn position_of(key: Seq<usize>, r: int) -> int {
    choose|p: int| 0 <= p < key.len() && key[p] == r
}

/// The sequence `0, 1, ..., n - 1`.
pub open spec fn identity_key(n: nat) -> Seq<usize> {
    Seq::new(n, |i: int| i as usize)
}

/// The order by which a key is sorted: the smaller number first.
pub open spec fn ascending() -> spec_fn(usize, usize) -> bool {
    |a: usize, b: usize| a <= b
}

/// No entry is counted twice: among the first `upto` entries, those below
/// `v` and those equal to `v` are at most `upto` together.
pub proof fn lemma_counts_bounded(phrase: Seq<u8>, v: int, upto: int)
    requires
        0 <= upto,
    ensures
        0 <= count_less(phrase, v, upto),
        0 <= count_equal(phrase, v, upto),
        count_less(phrase, v, upto) + count_equal(phrase, v, upto) <= upto,
    decreases upto,
{
    if upto > 0 {
        lemma_counts_bounded(phrase, v, upto - 1);
    }
}

/// Counting further never lowers a count.
pub proof fn lemma_count_equal_monotone(phrase: Seq<u8>, v: int, lo: int, hi: int)
    requires
        0 <= lo <= hi,
    ensures
        count_equal(phrase, v, lo) <= count_equal(phrase, v, hi),
    decreases hi - lo,
{
    if lo < hi {
        lemma_count_equal_monotone(phrase, v, lo, hi - 1);
    }
}

/// The entries below `v + 1` are those below `v` and those equal to `v`.
pub proof fn lemma_count_less_step(phrase: Seq<u8>, v: int, upto: int)
    requires
        0 <= upto,
    ensures
        count_less(phrase, v + 1, upto) == count_less(phrase, v, upto) + count_equal(
            phrase,
            v,
            upto,
        ),
    decreases upto,
{
    if upto > 0 {
        lemma_count_less_step(phrase, v, upto - 1);
    }
}

/// Everything that is at most `v` is below any `w` above `v`.
pub proof fn lemma_count_less_jump(phrase: Seq<u8>, v: int, w: int, upto: int)
    requires
        0 <= upto,
        v < w,
    ensures
        count_less(phrase, v, upto) + count_equal(phrase, v, upto) <= count_less(phrase, w, upto),
    decreases upto,
{
    if upto > 0 {
        lemma_count_less_jump(phrase, v, w, upto - 1);
    }
}

/// Ranks follow the order of the letters, and among equal letters the order
/// of their positions.
pub proof fn lemma_rank_order(phrase: Seq<u8>, p: int, q: int)
    requires
        0 <= p < phrase.len(),
        0 <= q < phrase.len(),
        phrase[p] < phrase[q] || (phrase[p] == phrase[q] && p < q),
    ensures
        0 <= rank_of(phrase, p) < rank_of(phrase, q) < phrase.len(),
{
    let n = phrase.len() as int;
    let v = phrase[p] as int;
    let w = phrase[q] as int;
    lemma_counts_bounded(phrase, v, n);
    lemma_counts_bounded(phrase, v, p);
    lemma_counts_bounded(phrase, w, n);
    lemma_counts_bounded(phrase, w, q);
    lemma_count_equal_monotone(phrase, v, p + 1, n);
    lemma_count_equal_monotone(phrase, w, q + 1, n);
    if v < w {
        lemma_count_less_jump(phrase, v, w, n);
    } else {
        lemma_count_equal_monotone(phrase, v, p + 1, q);
    }
}

/// Every rank lies below the length of the phrase.
pub proof fn lemma_rank_in_range(phrase: Seq<u8>, p: int)
    requires
        0 <= p < phrase.len(),
    ensures
        0 <= rank_of(phrase, p) < phrase.len(),
{
    let n = phrase.len() as int;
    let v = phrase[p] as int;
    lemma_counts_bounded(phrase, v, n);
    lemma_counts_bounded(phrase, v, p);
    lemma_count_equal_monotone(phrase, v, p + 1, n);
}

/// The key of any phrase is a valid key.
pub proof fn lemma_key_of_is_permutation(phrase: Seq<u8>)
    requires
        phrase.len() <= usize::MAX,
    ensures
        is_permutation(key_of(phrase)),
{
    let key = key_of(phrase);
    assert forall|p: int| 0 <= p < key.len() implies (#[trigger] key[p]) < key.len() by {
        lemma_rank_in_range(phrase, p);
    }
    assert forall|p: int, q: int| 0 <= p < q < key.len() implies key[p] != key[q] by {
        lemma_rank_in_range(phrase, p);
        lemma_rank_in_range(phrase, q);
        if phrase[p] <= phrase[q] {
            lemma_rank_order(phrase, p, q);
        } else {
            lemma_rank_order(phrase, q, p);
        }
    }
}

/// A valid key leaves no rank out: each of `0..n` stands at some position.
pub proof fn lemma_rank_occurs(key: Seq<usize>, r: int)
    requires
        is_permutation(key),
        0 <= r < key.len(),
    ensures
        exists|p: int| 0 <= p < key.len() && key[p] == r,
{
    let n = key.len() as int;
    let ints = Seq::new(key.len(), |p: int| key[p] as int);
    assert(ints.no_duplicates());
    ints.unique_seq_to_set();
    seq_to_set_is_finite(ints);
    lemma_int_range(0, n);
    assert(ints.to_set().subset_of(set_int_range(0, n))) by {
        assert forall|x: int| ints.to_set().contains(x) implies set_int_range(0, n).contains(
            x,
        ) by {
            let p = choose|p: int| 0 <= p < ints.len() && ints[p] == x;
            assert(key[p] < key.len());
        }
    }
    lemma_subset_equality(ints.to_set(), set_int_range(0, n));
    assert(set_int_range(0, n).contains(r));
    assert(ints.to_set().contains(r));
    let p = choose|p: int| 0 <= p < ints.len() && ints[p] == r;
    assert(key[p] == r);
}

/// In a valid key, `position_of` undoes the key and the key undoes
/// `position_of`.
pub proof fn lemma_position_of(key: Seq<usize>, r: int)
    requires
        is_permutation(key),
        0 <= r < key.len(),
    ensures
        0 <= position_of(key, r) < key.len(),
        key[position_of(key, r)] == r,
        forall|p: int| 0 <= p < key.len() && key[p] == r ==> p == position_of(key, r),
{
    lemma_rank_occurs(key, r);
}

/// A valid key, sorted, is `0, 1, ..., n - 1`.
pub proof fn lemma_permutation_sorts_to_identity(key: Seq<usize>)
    requires
        is_permutation(key),
    ensures
        key.sort_by(ascending()) == identity_key(key.len()),
{
    let n = key.len();
    let identity = identity_key(n);
    let sorted = key.sort_by(ascending());
    assert(total_ordering(ascending()));
    key.lemma_sort_by_ensures(ascending());
    if n > 0 {
        lemma_rank_occurs(key, n - 1);
    }
    assert(sorted_by(identity, ascending()));
    assert(key.no_duplicates());
    assert(identity.no_duplicates());
    key.lemma_multiset_has_no_duplicates();
    identity.lemma_multiset_has_no_duplicates();
    key.to_multiset_ensures();
    identity.to_multiset_ensures();
    assert forall|x: usize| key.to_multiset().count(x) == identity.to_multiset().count(x) by {
        if x < n {
            lemma_rank_occurs(key, x as int);
            assert(identity[x as int] == x);
        }
    }
    assert(key.to_multiset() =~= identity.to_multiset());
    lemma_sorted_unique(sorted, identity, ascending());
}

/// The key of any key phrase, sorted, is `0, 1, ..., n - 1`: the key holds
/// every rank exactly once.
pub proof fn lemma_key_sorts_to_identity(phrase: Seq<u8>)
    requires
        phrase.len() <= usize::MAX,
    ensures
        key_of(phrase).sort_by(ascending()) == identity_key(phrase.len()),
{
    lemma_key_of_is_permutation(phrase);
    lemma_permutation_sorts_to_identity(key_of(phrase));
}

} // verus!
