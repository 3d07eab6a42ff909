//! Letters, and the two steps that every cipher shares: cleaning the input
//! and laying out the output.

use vstd::prelude::*;
use vstd::std_specs::convert::TryFromSpecImpl;
use vstd::std_specs::ops::{AddSpecImpl, SubSpecImpl};
use std::ops::{Add, Sub};
use crate::errors::Error;

verus! {

/// A byte that is guaranteed to lie in the range `A`-`Z`.
#[derive(Copy, Clone, Debug, PartialEq, Eq, Hash, Structural)]
pub struct AsciiUppercaseByte(u8);

/// The byte `A`, the first letter.
pub const FIRST_LETTER: u8 = 0x41;

/// The byte `Z`, the last letter.
pub const LAST_LETTER: u8 = 0x5a;

/// Whether `b` is one of the 26 bytes `A`-`Z`.
pub open spec fn is_upper(b: u8) -> bool {
    FIRST_LETTER <= b <= LAST_LETTER
}

/// Whether every byte of `bytes` is one of `A`-`Z`.
pub open spec fn all_upper(bytes: Seq<u8>) -> bool {
    forall|i: int| 0 <= i < bytes.len() ==> is_upper(#[trigger] bytes[i])
}

/// The byte that stands for `b` once lower-case letters are raised: `a`-`z`
/// become `A`-`Z`, every other byte stays as it is.
pub open spec fn uppercased(b: u8) -> u8 {
    if 0x61 <= b <= 0x7a {
        (b - 0x20) as u8
    } else {
        b
    }
}

/// What is left of `input` after cleaning: its letters, raised to upper case,
/// in their order.
pub open spec fn sanitized(input: Seq<u8>) -> Seq<u8> {
    input.map_values(|b: u8| uppercased(b)).filter(|b: u8| is_upper(b))
}

/// Whether a key can be used on a text: a key without a single letter goes
/// with a text without a single letter only.
pub open spec fn key_fits(key: Seq<u8>, text: Seq<u8>) -> bool {
    sanitized(key).len() > 0 || sanitized(text).len() == 0
}

/// What is written in front of the letter at index `i` of the output: a space
/// before every fifth letter, and a line break after that space before every
/// twenty-fifth.
pub open spec fn separator_before(i: int) -> Seq<u8> {
    if i != 0 && i % 25 == 0 {
        seq![0x20u8, 0x0au8]
    } else if i != 0 && i % 5 == 0 {
        seq![0x20u8]
    } else {
        Seq::empty()
    }
}

/// The bytes of the laid-out text: the letters in groups of five.
pub open spec fn formatted(letters: Seq<u8>) -> Seq<u8>
    decreases letters.len(),
{
    if letters.len() == 0 {
        Seq::empty()
    } else {
        formatted(letters.drop_last()) + separator_before(letters.len() - 1).push(letters.last())
    }
}

/// The characters that a sequence of ASCII bytes spells.
pub open spec fn as_chars(bytes: Seq<u8>) -> Seq<char> {
    bytes.map_values(|b: u8| b as char)
}

/// The sum of two letters: their places in the alphabet are added, and the
/// count starts again at `A` after `Z`.
pub open spec fn letter_sum(left: u8, right: u8) -> u8 {
    (((left - FIRST_LETTER) + (right - FIRST_LETTER)) % 26 + FIRST_LETTER) as u8
}

/// The difference of two letters: the letter that gives `left` when `right`
/// is added to it.
pub open spec fn letter_difference(left: u8, right: u8) -> u8 {
    (((left - FIRST_LETTER) + (26 - (right - FIRST_LETTER))) % 26 + FIRST_LETTER) as u8
}

impl View for AsciiUppercaseByte {
    type V = u8;

    closed spec fn view(&self) -> u8 {
        self.0
    }
}

/// The bytes that a sequence of letters holds, in order.
pub open spec fn bytes_of(letters: Seq<AsciiUppercaseByte>) -> Seq<u8> {
    Seq::new(letters.len(), |i: int| letters[i]@)
}

impl AsciiUppercaseByte {
    #[verifier::type_invariant]
    spec fn in_alphabet(self) -> bool {
        is_upper(self.0)
    }

    /// Returns the underlying byte value
    pub fn get_byte(&self) -> (b: u8)
        ensures
            b == self@,
            is_upper(b),
    {
        proof {
            use_type_invariant(self);
        }
        self.0
    }
}

/// A letter is its byte and nothing more: two letters that hold the same
/// byte are the same letter.
pub proof fn lemma_letter_is_its_byte(first: AsciiUppercaseByte, second: AsciiUppercaseByte)
    requires
        first@ == second@,
    ensures
        first == second,
{
}

/// Two sequences of letters that hold the same bytes are the same sequence.
pub proof fn lemma_letters_are_their_bytes(
    first: Seq<AsciiUppercaseByte>,
    second: Seq<AsciiUppercaseByte>,
)
    requires
        bytes_of(first) == bytes_of(second),
    ensures
        first == second,
{
    assert(first.len() == bytes_of(first).len());
    assert(second.len() == bytes_of(second).len());
    assert forall|i: int| 0 <= i < first.len() implies first[i] == second[i] by {
        assert(bytes_of(first)[i] == first[i]@);
        assert(bytes_of(second)[i] == second[i]@);
        lemma_letter_is_its_byte(first[i], second[i]);
    }
    assert(first =~= second);
}

impl Add for AsciiUppercaseByte {
    type Output = AsciiUppercaseByte;

    fn add(self, other: Self) -> (sum: Self)
        ensures
            sum@ == letter_sum(self@, other@),
    {
        proof {
            use_type_invariant(self);
            use_type_invariant(other);
        }
        let me = self.0 - FIRST_LETTER;
        let other = other.0 - FIRST_LETTER;

        let result = (me + other) % 26;

        AsciiUppercaseByte(result + FIRST_LETTER)
    }
}

impl AddSpecImpl for AsciiUppercaseByte {
    open spec fn obeys_add_spec() -> bool {
        true
    }

    open spec fn add_req(self, other: Self) -> bool {
        true
    }

    closed spec fn add_spec(self, other: Self) -> Self {
        AsciiUppercaseByte(letter_sum(self.0, other.0))
    }
}

impl Sub for AsciiUppercaseByte {
    type Output = AsciiUppercaseByte;

    fn sub(self, other: Self) -> (difference: Self)
        ensures
            difference@ == letter_difference(self@, other@),
    {
        proof {
            use_type_invariant(self);
            use_type_invariant(other);
        }
        let me = self.0 - FIRST_LETTER;
        let other = 26 - (other.0 - FIRST_LETTER);

        let result = (me + other) % 26;

        AsciiUppercaseByte(result + FIRST_LETTER)
    }
}

impl SubSpecImpl for AsciiUppercaseByte {
    open spec fn obeys_sub_spec() -> bool {
        true
    }

    open spec fn sub_req(self, other: Self) -> bool {
        true
    }

    closed spec fn sub_spec(self, other: Self) -> Self {
        AsciiUppercaseByte(letter_difference(self.0, other.0))
    }
}

impl TryFrom<u8> for AsciiUppercaseByte {
    type Error = Error;

    fn try_from(value: u8) -> (result: Result<Self, Error>)
        ensures
            is_upper(value) ==> (result matches Ok(letter) && letter@ == value),
            !is_upper(value) ==> result == Err::<Self, Error>(Error::AsciiUppercaseError(value)),
    {
        if value >= FIRST_LETTER && value <= LAST_LETTER {
            Ok(Self(value))
        } else {
            Err(Error::AsciiUppercaseError(value))
        }
    }
}

impl TryFromSpecImpl<u8> for AsciiUppercaseByte {
    open spec fn obeys_try_from_spec() -> bool {
        true
    }

    closed spec fn try_from_spec(value: u8) -> Result<Self, Error> {
        if is_upper(value) {
            Ok(AsciiUppercaseByte(value))
        } else {
            Err(Error::AsciiUppercaseError(value))
        }
    }
}

/// Uppercases, and removes any non-alphabetic characters from the text
pub fn sanitize_text(input: &[u8]) -> (letters: Vec<AsciiUppercaseByte>)
    ensures
        bytes_of(letters@) == sanitized(input@),
        all_upper(bytes_of(letters@)),
{
    let ghost raise = |b: u8| uppercased(b);
    let ghost keep = |b: u8| is_upper(b);
    let mut letters: Vec<AsciiUppercaseByte> = Vec::new();
    let mut i: usize = 0;
    proof {
        reveal(Seq::filter);
        assert(input@.take(0).map_values(raise) =~= Seq::<u8>::empty());
        assert(bytes_of(letters@) =~= sanitized(input@.take(0)));
    }
    while i < input.len()
        invariant
            i <= input@.len(),
            raise == |b: u8| uppercased(b),
            keep == |b: u8| is_upper(b),
            bytes_of(letters@) == input@.take(i as int).map_values(raise).filter(keep),
            all_upper(bytes_of(letters@)),
        decreases input@.len() - i,
    {
        let byte = input[i];
        let raised: u8 = if byte >= 0x61 && byte <= 0x7a {
            byte - 0x20
        } else {
            byte
        };
        let ghost before = bytes_of(letters@);
        proof {
            let seen = input@.take(i as int);
            assert(input@.take(i + 1) =~= seen.push(byte));
            seen.lemma_push_map_commute(raise, byte);
            seen.map_values(raise).lemma_filter_push(raised, keep);
        }
        if raised >= FIRST_LETTER && raised <= LAST_LETTER {
            letters.push(AsciiUppercaseByte(raised));
            assert(bytes_of(letters@) =~= before.push(raised));
        }
        i += 1;
    }
    assert(input@.take(input@.len() as int) =~= input@);
    letters
}

/// The one-letter string slice that spells `letter`.
pub(crate) fn spelled(letter: AsciiUppercaseByte) -> (text: &'static str)
    ensures
        text@ == seq![letter@ as char],
{
    let alphabet: &'static str = "ABCDEFGHIJKLMNOPQRSTUVWXYZ";
    let place = (letter.get_byte() - FIRST_LETTER) as usize;
    proof {
        reveal_strlit("ABCDEFGHIJKLMNOPQRSTUVWXYZ");
    }
    let text = alphabet.substring_ascii(place, place + 1);
    assert(text@ =~= seq![letter@ as char]);
    text
}

/// Format output for pretty-printing to the console
///
/// The letters are split into groups of five, separated by a space; after
/// every fifth group a line break follows the space.
pub fn format_output(output: Vec<AsciiUppercaseByte>) -> (text: String)
    ensures
        text@ == as_chars(formatted(bytes_of(output@))),
{
    let ghost letters = bytes_of(output@);
    let mut text = String::new();
    let mut i: usize = 0;
    proof {
        assert(text@ =~= as_chars(formatted(letters.take(0))));
    }
    while i < output.len()
        invariant
            i <= output@.len(),
            letters == bytes_of(output@),
            text@ == as_chars(formatted(letters.take(i as int))),
        decreases output@.len() - i,
    {
        proof {
            reveal_strlit(" ");
            reveal_strlit("\n");
            assert(letters.take(i + 1).drop_last() =~= letters.take(i as int));
        }
        // Add white space every 5 elements
        if i % 5 == 0 && i != 0 {
            text.append(" ");
        }
        // Add a new line every 25 elements
        if i % 25 == 0 && i != 0 {
            text.append("\n");
        }
        text.append(spelled(output[i]));
        i += 1;
        assert(text@ =~= as_chars(formatted(letters.take(i as int))));
    }
    assert(letters.take(output@.len() as int) =~= letters);
    text
}

/// Cleaning goes through the input byte by byte: a letter is kept, raised
/// if need be, and any other byte is dropped.
pub proof fn lemma_sanitized_push(input: Seq<u8>, b: u8)
    ensures
        sanitized(input.push(b)) == if is_upper(uppercased(b)) {
            sanitized(input).push(uppercased(b))
        } else {
            sanitized(input)
        },
        sanitized(Seq::<u8>::empty()) == Seq::<u8>::empty(),
{
    let raise = |b: u8| uppercased(b);
    let keep = |b: u8| is_upper(b);
    input.lemma_push_map_commute(raise, b);
    input.map_values(raise).lemma_filter_push(uppercased(b), keep);
    reveal(Seq::filter);
    assert(Seq::<u8>::empty().map_values(raise) =~= Seq::<u8>::empty());
}

/// Cleaning two texts one after the other is cleaning them as one.
pub proof fn lemma_sanitized_add(first: Seq<u8>, second: Seq<u8>)
    ensures
        sanitized(first + second) == sanitized(first) + sanitized(second),
    decreases second.len(),
{
    if second.len() == 0 {
        lemma_sanitized_push(first, 0);
        assert(first + second =~= first);
        assert(sanitized(first) + sanitized(second) =~= sanitized(first));
    } else {
        let front = second.drop_last();
        lemma_sanitized_add(first, front);
        lemma_sanitized_push(first + front, second.last());
        lemma_sanitized_push(front, second.last());
        assert(front.push(second.last()) =~= second);
        assert((first + front).push(second.last()) =~= first + second);
        assert(sanitized(first) + sanitized(front).push(uppercased(second.last()))
            =~= (sanitized(first) + sanitized(front)).push(uppercased(second.last())));
    }
}

/// What is left after cleaning holds letters only, and no more of them than
/// the input held bytes.
pub proof fn lemma_sanitized_is_upper(input: Seq<u8>)
    ensures
        all_upper(sanitized(input)),
        sanitized(input).len() <= input.len(),
    decreases input.len(),
{
    if input.len() == 0 {
        lemma_sanitized_push(input, 0);
        assert(input =~= Seq::<u8>::empty());
    } else {
        lemma_sanitized_is_upper(input.drop_last());
        lemma_sanitized_push(input.drop_last(), input.last());
        assert(input.drop_last().push(input.last()) =~= input);
    }
}

/// Cleaning leaves a text of upper-case letters as it is.
pub proof fn lemma_sanitized_keeps_letters(letters: Seq<u8>)
    requires
        all_upper(letters),
    ensures
        sanitized(letters) == letters,
    decreases letters.len(),
{
    if letters.len() == 0 {
        lemma_sanitized_push(letters, 0);
        assert(letters =~= Seq::<u8>::empty());
    } else {
        lemma_sanitized_keeps_letters(letters.drop_last());
        lemma_sanitized_push(letters.drop_last(), letters.last());
        assert(letters.drop_last().push(letters.last()) =~= letters);
    }
}

/// Cleaning a second time changes nothing.
pub proof fn lemma_sanitized_twice(input: Seq<u8>)
    ensures
        sanitized(sanitized(input)) == sanitized(input),
{
    lemma_sanitized_is_upper(input);
    lemma_sanitized_keeps_letters(sanitized(input));
}

/// The layout adds spaces and line breaks only: cleaning the laid-out text
/// gives the letters back.
pub proof fn lemma_sanitized_formatted(letters: Seq<u8>)
    requires
        all_upper(letters),
    ensures
        sanitized(formatted(letters)) == letters,
    decreases letters.len(),
{
    if letters.len() == 0 {
        lemma_sanitized_push(letters, 0);
        assert(letters =~= Seq::<u8>::empty());
    } else {
        let front = letters.drop_last();
        let separator = separator_before(letters.len() - 1);
        lemma_sanitized_formatted(front);
        lemma_sanitized_add(formatted(front), separator.push(letters.last()));
        lemma_sanitized_push(separator, letters.last());
        lemma_sanitized_push(Seq::<u8>::empty(), 0x20u8);
        lemma_sanitized_push(seq![0x20u8], 0x0au8);
        assert(Seq::<u8>::empty().push(0x20u8) =~= seq![0x20u8]);
        assert(seq![0x20u8].push(0x0au8) =~= seq![0x20u8, 0x0au8]);
        assert(sanitized(separator) =~= Seq::<u8>::empty());
        assert(front + Seq::<u8>::empty().push(letters.last()) =~= letters);
    }
}

} // verus!
