//! Do a letter count and draw the resulting histogram

use vstd::prelude::*;
use std::collections::HashMap;
use crate::common::{as_chars, sanitized};
use crate::frequency::{histogram_lines, single_letter, single_letter_histogram, tallies};

verus! {

/// Counts how often each letter appears in `text`, once the text is cleaned;
/// each letter is kept under its byte.
pub fn get_letter_frequency(text: &[u8]) -> (counts: HashMap<u8, usize>)
    ensures
        tallies(counts@, sanitized(text@).to_multiset()),
{
    single_letter(text)
}

/// Draws a letter count as a histogram: one line for each letter of the
/// alphabet, with one bar for each time that it was counted.
pub fn histogram(map: &HashMap<u8, usize>) -> (text: String)
    ensures
        text@ == as_chars(histogram_lines(map@, 26)),
{
    single_letter_histogram(map)
}

} // verus!
