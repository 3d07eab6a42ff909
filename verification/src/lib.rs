//! Classical pen-and-paper ciphers and simple cryptanalysis aids.
//!
//! The heart of the crate is the columnar transposition cipher in
//! [`column_transposition`]; the Vigenere family and the frequency counters
//! are small companions that share the letter type of [`common`].

pub mod errors;
pub mod common;
pub mod text;
pub mod key;
pub mod grid;
pub mod column_transposition;
pub mod columnar_transposition;
pub mod frequency;
pub mod letter_frequency;
pub mod vigenere;
pub mod vigenere_autokey;
pub mod vigenere_standard;
