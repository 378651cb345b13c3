//! A small JSON reader in two stages: a scanner that turns source text into
//! positioned tokens while collecting every lexical fault it meets, and a
//! recursive-descent parser that turns tokens into a value tree and stops at
//! the first structural fault.
//!
//! Choices the grammar leaves open:
//! - A number is a run of decimal digits whose value fits in an unsigned
//!   32-bit integer. A word of digits, `-` and `.` that is not one (a sign, a
//!   fraction, a larger value) is a lexical fault, so every number token the
//!   scanner gives converts.
//! - Strings take their characters as they stand: a backslash has no meaning.
//! - In an object, a key seen again replaces the earlier value in its place.
//! - Arrays and objects nest at most [`parser::MAX_DEPTH`] levels deep.

pub mod literal;
/// The text of a flat array of scalars, and what scanning and parsing it gives.
pub mod flat;
pub mod parser;
pub mod scan;
pub mod tokenizer;
pub mod types;
