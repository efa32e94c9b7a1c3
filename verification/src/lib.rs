//! Candidate lines and ranked results for an interactive fuzzy search.
//!
//! [`item::Item`] wraps one line of input: its display text, the lowercase
//! fold of its characters, and the display attributes that were embedded in
//! it as escape sequences. [`matched::MatchedItem`] is one search result,
//! ordered by its rank alone. [`ansi`] holds the grammar of the escape
//! sequences and the parser that removes them; [`text`] holds what all of
//! these need to know about characters.

pub mod ansi;
pub mod item;
pub mod matched;
pub mod text;

pub use item::{Item, ItemView};
pub use matched::{MatchedItem, MatchedRange, Rank};
