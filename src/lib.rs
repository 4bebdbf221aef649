//! Finds the words whose letters avoid those of exactly one state name.
//!
//! Each input line becomes a charset (its distinct characters, space excluded,
//! in ascending order). A word pairs with a state when their charsets share no
//! character, and the pair is kept only when no state of another name is
//! disjoint from the word as well.
pub mod charset;
pub mod entry;
pub mod pipeline;
