//! Index engine and solver for a letter-subset word puzzle: given a set of
//! allowed letters, find every word of a word list whose distinct letters
//! are among them.
//!
//! Words are filed under their [`signature`]: the distinct letters of the
//! word in ascending order. A search enumerates the [`subsets`] of the
//! allowed letters and looks each of them up, in the [`index`] built from
//! the word list or in the view of a stored index that [`cache`] reads in
//! place; both answer through the one contract in [`lookup`]. The
//! [`solver`] gathers what is found and sorts it by the [`order`] of words,
//! and [`report`] writes the lines to show.

pub mod cache;
pub mod index;
pub mod letter_set;
pub mod lookup;
pub mod order;
pub mod report;
pub mod signature;
pub mod solver;
pub mod subsets;
