//! One entry of the index: a set of letters and the words filed under it.

use crate::order::{rank_bytes, Rank};
use vstd::prelude::*;

verus! {

/// What each of the strings spells.
pub open spec fn spelling(words: Seq<String>) -> Seq<Seq<char>> {
    Seq::new(words.len(), |i: int| words[i]@)
}

/// A set of letters, held as a sequence of bytes, with the words that were
/// filed under it, in the order they came.
#[derive(Clone, Debug)]
pub struct LetterSet {
    /// The letters of the set.
    pub letters: Vec<u8>,
    /// The words filed under the set.
    pub words: Vec<String>,
}

impl LetterSet {
    /// What the words of the set spell, in order.
    pub open spec fn spelled(&self) -> Seq<Seq<char>> {
        spelling(self.words@)
    }

    /// A letter set with the given letters and no words yet.
    pub fn new(letters: Vec<u8>) -> (set: Self)
        ensures
            set.letters == letters,
            set.words@.len() == 0,
    {
        Self { letters, words: Vec::new() }
    }
}

impl AsRef<[u8]> for LetterSet {
    /// The letters of the set.
    fn as_ref(&self) -> (letters: &[u8])
        ensures
            letters@ == self.letters@,
    {
        self.letters.as_slice()
    }
}

impl PartialEq for LetterSet {
    /// Two letter sets are equal when their letters are, whatever words
    /// they hold.
    fn eq(&self, other: &Self) -> (same: bool) {
        rank_bytes(self.letters.as_slice(), other.letters.as_slice()) == Rank::Same
    }
}

impl vstd::std_specs::cmp::PartialEqSpecImpl for LetterSet {
    open spec fn obeys_eq_spec() -> bool {
        true
    }

    open spec fn eq_spec(&self, other: &Self) -> bool {
        self.letters@ == other.letters@
    }
}

} // verus!
