//! The one way to query an index, whatever holds it.

use crate::order::spelled_out;
use vstd::prelude::*;

verus! {

/// The words that `contents` holds under `key`, in their stored order; none
/// when the key is absent.
pub open spec fn found_under(
    contents: Map<Seq<u8>, Seq<Seq<char>>>,
    key: Seq<u8>,
) -> Seq<Seq<char>> {
    if contents.contains_key(key) {
        contents[key]
    } else {
        Seq::empty()
    }
}

/// A mapping from signatures to word lists that can be queried. It is
/// implemented by the index built in memory and by the view of a stored
/// index, so that a search need not know which of the two it runs on.
pub trait SignatureLookup {
    /// Whether the value is in a state that its type allows.
    spec fn valid(&self) -> bool;

    /// The mapping that the value stands for.
    spec fn contents(&self) -> Map<Seq<u8>, Seq<Seq<char>>>;

    /// Tells whether the mapping has no key at all.
    fn is_empty(&self) -> (empty: bool)
        requires
            self.valid(),
        ensures
            empty <==> forall|key: Seq<u8>| !self.contents().contains_key(key),
    ;

    /// Appends to `out` every word stored under exactly `key`, in stored
    /// order; nothing when the key is absent.
    fn append_matches<'a>(&'a self, key: &[u8], out: &mut Vec<&'a str>)
        requires
            self.valid(),
        ensures
            spelled_out(final(out)@) == spelled_out(old(out)@) + found_under(
                self.contents(),
                key@,
            ),
    ;
}

/// Whether the index must be built from the word source: when no stored
/// index could be read, or the one that was read has no entry.
pub fn must_rebuild<L: SignatureLookup>(loaded: Option<&L>) -> (rebuild: bool)
    requires
        loaded matches Some(index) ==> index.valid(),
    ensures
        rebuild <==> (loaded matches Some(index) ==> forall|key: Seq<u8>|
            !index.contents().contains_key(key)),
{
    match loaded {
        Some(index) => index.is_empty(),
        None => true,
    }
}

} // verus!
