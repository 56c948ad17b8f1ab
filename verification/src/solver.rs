//! The search itself: probe the index with every subset of the allowed
//! letters, gather what is found, and put it in order.

use crate::index::{excluded, filed_under, index_of};
use crate::lookup::{found_under, SignatureLookup};
use crate::order::{sort_words, spelled_out, words_sorted};
use crate::signature::{factor, lemma_signature_characterized, signature};
use crate::subsets::{
    all_subsets, can_enumerate, fits_enumeration, least_len, lemma_subset_bounds,
    lemma_subsets_complete, lemma_subsets_distinct, subsets, within,
};
use vstd::prelude::*;

verus! {

/// The least number of distinct letters of a word that is looked for.
pub const MIN_LEN: usize = 4;

/// Whether a subset passes the pivot: with a pivot given, only subsets that
/// hold it are probed. The pivot is compared as the byte it is; it is not
/// folded to lower case.
pub open spec fn keeps(pivot: Option<u8>, subset: Seq<u8>) -> bool {
    match pivot {
        Some(letter) => subset.contains(letter),
        None => true,
    }
}

/// The words found by probing `contents` with each of `probes` that passes
/// the pivot, in the order of the probes and, under one probe, in stored
/// order.
pub open spec fn gathered(
    contents: Map<Seq<u8>, Seq<Seq<char>>>,
    probes: Seq<Seq<u8>>,
    pivot: Option<u8>,
) -> Seq<Seq<char>>
    decreases probes.len(),
{
    if probes.len() == 0 {
        Seq::empty()
    } else {
        let earlier = gathered(contents, probes.drop_last(), pivot);
        if keeps(pivot, probes.last()) {
            earlier + found_under(contents, probes.last())
        } else {
            earlier
        }
    }
}

/// The words that a search for `letters` finds in `contents`, before they
/// are put in order.
pub open spec fn candidates(
    contents: Map<Seq<u8>, Seq<Seq<char>>>,
    letters: Seq<char>,
    pivot: Option<u8>,
    min_len: nat,
) -> Seq<Seq<char>> {
    gathered(contents, all_subsets(signature(letters), min_len), pivot)
}

/// Probes that all fail the pivot find nothing.
pub proof fn lemma_gathered_nothing(
    contents: Map<Seq<u8>, Seq<Seq<char>>>,
    probes: Seq<Seq<u8>>,
    pivot: Option<u8>,
)
    requires
        forall|i: int| 0 <= i < probes.len() ==> !keeps(pivot, #[trigger] probes[i]),
    ensures
        gathered(contents, probes, pivot) == Seq::<Seq<char>>::empty(),
    decreases probes.len(),
{
    if probes.len() > 0 {
        assert forall|i: int| 0 <= i < probes.drop_last().len() implies !keeps(
            pivot,
            #[trigger] probes.drop_last()[i],
        ) by {
            assert(probes.drop_last()[i] == probes[i]);
        }
        lemma_gathered_nothing(contents, probes.drop_last(), pivot);
        assert(!keeps(pivot, probes[probes.len() - 1]));
    }
}

/// A pivot that is not among the allowed letters leaves nothing to find,
/// whatever the index holds.
pub proof fn lemma_foreign_pivot_finds_nothing(
    contents: Map<Seq<u8>, Seq<Seq<char>>>,
    letters: Seq<char>,
    pivot: u8,
    min_len: nat,
)
    requires
        !signature(letters).contains(pivot),
    ensures
        candidates(contents, letters, Some(pivot), min_len) == Seq::<Seq<char>>::empty(),
{
    let probes = all_subsets(signature(letters), min_len);
    assert forall|i: int| 0 <= i < probes.len() implies !keeps(
        Some(pivot),
        #[trigger] probes[i],
    ) by {
        lemma_subset_bounds(signature(letters), min_len, i);
    }
    lemma_gathered_nothing(contents, probes, Some(pivot));
}

/// Whether `word` is one of the words that a search for `letters` is
/// meant to find in the word list `source`: an accepted word of the list
/// whose signature lies within the signature of `letters`, has at least
/// `min_len` letters and at least one, and holds the pivot if one is given.
pub open spec fn is_match(
    source: Seq<Seq<char>>,
    letters: Seq<char>,
    pivot: Option<u8>,
    min_len: nat,
    word: Seq<char>,
) -> bool {
    &&& source.contains(word)
    &&& !excluded(word)
    &&& within(signature(word), signature(letters))
    &&& signature(word).len() >= least_len(min_len)
    &&& keeps(pivot, signature(word))
}

/// How often a word is listed under a key: as often as it occurs in the
/// source when it is accepted and has that signature, else not at all.
pub proof fn lemma_filed_under_count(source: Seq<Seq<char>>, key: Seq<u8>, word: Seq<char>)
    ensures
        filed_under(source, key).to_multiset().count(word) == if !excluded(word) && signature(word)
            == key {
            source.to_multiset().count(word)
        } else {
            0
        },
    decreases source.len(),
{
    broadcast use vstd::seq_lib::group_to_multiset_ensures;
    broadcast use vstd::multiset::group_multiset_axioms;

    if source.len() == 0 {
        assert(filed_under(source, key).to_multiset().count(word) == 0);
        assert(source.to_multiset().count(word) == 0);
    } else {
        let earlier = source.drop_last();
        let last = source.last();
        lemma_filed_under_count(earlier, key, word);
        assert(source =~= earlier.push(last));
        vstd::seq_lib::to_multiset_build(earlier, last);
        if !excluded(last) && signature(last) == key {
            vstd::seq_lib::to_multiset_build(filed_under(earlier, key), last);
        }
    }
}

/// How often a word is gathered from the index of a word list by probes that
/// are all different: as often as it occurs in the list when it is accepted
/// and its signature is one of the probes and passes the pivot, else not at
/// all.
pub proof fn lemma_gathered_count(
    source: Seq<Seq<char>>,
    probes: Seq<Seq<u8>>,
    pivot: Option<u8>,
    word: Seq<char>,
)
    requires
        forall|i: int, j: int| 0 <= i < j < probes.len() ==> probes[i] != probes[j],
    ensures
        gathered(index_of(source), probes, pivot).to_multiset().count(word) == if !excluded(word)
            && probes.contains(signature(word)) && keeps(pivot, signature(word)) {
            source.to_multiset().count(word)
        } else {
            0
        },
    decreases probes.len(),
{
    broadcast use vstd::seq_lib::group_to_multiset_ensures;
    broadcast use vstd::multiset::group_multiset_axioms;

    let contents = index_of(source);
    if probes.len() == 0 {
        assert(gathered(contents, probes, pivot).to_multiset().count(word) == 0);
    } else {
        let earlier = probes.drop_last();
        let last = probes.last();
        assert forall|i: int, j: int| 0 <= i < j < earlier.len() implies earlier[i] != earlier[j] by {
            assert(earlier[i] == probes[i] && earlier[j] == probes[j]);
        }
        lemma_gathered_count(source, earlier, pivot, word);
        let found = found_under(contents, last);
        assert(found == filed_under(source, last)) by {
            if !contents.contains_key(last) {
                assert(filed_under(source, last) =~= Seq::<Seq<char>>::empty());
            }
        }
        lemma_filed_under_count(source, last, word);
        vstd::seq_lib::lemma_multiset_commutative(gathered(contents, earlier, pivot), found);
        assert(probes[probes.len() - 1] == last);
        if earlier.contains(signature(word)) {
            let i = choose|i: int| 0 <= i < earlier.len() && earlier[i] == signature(word);
            assert(probes[i] == signature(word));
            assert(probes.contains(signature(word)));
            assert(last != signature(word));
        } else if probes.contains(signature(word)) {
            let i = choose|i: int| 0 <= i < probes.len() && probes[i] == signature(word);
            if i < earlier.len() {
                assert(earlier[i] == signature(word));
            }
            assert(last == signature(word));
        } else {
            assert(last != signature(word));
        }
    }
}

/// What a search finds in the index of a word list, said of the words
/// themselves: every match is found as often as it occurs in the list, and
/// nothing else is found.
pub proof fn lemma_search_finds_the_matches(
    source: Seq<Seq<char>>,
    letters: Seq<char>,
    pivot: Option<u8>,
    min_len: nat,
    word: Seq<char>,
)
    ensures
        candidates(index_of(source), letters, pivot, min_len).to_multiset().count(word) == if is_match(
            source,
            letters,
            pivot,
            min_len,
            word,
        ) {
            source.to_multiset().count(word)
        } else {
            0
        },
{
    broadcast use vstd::seq_lib::group_to_multiset_ensures;

    let allowed = signature(letters);
    let probes = all_subsets(allowed, min_len);
    lemma_signature_characterized(letters, allowed);
    lemma_signature_characterized(word, signature(word));
    assert forall|i: int, j: int| 0 <= i < j < probes.len() implies probes[i] != probes[j] by {
        lemma_subsets_distinct(allowed, min_len, i, j);
    }
    lemma_gathered_count(source, probes, pivot, word);
    if probes.contains(signature(word)) {
        let i = choose|i: int| 0 <= i < probes.len() && probes[i] == signature(word);
        lemma_subset_bounds(allowed, min_len, i);
    }
    if within(signature(word), allowed) && signature(word).len() >= least_len(min_len) {
        lemma_subsets_complete(allowed, min_len, signature(word));
    }
}

/// Tells whether `byte` occurs in `bytes`.
pub fn has_byte(bytes: &[u8], byte: u8) -> (found: bool)
    ensures
        found == bytes@.contains(byte),
{
    let mut i: usize = 0;
    while i < bytes.len()
        invariant
            i <= bytes.len(),
            forall|k: int| 0 <= k < i ==> bytes@[k] != byte,
        decreases bytes.len() - i,
    {
        if bytes[i] == byte {
            return true;
        }
        i = i + 1;
    }
    false
}

/// Finds the words of the index whose signature is one of `probes` that
/// passes the pivot.
pub fn gather<'a, L: SignatureLookup>(
    index: &'a L,
    probes: &Vec<Vec<u8>>,
    pivot: Option<u8>,
) -> (words: Vec<&'a str>)
    requires
        index.valid(),
    ensures
        spelled_out(words@) == gathered(index.contents(), probes.deep_view(), pivot),
{
    let mut words: Vec<&'a str> = Vec::new();
    let ghost all = probes.deep_view();
    let mut i: usize = 0;
    assert(spelled_out(words@) =~= gathered(index.contents(), all.take(0), pivot));
    while i < probes.len()
        invariant
            i <= probes.len(),
            index.valid(),
            all == probes.deep_view(),
            spelled_out(words@) == gathered(index.contents(), all.take(i as int), pivot),
        decreases probes.len() - i,
    {
        let probe = &probes[i];
        proof {
            assert(all.take(i + 1).drop_last() =~= all.take(i as int));
            assert(all.take(i + 1).last() == all[i as int]);
            assert(all[i as int] == probe@);
        }
        let wanted = match pivot {
            Some(letter) => has_byte(probe.as_slice(), letter),
            None => true,
        };
        if wanted {
            index.append_matches(probe.as_slice(), &mut words);
        }
        i = i + 1;
    }
    assert(all.take(i as int) =~= all);
    words
}

/// Solves the puzzle: every word of the index whose signature is a subset
/// of the signature of `letters` with at least `min_len` letters (and at
/// least one), holding the pivot where one is given; sorted by length, then
/// byte by byte. The result is the sorted arrangement of `candidates`.
pub fn solve<'a, L: SignatureLookup>(
    index: &'a L,
    letters: &str,
    pivot: Option<u8>,
    min_len: usize,
) -> (words: Vec<&'a str>)
    requires
        index.valid(),
        can_enumerate(signature(letters@).len(), min_len as nat),
    ensures
        words_sorted(spelled_out(words@)),
        spelled_out(words@).to_multiset() == candidates(
            index.contents(),
            letters@,
            pivot,
            min_len as nat,
        ).to_multiset(),
{
    let factors = factor(letters);
    let probes = subsets(factors.as_slice(), min_len);
    let mut words = gather(index, &probes, pivot);
    sort_words(&mut words);
    words
}

/// As `solve`, for any letters: `None` when there are too many distinct
/// letters for their subsets to be enumerated on this machine.
pub fn try_solve<'a, L: SignatureLookup>(
    index: &'a L,
    letters: &str,
    pivot: Option<u8>,
    min_len: usize,
) -> (found: Option<Vec<&'a str>>)
    requires
        index.valid(),
    ensures
        found is Some <==> can_enumerate(signature(letters@).len(), min_len as nat),
        found matches Some(words) ==> words_sorted(spelled_out(words@)) && spelled_out(
            words@,
        ).to_multiset() == candidates(index.contents(), letters@, pivot, min_len as nat).to_multiset(),
{
    let factors = factor(letters);
    if fits_enumeration(factors.len(), min_len) {
        Some(solve(index, letters, pivot, min_len))
    } else {
        None
    }
}

} // verus!
