//! The index built in memory: for each signature the words that have it.
//!
//! The entries are kept in short-lex order of their signatures, one entry
//! per signature, so that a signature is found by bisection.

use crate::letter_set::{spelling, LetterSet};
use crate::lookup::{found_under, SignatureLookup};
use crate::order::{rank_bytes, shortlex_lt, spelled_out, Rank};
use crate::signature::{factor, signature};
use vstd::prelude::*;

verus! {

/// Whether a character keeps a word out of the index: an ASCII upper-case
/// letter marks a proper noun, an apostrophe a contraction or possessive.
pub open spec fn excluding(c: char) -> bool {
    ('A' <= c && c <= 'Z') || c == '\''
}

/// Whether a word is kept out of the index.
pub open spec fn excluded(word: Seq<char>) -> bool {
    exists|i: int| 0 <= i < word.len() && excluding(word[i])
}

/// The accepted words of `words` that have the signature `key`, in the
/// order of `words`.
pub open spec fn filed_under(words: Seq<Seq<char>>, key: Seq<u8>) -> Seq<Seq<char>>
    decreases words.len(),
{
    if words.len() == 0 {
        Seq::empty()
    } else {
        let earlier = filed_under(words.drop_last(), key);
        if !excluded(words.last()) && signature(words.last()) == key {
            earlier.push(words.last())
        } else {
            earlier
        }
    }
}

/// The index of a word list: each signature that an accepted word has,
/// mapped to the accepted words with that signature, in the order of the
/// list.
pub open spec fn index_of(words: Seq<Seq<char>>) -> Map<Seq<u8>, Seq<Seq<char>>> {
    Map::new(
        |key: Seq<u8>| filed_under(words, key).len() > 0,
        |key: Seq<u8>| filed_under(words, key),
    )
}

/// The mapping after `word` is offered to it: unchanged when the word is
/// excluded, else with the word appended to the list of its signature.
pub open spec fn filed(
    contents: Map<Seq<u8>, Seq<Seq<char>>>,
    word: Seq<char>,
) -> Map<Seq<u8>, Seq<Seq<char>>> {
    if excluded(word) {
        contents
    } else {
        contents.insert(signature(word), found_under(contents, signature(word)).push(word))
    }
}

/// Whether the entries are in strictly ascending short-lex order of their
/// letters, which also means that no two have the same letters.
pub open spec fn keys_ascend(entries: Seq<LetterSet>) -> bool {
    forall|i: int, j: int|
        0 <= i < j < entries.len() ==> shortlex_lt(
            #[trigger] entries[i].letters@,
            #[trigger] entries[j].letters@,
        )
}

/// Whether some entry has the letters `key`.
pub open spec fn holds_key(entries: Seq<LetterSet>, key: Seq<u8>) -> bool {
    exists|i: int| 0 <= i < entries.len() && #[trigger] entries[i].letters@ == key
}

/// The position of an entry with the letters `key`.
pub open spec fn slot(entries: Seq<LetterSet>, key: Seq<u8>) -> int {
    choose|i: int| 0 <= i < entries.len() && #[trigger] entries[i].letters@ == key
}

/// The mapping that a list of entries stands for: the letters of each entry
/// mapped to what its words spell.
pub open spec fn contents_of(entries: Seq<LetterSet>) -> Map<Seq<u8>, Seq<Seq<char>>> {
    Map::new(
        |key: Seq<u8>| holds_key(entries, key),
        |key: Seq<u8>| entries[slot(entries, key)].spelled(),
    )
}

/// With ascending keys, the entry at position `i` is the one that the
/// mapping has for its letters.
pub proof fn lemma_entry_is_mapped(entries: Seq<LetterSet>, i: int)
    requires
        keys_ascend(entries),
        0 <= i < entries.len(),
    ensures
        contents_of(entries).contains_key(entries[i].letters@),
        contents_of(entries)[entries[i].letters@] == entries[i].spelled(),
        slot(entries, entries[i].letters@) == i,
{
    let key = entries[i].letters@;
    let at = slot(entries, key);
    if at < i {
        crate::order::lemma_shortlex_strict_total(entries[at].letters@, key, key);
    } else if at > i {
        crate::order::lemma_shortlex_strict_total(key, entries[at].letters@, key);
    }
}

/// Every word listed under a key is an accepted word of the list and has
/// that key for its signature.
pub proof fn lemma_filed_under_members(words: Seq<Seq<char>>, key: Seq<u8>, k: int)
    requires
        0 <= k < filed_under(words, key).len(),
    ensures
        words.contains(filed_under(words, key)[k]),
        !excluded(filed_under(words, key)[k]),
        signature(filed_under(words, key)[k]) == key,
    decreases words.len(),
{
    if words.len() > 0 {
        let earlier = filed_under(words.drop_last(), key);
        if k < earlier.len() {
            lemma_filed_under_members(words.drop_last(), key, k);
            let w = earlier[k];
            let i = choose|i: int| 0 <= i < words.drop_last().len() && words.drop_last()[i] == w;
            assert(words[i] == w);
        } else {
            assert(words[words.len() - 1] == words.last());
        }
    }
}

/// The index of a word list holds accepted words only, each under its own
/// signature: a word with an upper-case letter or an apostrophe is in no
/// list of the index.
pub proof fn lemma_index_holds_accepted_words(words: Seq<Seq<char>>, key: Seq<u8>, k: int)
    requires
        index_of(words).contains_key(key),
        0 <= k < index_of(words)[key].len(),
    ensures
        words.contains(index_of(words)[key][k]),
        !excluded(index_of(words)[key][k]),
        signature(index_of(words)[key][k]) == key,
{
    lemma_filed_under_members(words, key, k);
}

/// The index of a word list holds every accepted word of the list, under
/// its signature.
pub proof fn lemma_index_holds_every_accepted_word(words: Seq<Seq<char>>, i: int)
    requires
        0 <= i < words.len(),
        !excluded(words[i]),
    ensures
        filed_under(words, signature(words[i])).contains(words[i]),
        index_of(words).contains_key(signature(words[i])),
        index_of(words)[signature(words[i])].contains(words[i]),
    decreases words.len(),
{
    let key = signature(words[i]);
    let earlier = filed_under(words.drop_last(), key);
    if i == words.len() - 1 {
        assert(filed_under(words, key)[earlier.len() as int] == words[i]);
    } else {
        lemma_index_holds_every_accepted_word(words.drop_last(), i);
        let k = choose|k: int| 0 <= k < earlier.len() && earlier[k] == words[i];
        assert(filed_under(words, key)[k] == words[i]);
    }
}

/// Offering one more word to the index of a list gives the index of the
/// list with that word at its end.
pub proof fn lemma_index_of_push(words: Seq<Seq<char>>, word: Seq<char>)
    ensures
        index_of(words.push(word)) == filed(index_of(words), word),
{
    let longer = words.push(word);
    assert(longer.drop_last() =~= words);
    assert(longer.last() == word);
    assert forall|key: Seq<u8>|
        index_of(longer).contains_key(key) == #[trigger] filed(index_of(words), word).contains_key(
            key,
        ) by {}
    assert forall|key: Seq<u8>| #[trigger]
        index_of(longer).contains_key(key) implies index_of(longer)[key] == filed(
        index_of(words),
        word,
    )[key] by {
        if !excluded(word) && key == signature(word) {
            if !index_of(words).contains_key(key) {
                assert(filed_under(words, key) =~= Seq::<Seq<char>>::empty());
            }
        }
    }
    assert(index_of(longer) =~= filed(index_of(words), word));
}

/// The mapping after a word is appended to the entry at position `at`: the
/// letters of that entry now map to its list with the word at the end.
proof fn lemma_mapping_after_append(
    before: Seq<LetterSet>,
    after: Seq<LetterSet>,
    at: int,
    word: Seq<char>,
)
    requires
        keys_ascend(before),
        0 <= at < before.len(),
        after.len() == before.len(),
        forall|i: int| 0 <= i < before.len() ==> (#[trigger] after[i]).letters@ == before[i].letters@,
        forall|i: int| 0 <= i < before.len() && i != at ==> (#[trigger] after[i]) == before[i],
        after[at].spelled() == before[at].spelled().push(word),
    ensures
        keys_ascend(after),
        contents_of(after) == contents_of(before).insert(
            before[at].letters@,
            found_under(contents_of(before), before[at].letters@).push(word),
        ),
{
    let key = before[at].letters@;
    let target = contents_of(before).insert(key, found_under(contents_of(before), key).push(word));
    assert forall|i: int, j: int| 0 <= i < j < after.len() implies shortlex_lt(
        #[trigger] after[i].letters@,
        #[trigger] after[j].letters@,
    ) by {
        assert(shortlex_lt(before[i].letters@, before[j].letters@));
    }
    lemma_entry_is_mapped(before, at);
    assert forall|k: Seq<u8>| #[trigger] contents_of(after).contains_key(k) == target.contains_key(
        k,
    ) by {
        if holds_key(after, k) {
            assert(before[slot(after, k)].letters@ == k);
        }
        if holds_key(before, k) {
            assert(after[slot(before, k)].letters@ == k);
        }
    }
    assert forall|k: Seq<u8>| #[trigger] contents_of(after).contains_key(k) implies contents_of(
        after,
    )[k] == target[k] by {
        let i = slot(after, k);
        lemma_entry_is_mapped(after, i);
        lemma_entry_is_mapped(before, i);
    }
    assert(contents_of(after) =~= target);
}

/// The mapping after an entry is inserted where its letters belong: the
/// letters of the new entry map to its list, all else is as before.
proof fn lemma_mapping_after_insert(before: Seq<LetterSet>, at: int, fresh: LetterSet)
    requires
        keys_ascend(before),
        0 <= at <= before.len(),
        forall|i: int| 0 <= i < at ==> shortlex_lt((#[trigger] before[i]).letters@, fresh.letters@),
        forall|i: int|
            at <= i < before.len() ==> shortlex_lt(fresh.letters@, (#[trigger] before[i]).letters@),
    ensures
        keys_ascend(before.insert(at, fresh)),
        contents_of(before.insert(at, fresh)) == contents_of(before).insert(
            fresh.letters@,
            fresh.spelled(),
        ),
{
    let after = before.insert(at, fresh);
    let key = fresh.letters@;
    let target = contents_of(before).insert(key, fresh.spelled());
    assert forall|i: int, j: int| 0 <= i < j < after.len() implies shortlex_lt(
        #[trigger] after[i].letters@,
        #[trigger] after[j].letters@,
    ) by {
        if j < at {
            assert(shortlex_lt(before[i].letters@, before[j].letters@));
        } else if j == at {
            assert(shortlex_lt(before[i].letters@, key));
        } else if i < at {
            assert(shortlex_lt(before[i].letters@, before[j - 1].letters@));
        } else if i == at {
            assert(shortlex_lt(key, before[j - 1].letters@));
        } else {
            assert(shortlex_lt(before[i - 1].letters@, before[j - 1].letters@));
        }
    }
    assert forall|k: Seq<u8>| #[trigger] contents_of(after).contains_key(k) == target.contains_key(
        k,
    ) by {
        if holds_key(after, k) && k != key {
            let i = slot(after, k);
            if i < at {
                assert(before[i].letters@ == k);
            } else {
                assert(before[i - 1].letters@ == k);
            }
        }
        if holds_key(before, k) {
            let i = slot(before, k);
            if i < at {
                assert(after[i].letters@ == k);
            } else {
                assert(after[i + 1].letters@ == k);
            }
        }
        if k == key {
            assert(after[at].letters@ == k);
        }
    }
    assert forall|k: Seq<u8>| #[trigger] contents_of(after).contains_key(k) implies contents_of(
        after,
    )[k] == target[k] by {
        let i = slot(after, k);
        lemma_entry_is_mapped(after, i);
        crate::order::lemma_shortlex_strict_total(k, key, key);
        if i < at {
            assert(after[i] == before[i]);
            lemma_entry_is_mapped(before, i);
        } else if i > at {
            assert(after[i] == before[i - 1]);
            lemma_entry_is_mapped(before, i - 1);
        }
    }
    assert(contents_of(after) =~= target);
}

/// Tells whether a word is kept out of the index.
pub fn is_excluded(word: &str) -> (out: bool)
    ensures
        out == excluded(word@),
{
    let mut out = false;
    for c in it: word.chars()
        invariant
            it.seq() == word@,
            out == exists|i: int| 0 <= i < it.index() && excluding(word@[i]),
    {
        if (c >= 'A' && c <= 'Z') || c == '\'' {
            out = true;
        }
    }
    out
}

/// The index built in memory.
#[derive(Debug)]
pub struct Index {
    entries: Vec<LetterSet>,
}

impl View for Index {
    type V = Map<Seq<u8>, Seq<Seq<char>>>;

    closed spec fn view(&self) -> Map<Seq<u8>, Seq<Seq<char>>> {
        contents_of(self.entries@)
    }
}

impl Index {
    /// The invariant of the index: keys strictly ascending, no entry without
    /// a word, and every word accepted and filed under its own signature.
    pub closed spec fn wf(&self) -> bool {
        &&& keys_ascend(self.entries@)
        &&& forall|i: int|
            0 <= i < self.entries@.len() ==> (#[trigger] self.entries@[i]).words@.len() > 0
        &&& forall|i: int, k: int|
            0 <= i < self.entries@.len() && 0 <= k < self.entries@[i].words@.len() ==> {
                &&& !excluded(#[trigger] self.entries@[i].words@[k]@)
                &&& signature(self.entries@[i].words@[k]@) == self.entries@[i].letters@
            }
    }

    /// The entries of the index, in key order.
    pub closed spec fn entries(&self) -> Seq<LetterSet> {
        self.entries@
    }

    /// What the invariant says of the entries and the mapping.
    pub proof fn lemma_wf(&self)
        requires
            self.wf(),
        ensures
            keys_ascend(self.entries()),
            self@ == contents_of(self.entries()),
            forall|key: Seq<u8>| #[trigger]
                self@.contains_key(key) ==> self@[key].len() > 0 && forall|k: int|
                    0 <= k < self@[key].len() ==> !excluded(#[trigger] self@[key][k]) && signature(
                        self@[key][k],
                    ) == key,
    {
        assert forall|key: Seq<u8>| #[trigger] self@.contains_key(key) implies self@[key].len() > 0
            && forall|k: int|
            0 <= k < self@[key].len() ==> !excluded(#[trigger] self@[key][k]) && signature(
                self@[key][k],
            ) == key by {
            let i = slot(self.entries@, key);
            lemma_entry_is_mapped(self.entries@, i);
            assert(self.entries@[i].words@.len() > 0);
            assert forall|k: int| 0 <= k < self@[key].len() implies !excluded(
                #[trigger] self@[key][k],
            ) && signature(self@[key][k]) == key by {
                assert(self@[key][k] == self.entries@[i].words@[k]@);
            }
        }
    }

    /// An index with no entry.
    pub fn new() -> (index: Self)
        ensures
            index.wf(),
            index@ == Map::<Seq<u8>, Seq<Seq<char>>>::empty(),
    {
        let index = Index { entries: Vec::new() };
        assert(index@ =~= Map::<Seq<u8>, Seq<Seq<char>>>::empty());
        index
    }

    /// The entries of the index, in key order.
    pub fn entry_list(&self) -> (list: &Vec<LetterSet>)
        ensures
            list@ == self.entries(),
    {
        &self.entries
    }

    /// The number of signatures in the index.
    pub fn len(&self) -> (n: usize)
        ensures
            n == self.entries().len(),
    {
        self.entries.len()
    }

    /// Finds `key` by bisection: `Ok` with the position of its entry, or
    /// `Err` with the position at which an entry for it would be inserted.
    pub fn locate(&self, key: &[u8]) -> (place: Result<usize, usize>)
        requires
            self.wf(),
        ensures
            match place {
                Ok(at) => at < self.entries().len() && self.entries()[at as int].letters@ == key@,
                Err(at) => {
                    &&& at <= self.entries().len()
                    &&& !holds_key(self.entries(), key@)
                    &&& forall|i: int|
                        0 <= i < at ==> shortlex_lt(
                            (#[trigger] self.entries()[i]).letters@,
                            key@,
                        )
                    &&& forall|i: int|
                        at <= i < self.entries().len() ==> shortlex_lt(
                            key@,
                            (#[trigger] self.entries()[i]).letters@,
                        )
                },
            },
    {
        let mut lo: usize = 0;
        let mut hi: usize = self.entries.len();
        while lo < hi
            invariant
                lo <= hi <= self.entries@.len(),
                keys_ascend(self.entries@),
                forall|i: int|
                    0 <= i < lo ==> shortlex_lt((#[trigger] self.entries@[i]).letters@, key@),
                forall|i: int|
                    hi <= i < self.entries@.len() ==> shortlex_lt(
                        key@,
                        (#[trigger] self.entries@[i]).letters@,
                    ),
            decreases hi - lo,
        {
            let mid = lo + (hi - lo) / 2;
            let ghost probe = self.entries@[mid as int].letters@;
            match rank_bytes(self.entries[mid].letters.as_slice(), key) {
                Rank::Same => {
                    return Ok(mid);
                },
                Rank::Before => {
                    assert forall|i: int| 0 <= i < mid + 1 implies shortlex_lt(
                        (#[trigger] self.entries@[i]).letters@,
                        key@,
                    ) by {
                        if i < mid {
                            crate::order::lemma_shortlex_strict_total(
                                self.entries@[i].letters@,
                                probe,
                                key@,
                            );
                        }
                    }
                    lo = mid + 1;
                },
                Rank::After => {
                    assert forall|i: int| mid <= i < self.entries@.len() implies shortlex_lt(
                        key@,
                        (#[trigger] self.entries@[i]).letters@,
                    ) by {
                        if i > mid {
                            crate::order::lemma_shortlex_strict_total(
                                key@,
                                probe,
                                self.entries@[i].letters@,
                            );
                        }
                    }
                    hi = mid;
                },
            }
        }
        proof {
            if holds_key(self.entries@, key@) {
                let i = slot(self.entries@, key@);
                crate::order::lemma_shortlex_strict_total(key@, key@, key@);
            }
        }
        Err(lo)
    }

    /// Offers a word to the index. A word with an upper-case letter or an
    /// apostrophe is refused and the index stays as it is; any other word is
    /// appended to the list of its signature, which is created if absent.
    pub fn add_word(&mut self, word: String) -> (accepted: bool)
        requires
            old(self).wf(),
        ensures
            final(self).wf(),
            accepted == !excluded(word@),
            final(self)@ == filed(old(self)@, word@),
    {
        if is_excluded(word.as_str()) {
            return false;
        }
        let key = factor(word.as_str());
        let ghost before = self.entries@;
        match self.locate(key.as_slice()) {
            Ok(at) => {
                self.entries[at].words.push(word);
                proof {
                    let after = self.entries@;
                    assert(after[at as int].spelled() =~= before[at as int].spelled().push(word@));
                    lemma_mapping_after_append(before, after, at as int, word@);
                    assert forall|i: int, k: int|
                        0 <= i < after.len() && 0 <= k < after[i].words@.len() implies {
                        &&& !excluded(#[trigger] after[i].words@[k]@)
                        &&& signature(after[i].words@[k]@) == after[i].letters@
                    } by {
                        if i != at || k < before[i].words@.len() {
                            assert(after[i].words@[k] == before[i].words@[k]);
                        }
                    }
                }
            },
            Err(at) => {
                let mut fresh = LetterSet::new(key);
                fresh.words.push(word);
                proof {
                    assert(fresh.spelled() =~= Seq::<Seq<char>>::empty().push(word@));
                    lemma_mapping_after_insert(before, at as int, fresh);
                }
                self.entries.insert(at, fresh);
                proof {
                    let after = self.entries@;
                    assert forall|i: int| 0 <= i < after.len() implies (#[trigger] after[i]).words@.len()
                        > 0 by {
                        if i < at {
                            assert(after[i] == before[i]);
                        } else if i > at {
                            assert(after[i] == before[i - 1]);
                        }
                    }
                    assert forall|i: int, k: int|
                        0 <= i < after.len() && 0 <= k < after[i].words@.len() implies {
                        &&& !excluded(#[trigger] after[i].words@[k]@)
                        &&& signature(after[i].words@[k]@) == after[i].letters@
                    } by {
                        if i < at {
                            assert(after[i].words@[k] == before[i].words@[k]);
                        } else if i > at {
                            assert(after[i].words@[k] == before[i - 1].words@[k]);
                        }
                    }
                }
            },
        }
        true
    }

    /// Builds the index of a word list: every word offered in turn.
    pub fn from_words(words: Vec<String>) -> (index: Self)
        ensures
            index.wf(),
            index@ == index_of(spelling(words@)),
    {
        let mut index = Index::new();
        let ghost all = spelling(words@);
        assert(index@ =~= index_of(all.take(0))) by {
            assert(all.take(0) =~= Seq::<Seq<char>>::empty());
        }
        for word in it: words
            invariant
                it.seq() == words@,
                all == spelling(words@),
                index.wf(),
                index@ == index_of(all.take(it.index())),
        {
            proof {
                lemma_index_of_push(all.take(it.index()), word@);
                assert(all.take(it.index() + 1) =~= all.take(it.index()).push(word@));
            }
            index.add_word(word);
        }
        assert(all.take(words@.len() as int) =~= all);
        index
    }
}

impl SignatureLookup for Index {
    open spec fn valid(&self) -> bool {
        self.wf()
    }

    open spec fn contents(&self) -> Map<Seq<u8>, Seq<Seq<char>>> {
        self@
    }

    fn is_empty(&self) -> (empty: bool) {
        let empty = self.entries.len() == 0;
        proof {
            if empty {
                assert forall|key: Seq<u8>| !self.contents().contains_key(key) by {
                    assert(!holds_key(self.entries@, key));
                }
            } else {
                lemma_entry_is_mapped(self.entries@, 0);
                assert(self.contents().contains_key(self.entries@[0].letters@));
            }
        }
        empty
    }

    fn append_matches<'a>(&'a self, key: &[u8], out: &mut Vec<&'a str>) {
        match self.locate(key) {
            Ok(at) => {
                let words = &self.entries[at].words;
                let ghost start = out@;
                proof {
                    lemma_entry_is_mapped(self.entries@, at as int);
                }
                let mut i: usize = 0;
                while i < words.len()
                    invariant
                        i <= words.len(),
                        spelled_out(out@) == spelled_out(start) + spelling(words@).take(i as int),
                    decreases words.len() - i,
                {
                    let ghost so_far = out@;
                    out.push(words[i].as_str());
                    assert(spelled_out(out@) =~= spelled_out(so_far).push(words@[i as int]@));
                    assert(spelling(words@).take(i + 1) =~= spelling(words@).take(i as int).push(
                        words@[i as int]@,
                    ));
                    i = i + 1;
                }
                assert(spelling(words@).take(i as int) =~= spelling(words@));
            },
            Err(_) => {
                assert(spelled_out(out@) + Seq::<Seq<char>>::empty() =~= spelled_out(out@));
            },
        }
    }
}

} // verus!
