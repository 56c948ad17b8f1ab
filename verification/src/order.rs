//! The order in which keys are kept and words are reported: shorter before
//! longer, and byte by byte among those of one length.

use vstd::prelude::*;
use vstd::utf8::encode_utf8;

verus! {

/// How one value stands to another in an order.
#[derive(Clone, Copy, Debug, PartialEq, Eq, Structural)]
pub enum Rank {
    /// The first comes before the second.
    Before,
    /// The two are the same.
    Same,
    /// The first comes after the second.
    After,
}

/// Lexicographic order on byte sequences: at the first position where the
/// two differ the lesser byte decides, and a proper prefix comes first.
pub open spec fn lex_lt(a: Seq<u8>, b: Seq<u8>) -> bool
    decreases a.len(),
{
    if a.len() == 0 || b.len() == 0 {
        a.len() < b.len()
    } else if a[0] != b[0] {
        a[0] < b[0]
    } else {
        lex_lt(a.drop_first(), b.drop_first())
    }
}

/// Shorter sequences come first; among sequences of one length the order is
/// lexicographic.
pub open spec fn shortlex_lt(a: Seq<u8>, b: Seq<u8>) -> bool {
    a.len() < b.len() || (a.len() == b.len() && lex_lt(a, b))
}

/// The order of words: by the length of their UTF-8 encoding, then by its
/// bytes.
pub open spec fn word_lt(a: Seq<char>, b: Seq<char>) -> bool {
    shortlex_lt(encode_utf8(a), encode_utf8(b))
}

/// `a` does not come after `b`.
pub open spec fn word_le(a: Seq<char>, b: Seq<char>) -> bool {
    !word_lt(b, a)
}

/// No word of the sequence comes after a later one.
pub open spec fn words_sorted(words: Seq<Seq<char>>) -> bool {
    forall|i: int, j: int| 0 <= i < j < words.len() ==> word_le(words[i], words[j])
}

/// What each of the strings spells.
pub open spec fn spelled_out(words: Seq<&str>) -> Seq<Seq<char>> {
    Seq::new(words.len(), |i: int| words[i]@)
}

/// No sequence comes before itself.
pub proof fn lemma_lex_irreflexive(a: Seq<u8>)
    ensures
        !lex_lt(a, a),
    decreases a.len(),
{
    if a.len() > 0 {
        lemma_lex_irreflexive(a.drop_first());
    }
}

/// What comes before something that comes before a third comes before the
/// third.
pub proof fn lemma_lex_transitive(a: Seq<u8>, b: Seq<u8>, c: Seq<u8>)
    requires
        lex_lt(a, b),
        lex_lt(b, c),
    ensures
        lex_lt(a, c),
    decreases a.len(),
{
    if a.len() > 0 && b.len() > 0 && c.len() > 0 && a[0] == b[0] && b[0] == c[0] {
        lemma_lex_transitive(a.drop_first(), b.drop_first(), c.drop_first());
    }
}

/// Of two different sequences one comes before the other.
pub proof fn lemma_lex_connected(a: Seq<u8>, b: Seq<u8>)
    requires
        a != b,
    ensures
        lex_lt(a, b) || lex_lt(b, a),
    decreases a.len(),
{
    if a.len() > 0 && b.len() > 0 && a[0] == b[0] {
        if a.drop_first() == b.drop_first() {
            assert(a =~= seq![a[0]] + a.drop_first());
            assert(b =~= seq![b[0]] + b.drop_first());
        }
        lemma_lex_connected(a.drop_first(), b.drop_first());
    } else if a.len() == 0 && b.len() == 0 {
        assert(a =~= b);
    }
}

/// The short-lex order is a strict total order: irreflexive, transitive, and
/// deciding between any two different sequences.
pub proof fn lemma_shortlex_strict_total(a: Seq<u8>, b: Seq<u8>, c: Seq<u8>)
    ensures
        !shortlex_lt(a, a),
        shortlex_lt(a, b) && shortlex_lt(b, c) ==> shortlex_lt(a, c),
        shortlex_lt(a, b) ==> !shortlex_lt(b, a),
        a != b ==> shortlex_lt(a, b) || shortlex_lt(b, a),
{
    lemma_lex_irreflexive(a);
    if shortlex_lt(a, b) && shortlex_lt(b, c) && a.len() == b.len() && b.len() == c.len() {
        lemma_lex_transitive(a, b, c);
    }
    if shortlex_lt(a, b) && shortlex_lt(b, a) {
        lemma_lex_transitive(a, b, a);
    }
    if a != b {
        lemma_lex_connected(a, b);
    }
}

/// `word_le` is a total order on words: reflexive, transitive, deciding
/// between any two words, and two words that each come no later than the
/// other are the same word.
pub proof fn lemma_word_le_total(a: Seq<char>, b: Seq<char>, c: Seq<char>)
    ensures
        word_le(a, a),
        word_le(a, b) && word_le(b, c) ==> word_le(a, c),
        word_le(a, b) || word_le(b, a),
        word_le(a, b) && word_le(b, a) ==> a == b,
{
    let ea = encode_utf8(a);
    let eb = encode_utf8(b);
    let ec = encode_utf8(c);
    lemma_shortlex_strict_total(ea, eb, ec);
    lemma_shortlex_strict_total(eb, ea, ec);
    lemma_shortlex_strict_total(ec, ea, eb);
    lemma_shortlex_strict_total(ec, eb, ea);
    lemma_shortlex_strict_total(eb, ec, ea);
    lemma_shortlex_strict_total(ea, ec, eb);
    if word_le(a, b) && word_le(b, a) {
        vstd::utf8::encode_utf8_decode_utf8(a);
        vstd::utf8::encode_utf8_decode_utf8(b);
    }
}

/// There is one sorted arrangement of a collection of words: two sorted
/// sequences that hold the same words the same number of times are equal.
pub proof fn lemma_sorted_arrangement_unique(x: Seq<Seq<char>>, y: Seq<Seq<char>>)
    requires
        words_sorted(x),
        words_sorted(y),
        x.to_multiset() == y.to_multiset(),
    ensures
        x == y,
{
    let leq = |a: Seq<char>, b: Seq<char>| word_le(a, b);
    assert(vstd::relations::total_ordering(leq)) by {
        assert forall|a: Seq<char>| #[trigger] leq(a, a) by {
            lemma_word_le_total(a, a, a);
        }
        assert forall|a: Seq<char>, b: Seq<char>| #[trigger] leq(a, b) && #[trigger] leq(b, a) implies a == b by {
            lemma_word_le_total(a, b, a);
        }
        assert forall|a: Seq<char>, b: Seq<char>, c: Seq<char>| #[trigger] leq(a, b) && #[trigger] leq(b, c) implies leq(a, c) by {
            lemma_word_le_total(a, b, c);
        }
        assert forall|a: Seq<char>, b: Seq<char>| #[trigger] leq(a, b) || #[trigger] leq(b, a) by {
            lemma_word_le_total(a, b, a);
        }
    }
    assert(vstd::relations::sorted_by(x, leq));
    assert(vstd::relations::sorted_by(y, leq));
    vstd::seq_lib::lemma_sorted_unique(x, y, leq);
}

/// Ranks two byte strings in the short-lex order.
pub fn rank_bytes(a: &[u8], b: &[u8]) -> (rank: Rank)
    ensures
        rank == Rank::Before <==> shortlex_lt(a@, b@),
        rank == Rank::Same <==> a@ == b@,
        rank == Rank::After <==> shortlex_lt(b@, a@),
{
    proof {
        lemma_shortlex_strict_total(a@, b@, a@);
    }
    if a.len() < b.len() {
        return Rank::Before;
    }
    if a.len() > b.len() {
        return Rank::After;
    }
    let n = a.len();
    let mut i: usize = 0;
    assert(a@.skip(0) =~= a@ && b@.skip(0) =~= b@);
    while i < n
        invariant
            i <= n,
            n == a@.len(),
            n == b@.len(),
            forall|k: int| 0 <= k < i ==> a@[k] == b@[k],
            lex_lt(a@, b@) == lex_lt(a@.skip(i as int), b@.skip(i as int)),
            lex_lt(b@, a@) == lex_lt(b@.skip(i as int), a@.skip(i as int)),
        decreases n - i,
    {
        let x = a[i];
        let y = b[i];
        proof {
            assert(a@.skip(i as int)[0] == x);
            assert(b@.skip(i as int)[0] == y);
            assert(a@.skip(i as int).drop_first() =~= a@.skip(i + 1));
            assert(b@.skip(i as int).drop_first() =~= b@.skip(i + 1));
        }
        if x < y {
            return Rank::Before;
        }
        if x > y {
            return Rank::After;
        }
        i = i + 1;
    }
    assert(a@ =~= b@);
    proof {
        lemma_lex_irreflexive(a@);
    }
    Rank::Same
}

/// Ranks two words: by the number of bytes they take, then by their bytes.
pub fn rank_words(a: &str, b: &str) -> (rank: Rank)
    ensures
        rank == Rank::Before <==> word_lt(a@, b@),
        rank == Rank::Same <==> a@ == b@,
        rank == Rank::After <==> word_lt(b@, a@),
{
    proof {
        vstd::utf8::encode_utf8_decode_utf8(a@);
        vstd::utf8::encode_utf8_decode_utf8(b@);
    }
    rank_bytes(a.as_bytes(), b.as_bytes())
}

/// What a list spells after one more string is pushed.
proof fn lemma_spelled_out_push(words: Seq<&str>, word: &str)
    ensures
        spelled_out(words.push(word)) == spelled_out(words).push(word@),
        spelled_out(words.push(word)).to_multiset() == spelled_out(words).to_multiset().insert(
            word@,
        ),
{
    assert(spelled_out(words.push(word)) =~= spelled_out(words).push(word@));
    vstd::seq_lib::to_multiset_build(spelled_out(words), word@);
}

/// Merges two sorted lists of words into one sorted list of them all.
fn merge_sorted<'a>(left: &Vec<&'a str>, right: &Vec<&'a str>) -> (merged: Vec<&'a str>)
    requires
        words_sorted(spelled_out(left@)),
        words_sorted(spelled_out(right@)),
    ensures
        words_sorted(spelled_out(merged@)),
        spelled_out(merged@).to_multiset() == spelled_out(left@).to_multiset().add(
            spelled_out(right@).to_multiset(),
        ),
        merged.len() == left.len() + right.len(),
{
    let mut merged: Vec<&'a str> = Vec::new();
    let mut i: usize = 0;
    let mut j: usize = 0;
    proof {
        assert(spelled_out(left@.take(0)) =~= Seq::<Seq<char>>::empty());
        assert(spelled_out(right@.take(0)) =~= Seq::<Seq<char>>::empty());
        assert(spelled_out(merged@) =~= Seq::<Seq<char>>::empty());
        assert(Seq::<Seq<char>>::empty().to_multiset() =~= Seq::<Seq<char>>::empty().to_multiset().add(
            Seq::<Seq<char>>::empty().to_multiset(),
        )) by {
            broadcast use vstd::seq_lib::group_to_multiset_ensures;
            broadcast use vstd::multiset::group_multiset_axioms;

        }
    }
    while i < left.len() || j < right.len()
        invariant
            i <= left.len(),
            j <= right.len(),
            merged.len() == i + j,
            words_sorted(spelled_out(left@)),
            words_sorted(spelled_out(right@)),
            words_sorted(spelled_out(merged@)),
            forall|p: int, q: int|
                0 <= p < merged.len() && i <= q < left.len() ==> word_le(
                    #[trigger] merged@[p]@,
                    #[trigger] left@[q]@,
                ),
            forall|p: int, q: int|
                0 <= p < merged.len() && j <= q < right.len() ==> word_le(
                    #[trigger] merged@[p]@,
                    #[trigger] right@[q]@,
                ),
            spelled_out(merged@).to_multiset() == spelled_out(left@.take(i as int)).to_multiset().add(
                spelled_out(right@.take(j as int)).to_multiset(),
            ),
        decreases left.len() - i + right.len() - j,
    {
        let ghost before = merged@;
        let take_left = if i == left.len() {
            false
        } else if j == right.len() {
            true
        } else {
            rank_words(right[j], left[i]) != Rank::Before
        };
        if take_left {
            let word = left[i];
            merged.push(word);
            proof {
                lemma_spelled_out_push(before, word);
                lemma_spelled_out_push(left@.take(i as int), word);
                assert(left@.take(i + 1) =~= left@.take(i as int).push(word));
                assert(spelled_out(merged@).to_multiset() =~= spelled_out(
                    left@.take(i + 1),
                ).to_multiset().add(spelled_out(right@.take(j as int)).to_multiset())) by {
                    broadcast use vstd::multiset::group_multiset_axioms;

                }
                assert forall|p: int, q: int|
                    0 <= p < merged.len() && i + 1 <= q < left.len() implies word_le(
                    #[trigger] merged@[p]@,
                    #[trigger] left@[q]@,
                ) by {
                    if p == before.len() {
                        assert(word_le(spelled_out(left@)[i as int], spelled_out(left@)[q]));
                    }
                }
                assert forall|p: int, q: int|
                    0 <= p < merged.len() && j <= q < right.len() implies word_le(
                    #[trigger] merged@[p]@,
                    #[trigger] right@[q]@,
                ) by {
                    if p == before.len() {
                        assert(word_le(word@, right@[j as int]@));
                        if q > j {
                            assert(word_le(spelled_out(right@)[j as int], spelled_out(right@)[q]));
                            lemma_word_le_total(word@, right@[j as int]@, right@[q]@);
                        }
                    }
                }
                assert forall|p: int, q: int| 0 <= p < q < merged.len() implies word_le(
                    spelled_out(merged@)[p],
                    spelled_out(merged@)[q],
                ) by {
                    if q == before.len() {
                        assert(word_le(before[p]@, left@[i as int]@));
                    } else {
                        assert(word_le(spelled_out(before)[p], spelled_out(before)[q]));
                    }
                }
            }
            i = i + 1;
        } else {
            let word = right[j];
            merged.push(word);
            proof {
                lemma_spelled_out_push(before, word);
                lemma_spelled_out_push(right@.take(j as int), word);
                assert(right@.take(j + 1) =~= right@.take(j as int).push(word));
                assert(spelled_out(merged@).to_multiset() =~= spelled_out(
                    left@.take(i as int),
                ).to_multiset().add(spelled_out(right@.take(j + 1)).to_multiset())) by {
                    broadcast use vstd::multiset::group_multiset_axioms;

                }
                assert forall|p: int, q: int|
                    0 <= p < merged.len() && j + 1 <= q < right.len() implies word_le(
                    #[trigger] merged@[p]@,
                    #[trigger] right@[q]@,
                ) by {
                    if p == before.len() {
                        assert(word_le(spelled_out(right@)[j as int], spelled_out(right@)[q]));
                    }
                }
                assert forall|p: int, q: int|
                    0 <= p < merged.len() && i <= q < left.len() implies word_le(
                    #[trigger] merged@[p]@,
                    #[trigger] left@[q]@,
                ) by {
                    if p == before.len() {
                        lemma_word_le_total(word@, left@[i as int]@, left@[q]@);
                        assert(word_le(word@, left@[i as int]@));
                        if q > i {
                            assert(word_le(spelled_out(left@)[i as int], spelled_out(left@)[q]));
                        }
                    }
                }
                assert forall|p: int, q: int| 0 <= p < q < merged.len() implies word_le(
                    spelled_out(merged@)[p],
                    spelled_out(merged@)[q],
                ) by {
                    if q == before.len() {
                        assert(word_le(before[p]@, right@[j as int]@));
                    } else {
                        assert(word_le(spelled_out(before)[p], spelled_out(before)[q]));
                    }
                }
            }
            j = j + 1;
        }
    }
    assert(left@.take(i as int) =~= left@);
    assert(right@.take(j as int) =~= right@);
    merged
}

/// Sorts the words at positions `lo` up to `hi` into a list of their own.
fn sort_span<'a>(words: &Vec<&'a str>, lo: usize, hi: usize) -> (sorted: Vec<&'a str>)
    requires
        lo <= hi <= words.len(),
    ensures
        words_sorted(spelled_out(sorted@)),
        spelled_out(sorted@).to_multiset() == spelled_out(
            words@.subrange(lo as int, hi as int),
        ).to_multiset(),
        sorted.len() == hi - lo,
    decreases hi - lo,
{
    let ghost span = words@.subrange(lo as int, hi as int);
    if hi - lo <= 1 {
        let mut sorted: Vec<&'a str> = Vec::new();
        if hi - lo == 1 {
            sorted.push(words[lo]);
        }
        assert(sorted@ =~= span);
        sorted
    } else {
        let mid = lo + (hi - lo) / 2;
        let left = sort_span(words, lo, mid);
        let right = sort_span(words, mid, hi);
        proof {
            let a = words@.subrange(lo as int, mid as int);
            let b = words@.subrange(mid as int, hi as int);
            assert(spelled_out(span) =~= spelled_out(a) + spelled_out(b));
            vstd::seq_lib::lemma_multiset_commutative(spelled_out(a), spelled_out(b));
        }
        merge_sorted(&left, &right)
    }
}

/// Sorts words by the length of their encoding, then byte by byte: the
/// result holds the same words, each as often as before, none after a later
/// one.
pub fn sort_words<'a>(words: &mut Vec<&'a str>)
    ensures
        words_sorted(spelled_out(final(words)@)),
        spelled_out(final(words)@).to_multiset() == spelled_out(old(words)@).to_multiset(),
        final(words).len() == old(words).len(),
{
    let sorted = sort_span(words, 0, words.len());
    assert(words@.subrange(0, words.len() as int) =~= words@);
    *words = sorted;
}

} // verus!
