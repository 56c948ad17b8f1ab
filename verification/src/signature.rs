//! The canonical letter signature of a word.
//!
//! A signature is the set of distinct letters that a word uses, written as a
//! strictly ascending sequence of bytes. Words are grouped and looked up by it.

use vstd::prelude::*;
use vstd::utf8::is_ascii_chars;

verus! {

/// The byte that a character contributes to a signature: an ASCII upper-case
/// letter counts as its lower-case form, every other character as the low
/// byte of its code point (for ASCII, the character itself).
pub open spec fn fold(c: char) -> u8 {
    if 'A' <= c && c <= 'Z' {
        (c as u32 + 32) as u8
    } else {
        (c as u32 % 256) as u8
    }
}

/// The set of bytes that the characters of `word` fold to.
pub open spec fn letters_of(word: Seq<char>) -> Set<u8> {
    Set::new(|b: u8| exists|i: int| 0 <= i < word.len() && fold(word[i]) == b)
}

/// A sequence of bytes is a signature when it is strictly ascending, which
/// also means that no byte occurs twice.
pub open spec fn is_signature(s: Seq<u8>) -> bool {
    forall|i: int, j: int| 0 <= i < j < s.len() ==> s[i] < s[j]
}

/// The members of `letters` that are less than `bound`, in ascending order.
pub open spec fn ascending_below(letters: Set<u8>, bound: nat) -> Seq<u8>
    decreases bound,
{
    if bound == 0 {
        Seq::empty()
    } else {
        let rest = ascending_below(letters, (bound - 1) as nat);
        if bound <= 256 && letters.contains((bound - 1) as u8) {
            rest.push((bound - 1) as u8)
        } else {
            rest
        }
    }
}

/// The signature of a word: its folded letters in ascending order, each once.
pub open spec fn signature(word: Seq<char>) -> Seq<u8> {
    ascending_below(letters_of(word), 256)
}

/// A signature read back as a word, one character per byte.
pub open spec fn spelled(s: Seq<u8>) -> Seq<char> {
    Seq::new(s.len(), |i: int| s[i] as char)
}

/// What `ascending_below` holds: exactly the members under the bound, in
/// strictly ascending order.
pub proof fn lemma_ascending_below(letters: Set<u8>, bound: nat)
    requires
        bound <= 256,
    ensures
        is_signature(ascending_below(letters, bound)),
        forall|b: u8|
            #![trigger ascending_below(letters, bound).contains(b)]
            #![trigger letters.contains(b)]
            ascending_below(letters, bound).contains(b) <==> (letters.contains(b) && b < bound),
    decreases bound,
{
    let s = ascending_below(letters, bound);
    if bound > 0 {
        let rest = ascending_below(letters, (bound - 1) as nat);
        lemma_ascending_below(letters, (bound - 1) as nat);
        let top = (bound - 1) as u8;
        assert forall|i: int| 0 <= i < rest.len() implies #[trigger] rest[i] < top by {
            assert(rest.contains(rest[i]));
        }
        assert forall|b: u8| s.contains(b) <==> (letters.contains(b) && b < bound) by {
            if letters.contains(top) {
                assert(s == rest.push(top));
                if s.contains(b) {
                    let i = choose|i: int| 0 <= i < s.len() && s[i] == b;
                    if i < rest.len() {
                        assert(rest.contains(b));
                    }
                }
                if letters.contains(b) && b < bound {
                    if b == top {
                        assert(s[rest.len() as int] == b);
                    } else {
                        assert(rest.contains(b));
                        let i = choose|i: int| 0 <= i < rest.len() && rest[i] == b;
                        assert(s[i] == b);
                    }
                }
            }
        }
    }
}

/// Two strictly ascending sequences with the same members are equal.
pub proof fn lemma_signature_unique(a: Seq<u8>, b: Seq<u8>)
    requires
        is_signature(a),
        is_signature(b),
        forall|x: u8| a.contains(x) <==> b.contains(x),
    ensures
        a == b,
    decreases a.len(),
{
    if a.len() == 0 {
        if b.len() > 0 {
            assert(b.contains(b[0]));
        }
    } else if b.len() == 0 {
        assert(a.contains(a[0]));
    } else {
        let la = a.last();
        let lb = b.last();
        assert(a.contains(la));
        assert(b.contains(lb));
        let ia = choose|i: int| 0 <= i < b.len() && b[i] == la;
        let ib = choose|i: int| 0 <= i < a.len() && a[i] == lb;
        assert(la == lb);
        let a0 = a.drop_last();
        let b0 = b.drop_last();
        assert forall|x: u8| a0.contains(x) <==> b0.contains(x) by {
            if a0.contains(x) {
                let i = choose|i: int| 0 <= i < a0.len() && a0[i] == x;
                assert(a[i] == x);
                assert(a.contains(x));
                let j = choose|j: int| 0 <= j < b.len() && b[j] == x;
                assert(b0[j] == x);
            }
            if b0.contains(x) {
                let i = choose|i: int| 0 <= i < b0.len() && b0[i] == x;
                assert(b[i] == x);
                assert(b.contains(x));
                let j = choose|j: int| 0 <= j < a.len() && a[j] == x;
                assert(a0[j] == x);
            }
        }
        lemma_signature_unique(a0, b0);
        assert(a == a0.push(la));
        assert(b == b0.push(lb));
    }
}

/// The signature of a word is the one strictly ascending sequence whose
/// members are the word's folded letters.
pub proof fn lemma_signature_characterized(word: Seq<char>, s: Seq<u8>)
    ensures
        is_signature(signature(word)),
        forall|b: u8|
            #![trigger signature(word).contains(b)]
            #![trigger letters_of(word).contains(b)]
            signature(word).contains(b) <==> letters_of(word).contains(b),
        (s == signature(word)) <==> (is_signature(s) && forall|b: u8|
            s.contains(b) <==> letters_of(word).contains(b)),
{
    lemma_ascending_below(letters_of(word), 256);
    if is_signature(s) && (forall|b: u8| s.contains(b) <==> letters_of(word).contains(b)) {
        lemma_signature_unique(s, signature(word));
    }
}

/// Two words have the same signature exactly when they use the same set of
/// distinct letters, upper and lower case counted as one.
pub proof fn lemma_same_signature_iff_same_letters(w1: Seq<char>, w2: Seq<char>)
    ensures
        (signature(w1) == signature(w2)) <==> (letters_of(w1) == letters_of(w2)),
{
    lemma_signature_characterized(w1, signature(w1));
    lemma_signature_characterized(w2, signature(w2));
    if signature(w1) == signature(w2) {
        assert forall|b: u8| letters_of(w1).contains(b) == letters_of(w2).contains(b) by {
            assert(signature(w1).contains(b) <==> letters_of(w1).contains(b));
            assert(signature(w2).contains(b) <==> letters_of(w2).contains(b));
        }
        assert(letters_of(w1) =~= letters_of(w2));
    }
}

/// Rearranging the characters of a word does not change its signature.
pub proof fn lemma_signature_ignores_order(w1: Seq<char>, w2: Seq<char>)
    requires
        w1.to_multiset() == w2.to_multiset(),
    ensures
        signature(w1) == signature(w2),
{
    w1.to_multiset_ensures();
    w2.to_multiset_ensures();
    assert forall|b: u8| letters_of(w1).contains(b) == letters_of(w2).contains(b) by {
        if letters_of(w1).contains(b) {
            let i = choose|i: int| 0 <= i < w1.len() && fold(w1[i]) == b;
            assert(w1.contains(w1[i]));
            assert(w2.to_multiset().count(w1[i]) > 0);
            assert(w2.contains(w1[i]));
            let j = choose|j: int| 0 <= j < w2.len() && w2[j] == w1[i];
            assert(fold(w2[j]) == b);
        }
        if letters_of(w2).contains(b) {
            let i = choose|i: int| 0 <= i < w2.len() && fold(w2[i]) == b;
            assert(w2.contains(w2[i]));
            assert(w1.to_multiset().count(w2[i]) > 0);
            assert(w1.contains(w2[i]));
            let j = choose|j: int| 0 <= j < w1.len() && w1[j] == w2[i];
            assert(fold(w1[j]) == b);
        }
    }
    assert(letters_of(w1) =~= letters_of(w2));
}

/// Taking the signature of an ASCII word's signature, read back as a word,
/// gives the same signature again.
pub proof fn lemma_signature_idempotent(word: Seq<char>)
    requires
        is_ascii_chars(word),
    ensures
        signature(spelled(signature(word))) == signature(word),
{
    let sig = signature(word);
    let again = spelled(sig);
    lemma_signature_characterized(word, sig);
    assert forall|b: u8| letters_of(again).contains(b) == letters_of(word).contains(b) by {
        if letters_of(again).contains(b) {
            let i = choose|i: int| 0 <= i < again.len() && fold(again[i]) == b;
            assert(sig.contains(sig[i]));
            assert(letters_of(word).contains(sig[i]));
            let j = choose|j: int| 0 <= j < word.len() && fold(word[j]) == sig[i];
            assert('\0' <= word[j] <= '\u{7f}');
            assert(fold(sig[i] as char) == sig[i]);
        }
        if letters_of(word).contains(b) {
            assert(sig.contains(b));
            let i = choose|i: int| 0 <= i < sig.len() && sig[i] == b;
            let j = choose|j: int| 0 <= j < word.len() && fold(word[j]) == b;
            assert('\0' <= word[j] <= '\u{7f}');
            assert(fold(b as char) == b);
            assert(fold(again[i]) == b);
        }
    }
    assert(letters_of(again) =~= letters_of(word));
}

/// Folds one character to its signature byte.
pub fn fold_char(c: char) -> (b: u8)
    ensures
        b == fold(c),
{
    let code: u32 = c as u32;
    if c >= 'A' && c <= 'Z' {
        (code + 32) as u8
    } else {
        (code % 256) as u8
    }
}

/// Computes the signature of `s`: every character folded to a byte, the
/// bytes in ascending order, each once.
pub fn factor(s: &str) -> (factors: Vec<u8>)
    ensures
        factors@ == signature(s@),
{
    let mut seen: Vec<bool> = vec![false; 256];
    for c in it: s.chars()
        invariant
            it.seq() == s@,
            seen.len() == 256,
            forall|b: u8|
                seen[b as int] == exists|i: int| 0 <= i < it.index() && fold(s@[i]) == b,
    {
        let ghost before = seen@;
        let ghost at = it.index();
        let folded = fold_char(c);
        seen.set(folded as usize, true);
        assert forall|b: u8|
            seen[b as int] == exists|i: int| 0 <= i < at + 1 && fold(s@[i]) == b by {
            if b == folded {
                assert(fold(s@[at]) == b);
            } else if before[b as int] {
                let i = choose|i: int| 0 <= i < at && fold(s@[i]) == b;
                assert(0 <= i < at + 1 && fold(s@[i]) == b);
            }
        }
    }
    let ghost letters = letters_of(s@);
    assert forall|b: u8| seen[b as int] == letters.contains(b) by {}
    let mut factors: Vec<u8> = Vec::new();
    let mut next: usize = 0;
    while next < 256
        invariant
            next <= 256,
            seen.len() == 256,
            forall|b: u8| seen[b as int] == letters.contains(b),
            factors@ == ascending_below(letters, next as nat),
        decreases 256 - next,
    {
        if seen[next] {
            assert(seen[(next as u8) as int]);
            factors.push(next as u8);
        } else {
            assert(!seen[(next as u8) as int]);
        }
        next = next + 1;
    }
    factors
}

} // verus!
