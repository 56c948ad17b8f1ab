//! How answers are shown: one line per word, with a mark around the words
//! that use every allowed letter.

use crate::index::{excluded, excluding};
use crate::signature::{
    fold, lemma_signature_characterized, lemma_signature_unique, signature,
};
use crate::solver::has_byte;
use crate::subsets::within;
use vstd::prelude::*;
use vstd::string::StringExecFns;
use vstd::utf8::{encode_utf8, is_ascii_chars};

verus! {

/// Whether every one of `factors` occurs among the bytes of `word`: the
/// word uses all the allowed letters.
pub open spec fn uses_all(factors: Seq<u8>, word: Seq<char>) -> bool {
    forall|i: int| 0 <= i < factors.len() ==> encode_utf8(word).contains(#[trigger] factors[i])
}

/// The characters that switch a terminal to green.
pub open spec fn mark_on() -> Seq<char> {
    seq!['\u{1b}', '[', '3', '2', 'm']
}

/// The characters that switch a terminal back.
pub open spec fn mark_off() -> Seq<char> {
    seq!['\u{1b}', '[', '0', 'm']
}

/// The line for a word: the word itself, between the two marks when it is
/// flagged.
pub open spec fn line_for(word: Seq<char>, flagged: bool) -> Seq<char> {
    if flagged {
        mark_on() + word + mark_off()
    } else {
        word
    }
}

/// A flagged answer is a true anagram: for an accepted ASCII word whose
/// signature lies within that of the allowed letters, using all of those
/// letters means having exactly their signature.
pub proof fn lemma_flagged_words_have_all_the_letters(letters: Seq<char>, word: Seq<char>)
    requires
        is_ascii_chars(word),
        !excluded(word),
        within(signature(word), signature(letters)),
    ensures
        uses_all(signature(letters), word) <==> signature(word) == signature(letters),
{
    let allowed = signature(letters);
    let bytes = encode_utf8(word);
    vstd::utf8::is_ascii_chars_encode_utf8(word);
    lemma_signature_characterized(word, signature(word));
    lemma_signature_characterized(letters, allowed);
    assert forall|i: int| 0 <= i < word.len() implies bytes[i] == fold(#[trigger] word[i]) by {
        assert(!excluding(word[i]));
        assert('\0' <= word[i] <= '\u{7f}');
    }
    if uses_all(allowed, word) {
        assert forall|b: u8| allowed.contains(b) implies signature(word).contains(b) by {
            let i = choose|i: int| 0 <= i < allowed.len() && allowed[i] == b;
            assert(bytes.contains(allowed[i]));
            let j = choose|j: int| 0 <= j < bytes.len() && bytes[j] == b;
            assert(fold(word[j]) == b);
        }
        lemma_signature_unique(signature(word), allowed);
    }
    if signature(word) == allowed {
        assert forall|i: int| 0 <= i < allowed.len() implies bytes.contains(
            #[trigger] allowed[i],
        ) by {
            assert(allowed.contains(allowed[i]));
            let j = choose|j: int| 0 <= j < word.len() && fold(word[j]) == allowed[i];
            assert(bytes[j] == allowed[i]);
        }
    }
}

/// Tells whether `word` uses every one of `factors`.
pub fn is_true_anagram(factors: &[u8], word: &str) -> (all: bool)
    ensures
        all == uses_all(factors@, word@),
{
    let bytes = word.as_bytes();
    let mut i: usize = 0;
    while i < factors.len()
        invariant
            i <= factors.len(),
            bytes@ == encode_utf8(word@),
            forall|k: int| 0 <= k < i ==> bytes@.contains(#[trigger] factors@[k]),
        decreases factors.len() - i,
    {
        if !has_byte(bytes, factors[i]) {
            return false;
        }
        i = i + 1;
    }
    true
}

/// Writes the line for a word.
pub fn render(word: &str, flagged: bool) -> (line: String)
    ensures
        line@ == line_for(word@, flagged),
{
    if flagged {
        proof {
            reveal_strlit("\u{1b}[32m");
            reveal_strlit("\u{1b}[0m");
        }
        let mut line = String::from_str("\u{1b}[32m");
        line.append(word);
        line.append("\u{1b}[0m");
        assert(line@ =~= mark_on() + word@ + mark_off());
        line
    } else {
        String::from_str(word)
    }
}

/// Writes the lines for a list of answers, in their order: each word that
/// uses every one of `factors` between the marks, the others plain.
pub fn report(factors: &[u8], words: &Vec<&str>) -> (lines: Vec<String>)
    ensures
        lines@.len() == words@.len(),
        forall|i: int|
            0 <= i < words@.len() ==> (#[trigger] lines@[i])@ == line_for(
                words@[i]@,
                uses_all(factors@, words@[i]@),
            ),
{
    let mut lines: Vec<String> = Vec::new();
    let mut i: usize = 0;
    while i < words.len()
        invariant
            i <= words.len(),
            lines@.len() == i,
            forall|k: int|
                0 <= k < i ==> (#[trigger] lines@[k])@ == line_for(
                    words@[k]@,
                    uses_all(factors@, words@[k]@),
                ),
        decreases words.len() - i,
    {
        let word = words[i];
        lines.push(render(word, is_true_anagram(factors, word)));
        i = i + 1;
    }
    lines
}

} // verus!
