use spellingbee::index::{is_excluded, Index};
use spellingbee::letter_set::LetterSet;
use spellingbee::lookup::SignatureLookup;

fn lookup<L: SignatureLookup>(index: &L, key: &[u8]) -> Vec<String> {
    let mut out: Vec<&str> = Vec::new();
    index.append_matches(key, &mut out);
    out.into_iter().map(String::from).collect()
}

fn words(list: &[&str]) -> Vec<String> {
    list.iter().map(|w| w.to_string()).collect()
}

#[test]
fn new_letter_set_has_letters_and_no_words() {
    let set = LetterSet::new(vec![b'a', b'b', b'c']);
    assert_eq!(set.letters, vec![b'a', b'b', b'c']);
    assert!(set.words.is_empty());
    let letters: &[u8] = set.as_ref();
    assert_eq!(letters, &[b'a', b'b', b'c']);
}

#[test]
fn letter_sets_compare_by_letters_alone() {
    let mut with_word = LetterSet::new(vec![b'a', b'b']);
    with_word.words.push("abba".to_string());
    assert!(with_word == LetterSet::new(vec![b'a', b'b']));
    assert!(with_word != LetterSet::new(vec![b'a', b'b', b'c']));
    assert!(LetterSet::new(vec![]) == LetterSet::new(vec![]));
}

#[test]
fn upper_case_and_apostrophe_exclude_a_word() {
    assert!(is_excluded("Apple"));
    assert!(is_excluded("don't"));
    assert!(is_excluded("naïvE"));
    assert!(!is_excluded("apple"));
    assert!(!is_excluded("naïve"));
    assert!(!is_excluded(""));
    assert!(!is_excluded("a-b c1"));
}

#[test]
fn builder_keeps_proper_nouns_and_contractions_out() {
    let index = Index::from_words(words(&["Apple", "don't", "apple"]));
    assert_eq!(index.len(), 1);
    assert_eq!(lookup(&index, b"aelp"), words(&["apple"]));
    assert_eq!(lookup(&index, b"'dnot"), Vec::<String>::new());
    assert_eq!(lookup(&index, b"dnot"), Vec::<String>::new());
}

#[test]
fn words_are_grouped_by_signature_in_source_order() {
    let index = Index::from_words(words(&["tact", "cat", "act", "taco", "cot", "tact"]));
    assert_eq!(index.len(), 3);
    assert_eq!(lookup(&index, b"act"), words(&["tact", "cat", "act", "tact"]));
    assert_eq!(lookup(&index, b"acot"), words(&["taco"]));
    assert_eq!(lookup(&index, b"cot"), words(&["cot"]));
    assert_eq!(lookup(&index, b"ac"), Vec::<String>::new());
    assert_eq!(lookup(&index, b"tac"), Vec::<String>::new());
}

#[test]
fn add_word_tells_whether_the_word_was_taken() {
    let mut index = Index::new();
    assert!(index.is_empty());
    assert!(!index.add_word("Zeus".to_string()));
    assert!(index.is_empty());
    assert!(index.add_word("zeus".to_string()));
    assert!(!index.is_empty());
    assert!(index.add_word("sue".to_string()));
    assert_eq!(index.len(), 2);
    assert_eq!(lookup(&index, b"esuz"), words(&["zeus"]));
    assert_eq!(lookup(&index, b"esu"), words(&["sue"]));
}

#[test]
fn locate_finds_keys_and_insertion_points() {
    let index = Index::from_words(words(&["cab", "ab", "b", "abcd"]));
    assert_eq!(index.locate(b"b"), Ok(0));
    assert_eq!(index.locate(b"ab"), Ok(1));
    assert_eq!(index.locate(b"abc"), Ok(2));
    assert_eq!(index.locate(b"abcd"), Ok(3));
    assert_eq!(index.locate(b"a"), Err(0));
    assert_eq!(index.locate(b"c"), Err(1));
    assert_eq!(index.locate(b"aa"), Err(1));
    assert_eq!(index.locate(b"zz"), Err(2));
    assert_eq!(index.locate(b"abcde"), Err(4));
    let listed: Vec<Vec<u8>> = index.entry_list().iter().map(|e| e.letters.clone()).collect();
    assert_eq!(listed, vec![b"b".to_vec(), b"ab".to_vec(), b"abc".to_vec(), b"abcd".to_vec()]);
}
