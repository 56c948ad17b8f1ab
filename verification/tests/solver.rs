use spellingbee::index::Index;
use spellingbee::lookup::must_rebuild;
use spellingbee::order::{rank_bytes, rank_words, sort_words, Rank};
use spellingbee::signature::factor;
use spellingbee::solver::{gather, has_byte, solve, try_solve, MIN_LEN};
use spellingbee::subsets::subsets;

fn words(list: &[&str]) -> Vec<String> {
    list.iter().map(|w| w.to_string()).collect()
}

#[test]
fn three_letters_give_no_subset_of_four() {
    let index = Index::from_words(words(&["tact", "cat", "act", "taco", "cot"]));
    assert_eq!(factor("tac"), vec![b'a', b'c', b't']);
    assert_eq!(subsets(&factor("tac"), 4), Vec::<Vec<u8>>::new());
    assert_eq!(solve(&index, "tac", None, 4), Vec::<&str>::new());
    assert_eq!(MIN_LEN, 4);
}

#[test]
fn four_letters_find_both_anagrams() {
    let index = Index::from_words(words(&["abcd", "abc", "bcda"]));
    assert_eq!(factor("abcd"), vec![b'a', b'b', b'c', b'd']);
    assert_eq!(subsets(&factor("abcd"), 4), vec![vec![b'a', b'b', b'c', b'd']]);
    assert_eq!(solve(&index, "abcd", None, 4), vec!["abcd", "bcda"]);
}

#[test]
fn pivot_outside_the_letters_finds_nothing() {
    let index = Index::from_words(words(&["abcd", "abc", "bcda", "x", "abcdx"]));
    assert_eq!(solve(&index, "abcd", Some(b'x'), 4), Vec::<&str>::new());
    assert_eq!(solve(&index, "abcd", Some(b'x'), 0), Vec::<&str>::new());
    assert_eq!(solve(&index, "abcd", Some(b'A'), 1), Vec::<&str>::new());
}

#[test]
fn pivot_keeps_only_subsets_that_hold_it() {
    let index = Index::from_words(words(&["abcd", "abc", "bcd", "cab", "dab", "bad", "b"]));
    assert_eq!(solve(&index, "abcd", None, 3), vec!["abc", "bad", "bcd", "cab", "dab", "abcd"]);
    assert_eq!(solve(&index, "abcd", Some(b'a'), 3), vec!["abc", "bad", "cab", "dab", "abcd"]);
    assert_eq!(solve(&index, "abcd", Some(b'd'), 3), vec!["bad", "bcd", "dab", "abcd"]);
    assert_eq!(solve(&index, "abcd", Some(b'b'), 0), vec![
        "b", "abc", "bad", "bcd", "cab", "dab", "abcd"
    ]);
}

#[test]
fn answers_come_shortest_first_then_by_bytes() {
    let index = Index::from_words(words(&[
        "zeta", "tea", "eat", "ate", "teat", "tate", "a", "at", "ta", "state", "taste",
    ]));
    assert_eq!(solve(&index, "STATEZ", None, 1), vec![
        "a", "at", "ta", "ate", "eat", "tea", "tate", "teat", "zeta", "state", "taste"
    ]);
}

#[test]
fn upper_case_letters_count_as_lower_case() {
    let index = Index::from_words(words(&["abcd", "bcda"]));
    assert_eq!(solve(&index, "ABCD", None, 4), vec!["abcd", "bcda"]);
    assert_eq!(solve(&index, "dDcCbBaA", None, 4), vec!["abcd", "bcda"]);
}

#[test]
fn too_many_letters_are_told_apart() {
    let index = Index::from_words(words(&["abcd"]));
    assert_eq!(try_solve(&index, "abcdefghijklmnopqrstu", None, 4), None);
    assert_eq!(try_solve(&index, "abcdefghijklmnopqrstu", None, 30), Some(Vec::new()));
    assert_eq!(try_solve(&index, "abcde", None, 4), Some(vec!["abcd"]));
}

#[test]
fn gather_follows_the_probes() {
    let index = Index::from_words(words(&["ab", "ba", "abc", "c"]));
    let probes = vec![b"c".to_vec(), b"zz".to_vec(), b"ab".to_vec(), b"c".to_vec()];
    assert_eq!(gather(&index, &probes, None), vec!["c", "ab", "ba", "c"]);
    assert_eq!(gather(&index, &probes, Some(b'b')), vec!["ab", "ba"]);
    assert_eq!(gather(&index, &Vec::new(), None), Vec::<&str>::new());
}

#[test]
fn has_byte_finds_members_only() {
    assert!(has_byte(b"abc", b'a'));
    assert!(has_byte(b"abc", b'c'));
    assert!(!has_byte(b"abc", b'd'));
    assert!(!has_byte(b"", b'a'));
}

#[test]
fn ranks_go_by_length_first() {
    assert_eq!(rank_bytes(b"b", b"ab"), Rank::Before);
    assert_eq!(rank_bytes(b"ab", b"b"), Rank::After);
    assert_eq!(rank_bytes(b"ab", b"ac"), Rank::Before);
    assert_eq!(rank_bytes(b"ac", b"ab"), Rank::After);
    assert_eq!(rank_bytes(b"ab", b"ab"), Rank::Same);
    assert_eq!(rank_bytes(b"", b""), Rank::Same);
    assert_eq!(rank_bytes(b"", b"a"), Rank::Before);
    assert_eq!(rank_words("zoo", "able"), Rank::Before);
    assert_eq!(rank_words("é", "zz"), Rank::After);
    assert_eq!(rank_words("é", "zzz"), Rank::Before);
    assert_eq!(rank_words("same", "same"), Rank::Same);
}

#[test]
fn sort_words_keeps_every_word() {
    let mut list = vec!["pear", "fig", "apple", "fig", "kiwi", "date", "fig", ""];
    sort_words(&mut list);
    assert_eq!(list, vec!["", "fig", "fig", "fig", "date", "kiwi", "pear", "apple"]);
    let mut expected = vec!["pear", "fig", "apple", "fig", "kiwi", "date", "fig", ""];
    expected.sort_unstable_by_key(|word| (word.len(), *word));
    assert_eq!(list, expected);
    let mut none: Vec<&str> = Vec::new();
    sort_words(&mut none);
    assert!(none.is_empty());
}

#[test]
fn nothing_loaded_means_rebuild() {
    assert!(must_rebuild::<Index>(None));
    assert!(must_rebuild(Some(&Index::new())));
    assert!(!must_rebuild(Some(&Index::from_words(words(&["a"])))));
}

#[test]
fn search_finds_every_match_as_often_as_it_is_listed() {
    let source = words(&[
        "deal", "lead", "dale", "lade", "deal", "Lead", "led", "dell", "leaded", "ideal", "o'deal",
    ]);
    let index = Index::from_words(source.clone());
    let found = solve(&index, "adel", None, 4);
    assert_eq!(found, vec!["dale", "deal", "deal", "lade", "lead", "leaded"]);
    assert_eq!(solve(&index, "adel", None, 3), vec![
        "led", "dale", "deal", "deal", "dell", "lade", "lead", "leaded"
    ]);
    assert_eq!(solve(&index, "adeil", Some(b'i'), 4), vec!["ideal"]);
}
