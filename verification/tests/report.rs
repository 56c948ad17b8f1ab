use spellingbee::index::Index;
use spellingbee::report::{is_true_anagram, render, report};
use spellingbee::signature::factor;
use spellingbee::solver::solve;

#[test]
fn true_anagrams_use_every_letter() {
    assert!(is_true_anagram(b"act", "tact"));
    assert!(is_true_anagram(b"act", "cat"));
    assert!(!is_true_anagram(b"acot", "cat"));
    assert!(is_true_anagram(b"", "cat"));
    assert!(!is_true_anagram(b"a", ""));
    assert!(is_true_anagram(b"", ""));
}

#[test]
fn flagged_words_stand_between_the_marks() {
    assert_eq!(render("abcd", true), "\u{1b}[32mabcd\u{1b}[0m");
    assert_eq!(render("abcd", false), "abcd");
    assert_eq!(render("", true), "\u{1b}[32m\u{1b}[0m");
    assert_eq!(render("", false), "");
}

#[test]
fn both_anagrams_of_four_letters_are_flagged() {
    let list: Vec<String> = ["abcd", "abc", "bcda"].iter().map(|w| w.to_string()).collect();
    let index = Index::from_words(list);
    let found = solve(&index, "abcd", None, 4);
    assert_eq!(found, vec!["abcd", "bcda"]);
    assert_eq!(report(&factor("abcd"), &found), vec![
        "\u{1b}[32mabcd\u{1b}[0m".to_string(),
        "\u{1b}[32mbcda\u{1b}[0m".to_string(),
    ]);
}

#[test]
fn only_words_with_all_letters_are_flagged() {
    let found = vec!["cab", "back", "cabs"];
    assert_eq!(report(b"abck", &found), vec![
        "cab".to_string(),
        "\u{1b}[32mback\u{1b}[0m".to_string(),
        "cabs".to_string(),
    ]);
    assert_eq!(report(b"abck", &Vec::new()), Vec::<String>::new());
}
