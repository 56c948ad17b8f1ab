use spellingbee::signature::{factor, fold_char};

fn spell(signature: &[u8]) -> String {
    signature.iter().map(|b| *b as char).collect()
}

#[test]
fn factor_sorts_and_removes_repeats() {
    assert_eq!(factor("tact"), vec![b'a', b'c', b't']);
    assert_eq!(factor("Apple"), vec![b'a', b'e', b'l', b'p']);
    assert_eq!(factor("apple"), vec![b'a', b'e', b'l', b'p']);
    assert_eq!(factor(""), Vec::<u8>::new());
    assert_eq!(factor("zzzz"), vec![b'z']);
    assert_eq!(factor("don't"), vec![b'\'', b'd', b'n', b'o', b't']);
    assert_eq!(factor("b2 a1"), vec![b' ', b'1', b'2', b'a', b'b']);
}

#[test]
fn fold_lowers_ascii_capitals_and_cuts_the_rest() {
    assert_eq!(fold_char('a'), b'a');
    assert_eq!(fold_char('A'), b'a');
    assert_eq!(fold_char('Z'), b'z');
    assert_eq!(fold_char('@'), b'@');
    assert_eq!(fold_char('['), b'[');
    assert_eq!(fold_char('é'), 0xe9);
    assert_eq!(fold_char('Ł'), 0x41);
    assert_eq!(fold_char('š'), 0x61);
    for c in ['a', 'Q', '7', 'é', 'Ł', '\u{10FFFF}'] {
        assert_eq!(fold_char(c), c.to_ascii_lowercase() as u8);
    }
}

#[test]
fn same_letters_give_the_same_signature() {
    assert_eq!(factor("listen"), factor("silent"));
    assert_eq!(factor("listen"), factor("Tinsel"));
    assert_eq!(factor("listen"), factor("listennnn"));
    assert_ne!(factor("listen"), factor("list"));
    assert_eq!(factor("listen"), factor("listens"));
    assert_ne!(factor("listen"), factor("listened"));
    assert_ne!(factor("ab"), factor("ac"));
}

#[test]
fn signature_of_a_signature_is_itself() {
    for word in ["tact", "Apple", "pineapple", "", "a", "Mississippi", "x-ray 2"] {
        let once = factor(word);
        assert_eq!(factor(&spell(&once)), once);
    }
}

#[test]
fn shuffled_words_keep_their_signature() {
    assert_eq!(factor("pineapple"), factor("elppaenip"));
    assert_eq!(factor("pineapple"), factor("ppplaeeni"));
    assert_eq!(factor("abcabc"), factor("ccbbaa"));
    let reversed: String = "Mississippi".chars().rev().collect();
    assert_eq!(factor("Mississippi"), factor(&reversed));
}
