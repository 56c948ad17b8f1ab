use spellingbee::signature::factor;
use spellingbee::subsets::{fits_enumeration, subsets, try_subsets};

#[test]
fn combinations_come_in_lexicographic_order() {
    let got = subsets(&[1, 2, 3, 4, 5], 3);
    let expected: Vec<Vec<u8>> = vec![
        vec![1, 2, 3],
        vec![1, 2, 4],
        vec![1, 2, 5],
        vec![1, 3, 4],
        vec![1, 3, 5],
        vec![1, 4, 5],
        vec![2, 3, 4],
        vec![2, 3, 5],
        vec![2, 4, 5],
        vec![3, 4, 5],
        vec![1, 2, 3, 4],
        vec![1, 2, 3, 5],
        vec![1, 2, 4, 5],
        vec![1, 3, 4, 5],
        vec![2, 3, 4, 5],
        vec![1, 2, 3, 4, 5],
    ];
    assert_eq!(got, expected);
}

#[test]
fn seven_letters_give_sixty_four_subsets_of_four_or_more() {
    let letters = factor("gabcdef");
    let got = subsets(&letters, 4);
    assert_eq!(got.len(), 35 + 21 + 7 + 1);
    for subset in &got {
        assert!(4 <= subset.len() && subset.len() <= 7);
        assert!(subset.windows(2).all(|pair| pair[0] < pair[1]));
        assert!(subset.iter().all(|letter| letters.contains(letter)));
    }
    for i in 0..got.len() {
        for j in 0..i {
            assert_ne!(got[i], got[j]);
        }
    }
    assert_eq!(got[0], b"abcd".to_vec());
    assert_eq!(got[63], b"abcdefg".to_vec());
}

#[test]
fn least_length_zero_leaves_the_empty_subset_out() {
    let got = subsets(b"abc", 0);
    let expected: Vec<Vec<u8>> = vec![
        b"a".to_vec(),
        b"b".to_vec(),
        b"c".to_vec(),
        b"ab".to_vec(),
        b"ac".to_vec(),
        b"bc".to_vec(),
        b"abc".to_vec(),
    ];
    assert_eq!(got, expected);
    assert_eq!(subsets(b"abc", 1), expected);
    assert_eq!(subsets(b"", 0), Vec::<Vec<u8>>::new());
    assert_eq!(subsets(b"", 1), Vec::<Vec<u8>>::new());
}

#[test]
fn least_length_beyond_the_letters_gives_nothing() {
    assert_eq!(subsets(b"act", 4), Vec::<Vec<u8>>::new());
    assert_eq!(subsets(b"act", 3), vec![b"act".to_vec()]);
    assert_eq!(subsets(b"act", usize::MAX), Vec::<Vec<u8>>::new());
}

#[test]
fn twenty_letters_fit_twenty_one_do_not() {
    assert!(fits_enumeration(0, 0));
    assert!(fits_enumeration(12, 1));
    assert!(fits_enumeration(21, 22));
    assert_eq!(fits_enumeration(20, 4), usize::MAX as u128 >= 2432902008176640000);
    assert!(!fits_enumeration(21, 4));
    let letters: Vec<u8> = (b'a'..=b'u').collect();
    assert!(try_subsets(&letters, 4).is_none());
    assert_eq!(try_subsets(&letters, 22), Some(Vec::new()));
    assert_eq!(try_subsets(b"ab", 1), Some(vec![b"a".to_vec(), b"b".to_vec(), b"ab".to_vec()]));
}
