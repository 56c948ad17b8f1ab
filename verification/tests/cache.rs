use spellingbee::cache::{
    bound_within_limit, encoded_outcome, store, CacheError, CacheImage, ARCHIVE_LIMIT,
};
use spellingbee::index::Index;
use spellingbee::lookup::{must_rebuild, SignatureLookup};
use spellingbee::solver::solve;

fn lookup<L: SignatureLookup>(index: &L, key: &[u8]) -> Vec<String> {
    let mut out: Vec<&str> = Vec::new();
    index.append_matches(key, &mut out);
    out.into_iter().map(String::from).collect()
}

fn words(list: &[&str]) -> Vec<String> {
    list.iter().map(|w| w.to_string()).collect()
}

fn sample() -> Index {
    Index::from_words(words(&[
        "tact", "cat", "act", "taco", "cot", "abcd", "bcda", "Apple", "apple", "pineapple",
        "naïve", "a", "",
    ]))
}

#[test]
fn stored_index_reads_back_the_same_lists() {
    let index = sample();
    let bytes = store(&index).ok().expect("a small index can be stored");
    let image = CacheImage::from_bytes(&bytes).ok().expect("few bytes make an image");
    let view = image.view().ok().expect("stored bytes are valid");
    assert!(!view.is_empty());
    for entry in index.entry_list() {
        assert_eq!(lookup(&view, &entry.letters), entry.words);
        assert_eq!(lookup(&index, &entry.letters), entry.words);
    }
    assert_eq!(lookup(&view, b"act"), words(&["tact", "cat", "act"]));
    assert_eq!(lookup(&view, b"aeilnp"), words(&["pineapple"]));
    assert_eq!(lookup(&view, b""), words(&[""]));
    assert_eq!(lookup(&view, b"zz"), Vec::<String>::new());
    assert_eq!(lookup(&view, b"ac"), Vec::<String>::new());
}

#[test]
fn every_list_of_a_larger_index_reads_back() {
    let mut list = Vec::new();
    for i in 1..2000u32 {
        let letters: String = (0..12u32)
            .filter(|bit| i >> bit & 1 == 1)
            .map(|bit| (b'a' + bit as u8) as char)
            .collect();
        list.push(letters.clone());
        if i % 3 == 0 {
            list.push(letters.chars().rev().collect());
        }
        if i % 5 == 0 {
            list.push(letters.repeat(2));
        }
    }
    let index = Index::from_words(list);
    assert_eq!(index.len(), 1999);
    let bytes = store(&index).ok().expect("the index can be stored");
    let image = CacheImage::from_bytes(&bytes).ok().expect("the bytes make an image");
    let view = image.view().ok().expect("stored bytes are valid");
    for entry in index.entry_list() {
        assert_eq!(lookup(&view, &entry.letters), entry.words);
    }
    assert_eq!(lookup(&view, b"abc"), words(&["abc"]));
    assert_eq!(lookup(&view, b"ab"), words(&["ab", "ba"]));
    assert_eq!(lookup(&view, b"ac"), words(&["ac", "acac"]));
    assert_eq!(lookup(&view, b"m"), Vec::<String>::new());
}

#[test]
fn stored_empty_index_reads_back_empty() {
    let index = Index::new();
    let bytes = store(&index).ok().expect("an empty index can be stored");
    let image = CacheImage::from_bytes(&bytes).ok().expect("few bytes make an image");
    let view = image.view().ok().expect("stored bytes are valid");
    assert!(view.is_empty());
    assert_eq!(lookup(&view, b"act"), Vec::<String>::new());
    assert!(must_rebuild(Some(&view)));
}

#[test]
fn garbage_bytes_are_refused() {
    for bytes in [
        Vec::new(),
        vec![0u8],
        vec![1u8, 2, 3],
        vec![0xffu8; 64],
        b"this is not a stored index at all, only text".to_vec(),
    ] {
        let image = CacheImage::from_bytes(&bytes).ok().expect("few bytes make an image");
        assert!(matches!(image.view(), Err(CacheError::Invalid(_))));
    }
}

#[test]
fn truncated_cache_is_refused() {
    let bytes = store(&sample()).ok().expect("a small index can be stored");
    for keep in [1, bytes.len() / 2, bytes.len() - 4, bytes.len() - 1] {
        let image = CacheImage::from_bytes(&bytes[..keep]).ok().expect("few bytes make an image");
        assert!(matches!(image.view(), Err(CacheError::Invalid(_))));
    }
}

#[test]
fn corrupt_cache_leads_to_a_rebuild_with_the_same_answers() {
    let source = words(&["abcd", "abc", "bcda", "dcab", "Abcd"]);
    let without_cache = {
        let index = Index::from_words(source.clone());
        let found: Vec<String> =
            solve(&index, "abcd", None, 4).into_iter().map(String::from).collect();
        found
    };
    let image = CacheImage::from_bytes(&[7u8, 7, 7, 7, 7, 7, 7]).ok().expect("few bytes make an image");
    let loaded = image.view();
    assert!(loaded.is_err());
    assert!(must_rebuild(loaded.as_ref().ok()));
    let rebuilt = Index::from_words(source);
    assert!(!must_rebuild(Some(&rebuilt)));
    let found: Vec<String> =
        solve(&rebuilt, "abcd", None, 4).into_iter().map(String::from).collect();
    assert_eq!(found, without_cache);
    assert_eq!(found, words(&["abcd", "bcda", "dcab"]));
}

#[test]
fn view_and_index_answer_alike() {
    let index = sample();
    let bytes = store(&index).ok().expect("a small index can be stored");
    let image = CacheImage::from_bytes(&bytes).ok().expect("few bytes make an image");
    let view = image.view().ok().expect("stored bytes are valid");
    assert_eq!(solve(&view, "tacox", None, 3), solve(&index, "tacox", None, 3));
    assert_eq!(solve(&view, "tacox", None, 3), vec!["act", "cat", "cot", "taco", "tact"]);
    assert!(!must_rebuild(Some(&view)));
}

#[test]
fn stored_form_stays_under_its_bound() {
    assert_eq!(bound_within_limit(Index::new().entry_list()), Some(32));
    let one = Index::from_words(words(&["pineapple"]));
    assert_eq!(bound_within_limit(one.entry_list()), Some(32 + 32 + 6 + 16 + 9));
    let mut many = Vec::new();
    for i in 0..300u32 {
        let letters: String = (0..26u32)
            .filter(|bit| (i * 2654435761u32.wrapping_add(i)) >> bit & 1 == 1)
            .map(|bit| (b'a' + bit as u8) as char)
            .collect();
        for repeat in 1..4 {
            many.push(letters.repeat(repeat));
        }
    }
    let many = Index::from_words(many);
    assert!(many.len() > 100);
    for index in [Index::new(), one, sample(), many] {
        let bound = bound_within_limit(index.entry_list()).expect("a small index fits");
        let bytes = store(&index).ok().expect("a small index can be stored");
        assert!(bytes.len() <= bound);
        assert!(bound <= ARCHIVE_LIMIT);
    }
}

#[test]
fn image_of_an_index_holds_it() {
    let index = sample();
    let image = CacheImage::of_index(&index).ok().expect("a small index can be stored");
    let view = image.view().ok().expect("stored bytes are valid");
    for entry in index.entry_list() {
        assert_eq!(lookup(&view, &entry.letters), entry.words);
    }
}

#[test]
fn more_bytes_than_the_limit_make_no_image() {
    let mut probe: Vec<u8> = Vec::new();
    if probe.try_reserve_exact(ARCHIVE_LIMIT + 1).is_err() {
        return;
    }
    drop(probe);
    let bytes = vec![0u8; ARCHIVE_LIMIT + 1];
    assert!(matches!(CacheImage::from_bytes(&bytes), Err(CacheError::TooLarge)));
    assert!(CacheImage::from_bytes(&bytes[..ARCHIVE_LIMIT / 4096]).is_ok());
}

#[test]
fn a_failed_encoding_is_reported_with_its_message() {
    match encoded_outcome(Err("no room".to_string())) {
        Err(CacheError::Unwritable(message)) => assert_eq!(message, "no room"),
        _ => panic!("a failure stays a failure"),
    }
    match encoded_outcome(Ok(vec![1, 2, 3])) {
        Ok(bytes) => assert_eq!(bytes, vec![1, 2, 3]),
        Err(_) => panic!("bytes stay bytes"),
    }
}
