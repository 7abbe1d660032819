use isocolour::IsomorphSignature;

fn sig_of(word: &str) -> IsomorphSignature {
    let chars: Vec<char> = word.chars().collect();
    IsomorphSignature::from_isomorphic(&chars)
}

#[test]
fn empty_word_has_empty_signature() {
    let s = sig_of("");
    assert_eq!(s.signature, Vec::<usize>::new());
    assert!(!s.good);
}

#[test]
fn all_distinct_word() {
    let s = sig_of("abc");
    assert_eq!(s.signature, vec![0, 1, 2]);
    assert!(!s.good);
}

#[test]
fn repeated_tail_word() {
    let s = sig_of("egg");
    assert_eq!(s.signature, vec![0, 1, 1]);
    assert!(s.good);
}

#[test]
fn repeated_characters_reuse_numbers() {
    let s = sig_of("abab");
    assert_eq!(s.signature, vec![0, 1, 0, 1]);
    assert!(s.good);
}

#[test]
fn leading_pair_word() {
    let s = sig_of("aab");
    assert_eq!(s.signature, vec![0, 0, 1]);
    assert!(s.good);
}

#[test]
fn single_character_word_is_not_good() {
    let s = sig_of("x");
    assert_eq!(s.signature, vec![0]);
    assert!(!s.good);
}

#[test]
fn isomorphic_words_share_signatures() {
    assert_eq!(sig_of("egg").signature, sig_of("add").signature);
    assert_eq!(sig_of("abb").signature, sig_of("fgg").signature);
    assert_eq!(sig_of("ab").signature, sig_of("cd").signature);
    assert_eq!(sig_of("paper").signature, sig_of("title").signature);
}

#[test]
fn non_isomorphic_words_differ() {
    assert_ne!(sig_of("ab").signature, sig_of("aa").signature);
    assert_ne!(sig_of("foo").signature, sig_of("bar").signature);
    assert_ne!(sig_of("ab").signature, sig_of("abc").signature);
}

#[test]
fn goodness_tracks_repetition() {
    assert!(!sig_of("abcdef").good);
    assert!(sig_of("aa").good);
    assert!(sig_of("abca").good);
    assert!(!sig_of("ab").good);
}

#[test]
fn unicode_words_are_per_character() {
    let s = sig_of("ééy");
    assert_eq!(s.signature, vec![0, 0, 1]);
    assert!(s.good);
}
