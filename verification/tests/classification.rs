use isocolour::{colour, ColourKey, ColouredObject};

fn words(input: &[&str]) -> Vec<String> {
    input.iter().map(|w| w.to_string()).collect()
}

fn keys(out: &[ColouredObject]) -> Vec<Option<usize>> {
    out.iter().map(|o| o.colour.map(|k| k.idx)).collect()
}

fn values(out: &[ColouredObject]) -> Vec<String> {
    out.iter().map(|o| o.value.clone()).collect()
}

#[test]
fn shared_but_not_good_is_uncoloured() {
    let out = colour(words(&["abc", "abc"]));
    assert_eq!(values(&out), vec!["abc", "abc"]);
    assert_eq!(keys(&out), vec![None, None]);
}

#[test]
fn shared_and_good_share_one_key() {
    let out = colour(words(&["egg", "add"]));
    assert_eq!(values(&out), vec!["egg", "add"]);
    assert_eq!(keys(&out), vec![Some(0), Some(0)]);
}

#[test]
fn unique_signature_is_uncoloured() {
    let out = colour(words(&["abb", "cde", "fgg"]));
    assert_eq!(values(&out), vec!["abb", "cde", "fgg"]);
    assert_eq!(keys(&out), vec![Some(0), None, Some(0)]);
}

#[test]
fn empty_input_yields_empty_output() {
    let out = colour(Vec::new());
    assert!(out.is_empty());
}

#[test]
fn literal_difference_does_not_split_a_class() {
    let out = colour(words(&["aa", "bb"]));
    assert_eq!(values(&out), vec!["aa", "bb"]);
    assert_eq!(keys(&out), vec![Some(0), Some(0)]);
}

#[test]
fn empty_words_are_passed_through_uncoloured() {
    let out = colour(words(&["", "", "aa", "aa"]));
    assert_eq!(values(&out), vec!["", "", "aa", "aa"]);
    assert_eq!(keys(&out), vec![None, None, Some(0), Some(0)]);
}

#[test]
fn keys_follow_first_occurrence_order() {
    let out = colour(words(&["egg", "aa", "add", "bb"]));
    assert_eq!(keys(&out), vec![Some(0), Some(1), Some(0), Some(1)]);
}

#[test]
fn reordering_can_move_key_zero() {
    // Same multiset of words, so the same words are coloured, but the
    // class first seen takes key 0.
    let a = colour(words(&["egg", "aa", "add", "bb"]));
    let b = colour(words(&["aa", "egg", "bb", "add"]));
    assert_eq!(keys(&a), vec![Some(0), Some(1), Some(0), Some(1)]);
    assert_eq!(keys(&b), vec![Some(0), Some(1), Some(0), Some(1)]);
    // "egg" holds key 0 in the first run and key 1 in the second.
    assert_eq!(a[0].value, "egg");
    assert_eq!(a[0].colour, Some(ColourKey { idx: 0 }));
    assert_eq!(b[1].value, "egg");
    assert_eq!(b[1].colour, Some(ColourKey { idx: 1 }));
}

#[test]
fn goodness_needs_a_repeat_not_just_sharing() {
    // "ab" and "cd" are isomorphic but without repetition: never coloured.
    let out = colour(words(&["ab", "cd", "ab"]));
    assert_eq!(keys(&out), vec![None, None, None]);
}

#[test]
fn sharing_needs_two_words_not_goodness_alone() {
    // "aa" is good but alone in its class: never coloured.
    let out = colour(words(&["aa", "abc", "xyz"]));
    assert_eq!(keys(&out), vec![None, None, None]);
}

#[test]
fn classification_is_idempotent() {
    let input = &["abb", "cde", "fgg", "aa", "bb", "abc", "abc"];
    let a = colour(words(input));
    let b = colour(words(input));
    assert_eq!(values(&a), values(&b));
    assert_eq!(keys(&a), keys(&b));
}

#[test]
fn input_order_is_preserved() {
    let input = &["zz", "ab", "yy", "ab"];
    let out = colour(words(input));
    assert_eq!(values(&out), vec!["zz", "ab", "yy", "ab"]);
    assert_eq!(keys(&out), vec![Some(0), None, Some(0), None]);
}

#[test]
fn longer_mixed_input() {
    let out = colour(words(&["paper", "title", "abc", "egg", "add", "all", "abc"]));
    // "paper"/"title" share [0,1,0,2,3], good; "egg"/"add"/"all" share
    // [0,1,1], good; "abc" is shared but not good.
    assert_eq!(
        keys(&out),
        vec![Some(0), Some(0), None, Some(1), Some(1), Some(1), None]
    );
}
