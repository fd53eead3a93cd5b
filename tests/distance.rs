use word_filter::distance::{within_distance, word_distance, word_matches};

#[test]
fn distance_of_equal_words_is_zero() {
    assert_eq!(word_distance("house", "house"), 0);
    assert_eq!(word_distance("", ""), 0);
}

#[test]
fn distance_known_values() {
    assert_eq!(word_distance("house", "mouse"), 1);
    assert_eq!(word_distance("kitten", "sitting"), 3);
    assert_eq!(word_distance("house", "flower"), 5);
    assert_eq!(word_distance("", "tree"), 4);
    assert_eq!(word_distance("tree", ""), 4);
}

#[test]
fn distance_counts_characters_not_bytes() {
    assert_eq!(word_distance("héllo", "hello"), 1);
    assert_eq!(word_distance("", "日本"), 2);
}

#[test]
fn within_distance_is_inclusive() {
    assert!(within_distance(1, 1));
    assert!(within_distance(0, 0));
    assert!(!within_distance(2, 1));
}

#[test]
fn word_matches_uses_distance() {
    assert!(word_matches("house", 1, &"mouse".to_string()));
    assert!(!word_matches("house", 1, &"tree".to_string()));
    assert!(word_matches("house", 0, &"house".to_string()));
}
