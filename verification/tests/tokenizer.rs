use entity_rust::{shingle_tokens, shingles, tokenize, ConfigurationError, ShingleSet};
use std::collections::HashSet;

fn as_set(set: &ShingleSet) -> HashSet<String> {
    set.items().iter().cloned().collect()
}

fn strings(items: &[&str]) -> HashSet<String> {
    items.iter().map(|s| s.to_string()).collect()
}

#[test]
fn shingles_slide_one_character_at_a_time() {
    assert_eq!(shingles("abcd", 3).unwrap(), vec!["abc", "bcd"]);
    assert_eq!(shingles("abcdbcd", 3).unwrap(), vec!["abc", "bcd", "cdb", "dbc", "bcd"]);
    assert_eq!(shingles("abcde", 1).unwrap(), vec!["a", "b", "c", "d", "e"]);
}

#[test]
fn shingles_of_a_token_of_length_n_is_the_token() {
    assert_eq!(shingles("abc", 3).unwrap(), vec!["abc"]);
}

#[test]
fn shingles_of_a_short_token_is_the_token() {
    assert_eq!(shingles("ab", 3).unwrap(), vec!["ab"]);
    assert_eq!(shingles("j", 10).unwrap(), vec!["j"]);
}

#[test]
fn shingles_of_the_empty_token_is_the_empty_shingle() {
    assert_eq!(shingles("", 3).unwrap(), vec![""]);
}

#[test]
fn shingles_count_characters_not_bytes() {
    assert_eq!(
        shingles("h\u{00e9}llo", 2).unwrap(),
        vec!["h\u{00e9}", "\u{00e9}l", "ll", "lo"]
    );
    assert_eq!(shingles("\u{4e2d}\u{6587}", 3).unwrap(), vec!["\u{4e2d}\u{6587}"]);
}

#[test]
fn shingles_refuse_shingle_length_zero() {
    assert_eq!(shingles("ab", 0), Err(ConfigurationError::ZeroShingleLength));
    assert_eq!(shingles("", 0), Err(ConfigurationError::ZeroShingleLength));
}

#[test]
fn shingle_tokens_refuse_shingle_length_zero() {
    let tokens = vec!["ab".to_string()];
    assert_eq!(shingle_tokens(&tokens, 0).err(), Some(ConfigurationError::ZeroShingleLength));
    assert_eq!(
        shingle_tokens(&Vec::new(), 0).err(),
        Some(ConfigurationError::ZeroShingleLength)
    );
}

#[test]
fn shingle_tokens_unites_the_shingles_of_all_tokens() {
    let tokens = vec!["abcdbcd".to_string(), "efg".to_string()];
    let set = shingle_tokens(&tokens, 3).unwrap();
    assert_eq!(as_set(&set), strings(&["abc", "bcd", "cdb", "dbc", "efg"]));
    assert_eq!(set.len(), 5);
    assert_eq!(*set.items(), vec!["abc", "bcd", "cdb", "dbc", "efg"]);
}

#[test]
fn shingle_tokens_of_no_tokens_is_empty() {
    let set = shingle_tokens(&Vec::new(), 3).unwrap();
    assert_eq!(set.len(), 0);
    assert!(set.items().is_empty());
}

#[test]
fn shingle_tokens_collapses_repeats_across_tokens() {
    let tokens = vec!["doe".to_string(), "doe".to_string(), "does".to_string()];
    let set = shingle_tokens(&tokens, 3).unwrap();
    assert_eq!(*set.items(), vec!["doe", "oes"]);
}

#[test]
fn tokenize_refuses_shingle_length_zero() {
    assert_eq!(tokenize("john, doe", 0).err(), Some(ConfigurationError::ZeroShingleLength));
    assert_eq!(tokenize("", 0).err(), Some(ConfigurationError::ZeroShingleLength));
}

#[test]
fn tokenize_twice_gives_the_same_set() {
    let first = tokenize("Ab'cdbcd, E[$fg", 3).unwrap();
    let second = tokenize("Ab'cdbcd, E[$fg", 3).unwrap();
    assert_eq!(as_set(&first), as_set(&second));
    assert_eq!(first.items(), second.items());
}

#[test]
fn tokenize_keeps_tokens_shorter_than_n() {
    let set = tokenize("J, Doe", 3).unwrap();
    assert_eq!(as_set(&set), strings(&["j", "doe"]));
    let set = tokenize("Ng", 10).unwrap();
    assert_eq!(as_set(&set), strings(&["ng"]));
}

#[test]
fn tokenize_of_empty_text_is_the_empty_shingle() {
    let set = tokenize("", 3).unwrap();
    assert_eq!(as_set(&set), strings(&[""]));
}

#[test]
fn tokenize_handles_empty_tokens_between_commas() {
    let set = tokenize("john,, doe", 3).unwrap();
    assert_eq!(as_set(&set), strings(&["joh", "ohn", "", "doe"]));
}

#[test]
fn tokenize_with_n_ten() {
    let set = tokenize("Michael Stonebraker, Jim Gray", 10).unwrap();
    assert_eq!(
        as_set(&set),
        strings(&[
            "michaelsto",
            "ichaelston",
            "chaelstone",
            "haelstoneb",
            "aelstonebr",
            "elstonebra",
            "lstonebrak",
            "stonebrake",
            "tonebraker",
            "jimgray",
        ])
    );
}

#[test]
fn shingle_set_remembers_first_insertions() {
    let mut set = ShingleSet::new();
    assert!(set.insert("b".to_string()));
    assert!(set.insert("a".to_string()));
    assert!(!set.insert("b".to_string()));
    assert!(set.contains("a"));
    assert!(set.contains("b"));
    assert!(!set.contains("c"));
    assert_eq!(set.len(), 2);
    assert_eq!(*set.items(), vec!["b", "a"]);
}
