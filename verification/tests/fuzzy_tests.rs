use mdict_cli_rs::scheduler::Scheduler;
use mdict_cli_rs::textutil::{groom_name, strip_punctuation};

const NOW: i64 = 1_700_000_000;

fn store_with(keys: &[&str]) -> Scheduler {
    let mut s = Scheduler::new();
    for k in keys {
        s.ensure_item(k, NOW);
    }
    s
}

#[test]
fn anagram_shortcut() {
    // Edit distance between "sliver" and "livers" is 2, yet the anagram
    // shortcut lets a zero-distance search find it.
    let s = store_with(&["livers", "unrelated"]);
    assert_eq!(s.find_similar("sliver", 0), vec!["livers".to_string()]);
}

#[test]
fn exact_match_at_distance_zero() {
    let s = store_with(&["apple", "apples"]);
    assert_eq!(s.find_similar("apple", 0), vec!["apple".to_string()]);
}

#[test]
fn edit_distance_bounds() {
    let s = store_with(&["kitten"]);
    // lev("kitten", "sitting") = 3
    assert_eq!(s.find_similar("sitting", 3), vec!["kitten".to_string()]);
    assert_eq!(s.find_similar("sitting", 2), Vec::<String>::new());
}

#[test]
fn results_keep_row_order() {
    let s = store_with(&["cast", "cats", "dog", "acts"]);
    // "cast" and "acts" are anagrams of "cats"; "cats" matches exactly.
    assert_eq!(
        s.find_similar("cats", 0),
        vec!["cast".to_string(), "cats".to_string(), "acts".to_string()]
    );
}

#[test]
fn insertions_and_deletions_count() {
    let s = store_with(&["door", "doors", "oor"]);
    assert_eq!(
        s.find_similar("door", 1),
        vec!["door".to_string(), "doors".to_string(), "oor".to_string()]
    );
}

#[test]
fn empty_query_matches_by_length() {
    let s = store_with(&["a", "ab", ""]);
    assert_eq!(s.find_similar("", 1), vec!["a".to_string(), "".to_string()]);
}

#[test]
fn repeated_letters_are_not_anagrams_of_single_ones() {
    // "aab" and "abb" hold the same letter set but different counts.
    let s = store_with(&["abb"]);
    assert_eq!(s.find_similar("aab", 0), Vec::<String>::new());
    assert_eq!(s.find_similar("aab", 1), vec!["abb".to_string()]);
}

#[test]
fn groom_name_strips_apostrophes() {
    assert_eq!(groom_name("don't"), "dont");
    assert_eq!(groom_name("it's a dog's life"), "its a dogs life");
    assert_eq!(groom_name("plain"), "plain");
    assert_eq!(groom_name(""), "");
}

#[test]
fn strip_punctuation_folds_lookup_keys() {
    assert_eq!(strip_punctuation("Don't Stop!"), "dontstop");
    assert_eq!(strip_punctuation("well-being"), "wellbeing");
    assert_eq!(strip_punctuation("plain"), "plain");
    assert_eq!(strip_punctuation(""), "");
}
