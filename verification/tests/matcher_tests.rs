use letterscan::dictionary::Dictionary;
use letterscan::matcher::find_substring_words_fixed_max;
use letterscan::pipeline::select_top_matches;

fn dict(words: &[&str]) -> Dictionary {
    Dictionary { words: words.iter().map(|w| w.to_string()).collect() }
}

#[test]
fn finds_a_word_inside_noise() {
    let d = dict(&["cat", "dog"]);
    let found = find_substring_words_fixed_max("xcatx", &d, 10);
    assert_eq!(found, vec!["cat".to_string()]);
}

#[test]
fn empty_dictionary_matches_nothing() {
    let d = dict(&[]);
    let found = find_substring_words_fixed_max("anything at all", &d, 10);
    assert!(found.is_empty());
}

#[test]
fn dictionary_with_empty_word_matches_nothing() {
    let d = dict(&["", "cat"]);
    let found = find_substring_words_fixed_max("cat", &d, 10);
    assert!(found.is_empty());
}

#[test]
fn words_longer_than_the_cap_are_never_matched() {
    let d = dict(&["catalogues"]);
    let found = find_substring_words_fixed_max("catalogues", &d, 5);
    assert!(found.is_empty());
}

#[test]
fn the_cap_spares_shorter_words() {
    let d = dict(&["cat", "catalog"]);
    let found = find_substring_words_fixed_max("catalogxy", &d, 5);
    assert_eq!(found, vec!["cat".to_string()]);
}

#[test]
fn repeated_occurrences_count_once() {
    let d = dict(&["cat"]);
    let found = find_substring_words_fixed_max("catcatcat", &d, 10);
    assert_eq!(found, vec!["cat".to_string()]);
}

#[test]
fn text_shorter_than_every_word_matches_nothing() {
    let d = dict(&["cat"]);
    let found = find_substring_words_fixed_max("ca", &d, 10);
    assert!(found.is_empty());
}

#[test]
fn overlapping_words_are_all_found() {
    let d = dict(&["cat", "at", "tx", "dog"]);
    let mut found = find_substring_words_fixed_max("catx", &d, 10);
    found.sort();
    assert_eq!(found, vec!["at".to_string(), "cat".to_string(), "tx".to_string()]);
}

#[test]
fn top_matches_keeps_ten_longest_sorted() {
    let words: Vec<String> = vec![
        "a", "bb", "ccc", "dddd", "eeeee", "ffffff", "ggggggg", "hhhhhhhh", "iiiiiiiii",
        "jjjjjjjjjj", "kkkkkkkkkkk", "llllllllllll",
    ]
        .into_iter()
        .map(|w| w.to_string())
        .collect();
    let top = select_top_matches(words);
    assert_eq!(top.len(), 10);
    for p in 1..top.len() {
        assert!(top[p - 1].len() >= top[p].len());
    }
    // the twelve words have distinct lengths, so exactly the two shortest drop
    assert_eq!(top[0], "llllllllllll");
    assert_eq!(top[9], "ccc");
}

#[test]
fn top_matches_keeps_everything_when_few() {
    let words: Vec<String> = vec!["dd".to_string(), "eeee".to_string(), "f".to_string()];
    let top = select_top_matches(words);
    assert_eq!(top.len(), 3);
    assert_eq!(top[0], "eeee");
    assert_eq!(top[1], "dd");
    assert_eq!(top[2], "f");
}
