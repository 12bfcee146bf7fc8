use letterscan::dictionary::Dictionary;

fn lines(ws: &[&str]) -> Vec<String> {
    ws.iter().map(|w| w.to_string()).collect()
}

#[test]
fn lines_are_lowercased() {
    let d = Dictionary::from_lines(&lines(&["CAT", "Dog"]), 10);
    assert_eq!(d.words, vec!["cat".to_string(), "dog".to_string()]);
}

#[test]
fn duplicate_words_are_stored_once() {
    let d = Dictionary::from_lines(&lines(&["cat", "CAT", "cat"]), 10);
    assert_eq!(d.words, vec!["cat".to_string()]);
}

#[test]
fn long_lines_are_dropped() {
    let d = Dictionary::from_lines(&lines(&["abcdefghijk", "cat"]), 10);
    assert_eq!(d.words, vec!["cat".to_string()]);
}

#[test]
fn lines_at_the_limit_are_kept() {
    let d = Dictionary::from_lines(&lines(&["abcdefghij"]), 10);
    assert_eq!(d.words, vec!["abcdefghij".to_string()]);
}

#[test]
fn empty_input_gives_empty_dictionary() {
    let d = Dictionary::from_lines(&lines(&[]), 10);
    assert!(d.words.is_empty());
}
