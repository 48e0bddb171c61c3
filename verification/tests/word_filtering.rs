use boxchar::board::Board;
use boxchar::dictionary::Dictionary;

fn sides_from_strs(strs: &[&str]) -> Vec<String> {
    strs.iter().map(|s| s.to_string()).collect()
}

#[test]
fn test_playable_words() {
    let sides = sides_from_strs(&["abc", "def", "gho", "jkl"]);
    let board = Board::from_sides(sides).unwrap();

    let word_strings: Vec<String> = Vec::from([
        "dojo".to_string(),  // possible
        "abode".to_string(), // impossible, "ab" are on the same side
        "joke".to_string(),  // possible
        "egg".to_string(),   // impossible, repeated letter
    ]);
    let dictionary = Dictionary::from_strings(word_strings);
    let playable_dictionary = board.playable_dictionary(&dictionary);

    let playable_words: Vec<String> = playable_dictionary
        .words
        .iter()
        .map(|w| w.word.clone())
        .collect();
    assert!(playable_words.contains(&"dojo".to_string()));
    assert!(!playable_words.contains(&"abode".to_string()));
    assert!(playable_words.contains(&"joke".to_string()));
    assert!(!playable_words.contains(&"egg".to_string()));
}

#[test]
fn test_playable_dictionary_idempotent() {
    let sides = sides_from_strs(&["abc", "def", "gho", "jkl"]);
    let board = Board::from_sides(sides).unwrap();
    let dictionary = Dictionary::from_strings(vec![
        "dojo".to_string(),
        "abode".to_string(),
        "joke".to_string(),
    ]);
    let once = board.playable_dictionary(&dictionary);
    let twice = board.playable_dictionary(&once);
    let a: Vec<&str> = once.words.iter().map(|w| w.word.as_str()).collect();
    let b: Vec<&str> = twice.words.iter().map(|w| w.word.as_str()).collect();
    assert_eq!(a, b);
}
