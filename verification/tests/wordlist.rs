use boxchar::wordlist::{has_adjacent_repeated_letters, Wordlist};

#[test]
fn test_has_adjacent_repeated_letters() {
    assert!(has_adjacent_repeated_letters("PEER"));
    assert!(has_adjacent_repeated_letters("BOOK"));
    assert!(has_adjacent_repeated_letters("HELLO"));
    assert!(has_adjacent_repeated_letters("COFFEE"));

    assert!(!has_adjacent_repeated_letters("DOJO"));
    assert!(!has_adjacent_repeated_letters("WORD"));
    assert!(!has_adjacent_repeated_letters("GAME"));
    assert!(!has_adjacent_repeated_letters("WORDS"));
    assert!(!has_adjacent_repeated_letters("A"));
    assert!(!has_adjacent_repeated_letters(""));
}

#[test]
fn test_wordlist_from_words_filters_repeats() {
    let words = vec![
        "DOJO".to_string(),
        "BOOK".to_string(),
        "WORD".to_string(),
    ];
    let wl = Wordlist::from_words(words);
    assert_eq!(wl.words.len(), 3);
    let kept: Vec<&str> = wl.word_digraphs.iter().map(|e| e.word.as_str()).collect();
    assert_eq!(kept, vec!["DOJO", "WORD"]);
    assert!(!wl.valid_digraphs.is_empty());
}
