use boxchar::dictionary::{extract_digraphs, Dictionary};
use boxchar::digraph::Digraph;

#[test]
fn test_extract_digraphs_simple() {
    let expected_digraphs = [
        Digraph::new('P', 'I'),
        Digraph::new('I', 'R'),
        Digraph::new('R', 'A'),
        Digraph::new('A', 'T'),
        Digraph::new('T', 'E'),
    ];

    let actual_digraphs = extract_digraphs(&"PIRATE".to_string());
    assert_eq!(actual_digraphs.len(), expected_digraphs.len());
    for d in &expected_digraphs {
        assert!(actual_digraphs.contains(d));
    }
}

#[test]
fn test_parse_word_line() {
    let word = Dictionary::parse_word_line("HELLO 12").unwrap();
    assert_eq!(word.word, "HELLO");
    assert_eq!(word.frequency, 12);

    // extra tokens after the second are ignored
    let word = Dictionary::parse_word_line("  WORLD 7 junk ").unwrap();
    assert_eq!(word.word, "WORLD");
    assert_eq!(word.frequency, 7);

    // malformed lines yield nothing
    assert!(Dictionary::parse_word_line("").is_none());
    assert!(Dictionary::parse_word_line("ONLYWORD").is_none());
    assert!(Dictionary::parse_word_line("WORD abc").is_none());
    assert!(Dictionary::parse_word_line("WORD 300").is_none());
}

#[test]
fn test_parse_negative_and_bounds() {
    assert_eq!(Dictionary::parse_word_line("A -5").unwrap().frequency, -5);
    assert_eq!(Dictionary::parse_word_line("A -128").unwrap().frequency, -128);
    assert_eq!(Dictionary::parse_word_line("A 127").unwrap().frequency, 127);
    assert!(Dictionary::parse_word_line("A 128").is_none());
    assert!(Dictionary::parse_word_line("A -129").is_none());
    assert!(Dictionary::parse_word_line("A -").is_none());
}

#[test]
fn test_from_text_skips_malformed() {
    let text = "ALPHA 3\nnot a number x\nBETA 4\n\nGAMMA 120\n";
    let dict = Dictionary::from_text(text);
    let words: Vec<&str> = dict.words.iter().map(|w| w.word.as_str()).collect();
    assert_eq!(words, vec!["ALPHA", "BETA", "GAMMA"]);
    assert_eq!(dict.words[0].frequency, 3);
    assert_eq!(dict.words[2].frequency, 120);
}

#[test]
fn test_from_bytes_matches_from_text() {
    let text = "ALPHA 3\nBETA 4\n";
    let from_text = Dictionary::from_text(text);
    let from_bytes = Dictionary::from_bytes(&text.as_bytes().to_vec());
    let a: Vec<&str> = from_text.words.iter().map(|w| w.word.as_str()).collect();
    let b: Vec<&str> = from_bytes.words.iter().map(|w| w.word.as_str()).collect();
    assert_eq!(a, b);
}

#[test]
fn test_from_strings_default_frequency() {
    let dict = Dictionary::from_strings(vec!["dojo".to_string(), "joke".to_string()]);
    assert_eq!(dict.words.len(), 2);
    assert_eq!(dict.words[0].frequency, 15);
    assert!(dict.digraphs.contains(&Digraph::new('d', 'o')));
}
