use boxchar::board::Board;
use boxchar::dictionary::Dictionary;
use boxchar::solver::{CancelToken, Solution, Solver};

fn sides_from_strs(strs: &[&str]) -> Vec<String> {
    strs.iter().map(|s| s.to_string()).collect()
}

fn words(strs: &[&str]) -> Vec<String> {
    strs.iter().map(|s| s.to_string()).collect()
}

#[test]
fn test_solver_basic() {
    let sides = sides_from_strs(&["yfa", "otk", "lgw", "rni"]);
    let game = Board::from_sides(sides).unwrap();

    // Create a minimal wordlist for testing
    let wordlist = Dictionary::from_strings(words(&[
        "forklift",
        "twangy",
        "filtration",
        "nag",
        "gawkily",
    ]));
    let solver = Solver::new(game, &wordlist, 10);
    let solutions = solver.solve();

    assert!(!solutions.is_empty());
    assert!(solutions.len() == 2);
    // Solutions render as "words:score"
    assert!(solutions
        .iter()
        .any(|s| format!("{}:{}", s.text(), s.score).starts_with("forklift-twangy:")));
    assert!(solutions
        .iter()
        .any(|s| format!("{}:{}", s.text(), s.score).starts_with("filtration-nag-gawkily:")));
}

#[test]
fn test_solution_display() {
    let solution = Solution::new(vec![
        "word1".to_string(),
        "word2".to_string(),
        "word3".to_string(),
    ]);
    assert_eq!(solution.text(), "word1-word2-word3");

    let single_word = Solution::new(vec!["hello".to_string()]);
    assert_eq!(single_word.text(), "hello");
}

#[test]
fn test_bitmap_coverage() {
    let sides = sides_from_strs(&["ab", "cd", "ef", "gh"]);
    let game = Board::from_sides(sides).unwrap();

    let test_words = words(&["ac", "ce", "eg"]);
    let dictionary = Dictionary::from_strings(test_words);
    let solver = Solver::new(game, &dictionary, 10);

    // Test that all letters bitmap is correctly calculated
    assert_eq!(solver.all_letters_mask, 0b11111111); // 8 bits for 8 letters

    // Test that word bitmaps are correctly calculated
    if let Some(word_ac) = solver.word_bitmaps.iter().find(|wb| wb.word == "AC") {
        // A=bit0, C=bit2, so AC should be 0b00000101
        assert_eq!(word_ac.bitmap, 0b00000101);
    }

    if let Some(word_ce) = solver.word_bitmaps.iter().find(|wb| wb.word == "CE") {
        // C=bit2, E=bit4, so CE should be 0b00010100
        assert_eq!(word_ce.bitmap, 0b00010100);
    }

    if let Some(word_eg) = solver.word_bitmaps.iter().find(|wb| wb.word == "EG") {
        // E=bit4, G=bit6, so EG should be 0b01010000
        assert_eq!(word_eg.bitmap, 0b01010000);
    }

    // Test that basic bitmap operations work
    assert!(solver.word_bitmaps.len() > 0);
}

#[test]
fn test_word_bitmaps_lowercase() {
    let sides = sides_from_strs(&["ab", "cd", "ef", "gh"]);
    let game = Board::from_sides(sides).unwrap();
    let dictionary = Dictionary::from_strings(words(&["ac", "ce", "eg"]));
    let solver = Solver::new(game, &dictionary, 10);

    let ac = solver.word_bitmaps.iter().find(|wb| wb.word == "ac").unwrap();
    assert_eq!(ac.bitmap, 0b00000101);
    let ce = solver.word_bitmaps.iter().find(|wb| wb.word == "ce").unwrap();
    assert_eq!(ce.bitmap, 0b00010100);
    let eg = solver.word_bitmaps.iter().find(|wb| wb.word == "eg").unwrap();
    assert_eq!(eg.bitmap, 0b01010000);
}

#[test]
fn test_max_solutions_caps_results() {
    let sides = sides_from_strs(&["yfa", "otk", "lgw", "rni"]);
    let game = Board::from_sides(sides).unwrap();
    let wordlist = Dictionary::from_strings(words(&[
        "forklift",
        "twangy",
        "filtration",
        "nag",
        "gawkily",
    ]));
    let solver = Solver::new(game, &wordlist, 1);
    let solutions = solver.solve();
    assert_eq!(solutions.len(), 1);
    assert_eq!(solutions[0].text(), "forklift-twangy");
}

#[test]
fn test_solutions_satisfy_chain_rules() {
    let sides = sides_from_strs(&["yfa", "otk", "lgw", "rni"]);
    let game = Board::from_sides(sides.clone()).unwrap();
    let alphabet: Vec<char> = sides.iter().flat_map(|s| s.chars()).collect();
    let wordlist = Dictionary::from_strings(words(&[
        "forklift",
        "twangy",
        "filtration",
        "nag",
        "gawkily",
    ]));
    let solver = Solver::new(game, &wordlist, 10);
    for solution in solver.solve() {
        // adjacency: each word starts with the previous word's last letter
        for pair in solution.words.windows(2) {
            let last = pair[0].chars().last().unwrap();
            let first = pair[1].chars().next().unwrap();
            assert_eq!(last, first);
        }
        // coverage: every board letter appears in some word of the chain
        for &c in &alphabet {
            assert!(solution.words.iter().any(|w| w.contains(c)));
        }
        // score is the chain length
        assert_eq!(solution.score, solution.words.len());
    }
}

#[test]
fn test_empty_dictionary_gives_empty_result() {
    let sides = sides_from_strs(&["ab", "cd", "ef", "gh"]);
    let game = Board::from_sides(sides).unwrap();
    let dictionary = Dictionary::from_strings(Vec::new());
    let solver = Solver::new(game, &dictionary, 10);
    assert!(solver.solve().is_empty());
}

#[test]
fn test_uncoverable_board_gives_empty_result() {
    // No word ever uses 'h', so the board cannot be covered.
    let sides = sides_from_strs(&["ab", "cd", "ef", "gh"]);
    let game = Board::from_sides(sides).unwrap();
    let dictionary = Dictionary::from_strings(words(&["ac", "ce", "eg"]));
    let solver = Solver::new(game, &dictionary, 10);
    assert!(solver.solve().is_empty());
}

#[test]
fn test_cancel_before_start_yields_empty() {
    let sides = sides_from_strs(&["yfa", "otk", "lgw", "rni"]);
    let game = Board::from_sides(sides).unwrap();
    let wordlist = Dictionary::from_strings(words(&[
        "forklift",
        "twangy",
        "filtration",
        "nag",
        "gawkily",
    ]));
    let solver = Solver::new(game, &wordlist, 10);
    let token = CancelToken::new();
    token.cancel();
    let solutions = solver.solve_cancellable(&token);
    assert!(solutions.is_empty());
}

#[test]
fn test_uncancelled_matches_solve() {
    let sides = sides_from_strs(&["yfa", "otk", "lgw", "rni"]);
    let game = Board::from_sides(sides.clone()).unwrap();
    let wordlist = Dictionary::from_strings(words(&[
        "forklift",
        "twangy",
        "filtration",
        "nag",
        "gawkily",
    ]));
    let solver = Solver::new(game, &wordlist, 10);
    let full: Vec<String> = solver.solve().iter().map(|s| s.text()).collect();

    let game2 = Board::from_sides(sides).unwrap();
    let solver2 = Solver::new(game2, &wordlist, 10);
    let token = CancelToken::new();
    let cancellable: Vec<String> = solver2
        .solve_cancellable(&token)
        .iter()
        .map(|s| s.text())
        .collect();
    assert_eq!(full, cancellable);
}

#[test]
fn test_largest_board() {
    // Six letters per side: 24 letters, the largest layout distinct lower-case
    // ASCII letters allow.
    let sides = sides_from_strs(&["abcdef", "ghijkl", "mnopqr", "stuvwx"]);
    let game = Board::from_sides(sides).unwrap();
    assert_eq!(game.digraphs.len(), 24 * 18);
    let dictionary = Dictionary::from_strings(words(&["ag", "gm", "ms"]));
    let solver = Solver::new(game, &dictionary, 10);
    assert_eq!(solver.all_letters_mask, (1u32 << 24) - 1);
    assert!(solver.solve().is_empty());
}

#[test]
fn test_zero_cap_returns_nothing() {
    let sides = sides_from_strs(&["yfa", "otk", "lgw", "rni"]);
    let game = Board::from_sides(sides).unwrap();
    let wordlist = Dictionary::from_strings(words(&[
        "forklift",
        "twangy",
        "filtration",
        "nag",
        "gawkily",
    ]));
    let solver = Solver::new(game, &wordlist, 0);
    assert!(solver.solve().is_empty());
}
