use boxchar::board::Board;
use boxchar::board::ValidationError;
use boxchar::digraph::Digraph;

fn sides_from_strs(strs: &[&str]) -> Vec<String> {
    strs.iter().map(|s| s.to_string()).collect()
}

#[test]
fn test_valid_game() {
    let sides = sides_from_strs(&["abc", "def", "ghi", "jkl"]);
    let game = Board::from_sides(sides).unwrap();

    assert_eq!(game.sides.len(), 4);
    assert_eq!(game.sides[0], "abc");
    assert_eq!(game.digraphs.len(), 12 * 9); // 12 letters x 9 possible connections each
}

#[test]
fn test_invalid_number_of_sides() {
    let sides = sides_from_strs(&["abc", "def", "ghi"]); // Only 3 sides
    let result = Board::from_sides(sides);

    assert!(result.is_err());
    assert!(result.unwrap_err().message().contains("exactly 4 sides"));
}

#[test]
fn test_uneven_sides() {
    let sides = sides_from_strs(&["abc", "def", "ghij", "klm"]);
    let result = Board::from_sides(sides);

    assert!(result.is_err());
    assert!(result.unwrap_err().message().contains("same length"));
}

#[test]
fn test_duplicate_letters() {
    let sides = sides_from_strs(&["abc", "def", "gha", "jkl"]); // 'a' appears twice
    let result = Board::from_sides(sides);

    assert!(result.is_err());
    assert!(result.unwrap_err().message().contains("Duplicate letter"));
}

#[test]
fn test_duplicate_letters_same_side() {
    let sides = sides_from_strs(&["abc", "def", "ghi", "jkj"]); // 'j' appears twice on one side
    let result = Board::from_sides(sides);

    assert!(result.is_err());
    assert!(result.unwrap_err().message().contains("Duplicate letter"));
}

#[test]
fn test_case() {
    let sides = sides_from_strs(&["ABC", "DEF", "ghi", "jkl"]);
    let result = Board::from_sides(sides);

    assert!(result.is_err());
    assert!(result.unwrap_err().message().contains("lowercase"));
}

#[test]
fn test_valid_digraphs_generation() {
    let sides = sides_from_strs(&["ab", "cd", "ef", "gh"]);
    let game = Board::from_sides(sides).unwrap();

    // Digraphs crossing sides exist.
    assert!(game.digraphs.contains(&Digraph::new('a', 'c')));
    assert!(game.digraphs.contains(&Digraph::new('b', 'd')));
    // Same-side digraphs never do.
    assert!(!game.digraphs.contains(&Digraph::new('a', 'b')));
    assert!(!game.digraphs.contains(&Digraph::new('b', 'a')));
}

#[test]
fn test_from_sides_valid_game() {
    let sides = sides_from_strs(&["abc", "def", "ghi", "jkl"]);

    let game = Board::from_sides(sides).unwrap();

    assert_eq!(game.sides.len(), 4);
    assert_eq!(game.sides[0], "abc");
    assert_eq!(game.sides[1], "def");
    assert_eq!(game.sides[2], "ghi");
    assert_eq!(game.sides[3], "jkl");
    assert_eq!(game.digraphs.len(), 12 * 9); // 12 letters x 9 possible connections each
}

#[test]
fn test_from_sides_invalid_duplicate_letters() {
    let sides = sides_from_strs(&["abc", "def", "gha", "jkl"]);

    let result = Board::from_sides(sides);

    assert!(result.is_err());
    assert!(result.unwrap_err().message().contains("Duplicate letter"));
}

#[test]
fn test_empty_side_rejected() {
    let sides = sides_from_strs(&["abc", "", "ghi", "jkl"]);
    let result = Board::from_sides(sides);

    assert!(result.is_err());
    assert!(matches!(result.unwrap_err(), ValidationError::EmptySide { side: 1 }));
}

#[test]
fn test_error_kinds_distinct() {
    let wrong_count = Board::from_sides(sides_from_strs(&["ab", "cd", "ef"])).unwrap_err();
    assert!(matches!(wrong_count, ValidationError::WrongSideCount { found: 3 }));

    let empty = Board::from_sides(sides_from_strs(&["ab", "", "ef", "gh"])).unwrap_err();
    assert!(matches!(empty, ValidationError::EmptySide { side: 1 }));

    let uneven = Board::from_sides(sides_from_strs(&["ab", "cde", "fg", "hi"])).unwrap_err();
    assert!(matches!(
        uneven,
        ValidationError::UnevenSides { side: 1, found: 3, expected: 2 }
    ));

    let bad_char = Board::from_sides(sides_from_strs(&["a1", "cd", "ef", "gh"])).unwrap_err();
    assert!(matches!(
        bad_char,
        ValidationError::InvalidCharacter { side: 0, position: 1, letter: '1' }
    ));

    let duplicate = Board::from_sides(sides_from_strs(&["ab", "cd", "ea", "gh"])).unwrap_err();
    assert!(matches!(
        duplicate,
        ValidationError::DuplicateLetter { letter: 'a', first_side: 0, second_side: 2 }
    ));
}

#[test]
fn test_digraph_count_two_letter_sides() {
    // 8 letters, 2 per side: 8 * (8 - 2) = 48 legal digraphs.
    let game = Board::from_sides(sides_from_strs(&["ab", "cd", "ef", "gh"])).unwrap();
    assert_eq!(game.digraphs.len(), 48);
}
