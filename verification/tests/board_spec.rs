use boxchar::board::{validate_board_spec, ValidationError};

#[test]
fn test_board_spec_valid() {
    let sides = validate_board_spec("ABC,DEF,GHI,JKL").unwrap();
    assert_eq!(sides, vec!["abc", "def", "ghi", "jkl"]);
}

#[test]
fn test_board_spec_mixed_case() {
    let sides = validate_board_spec("yFa,otK,lgw,RNI").unwrap();
    assert_eq!(sides, vec!["yfa", "otk", "lgw", "rni"]);
}

#[test]
fn test_board_spec_invalid_character() {
    let result = validate_board_spec("abc,d3f,ghi,jkl");
    assert!(result.is_err());
    assert!(matches!(
        result.unwrap_err(),
        ValidationError::SpecCharacter { position: 5, letter: '3' }
    ));
}

#[test]
fn test_board_spec_keeps_empty_segments() {
    let sides = validate_board_spec("abc,,ghi,jkl").unwrap();
    assert_eq!(sides, vec!["abc", "", "ghi", "jkl"]);
}
