use boxchar::dictionary::Dictionary;
use boxchar::session::{decide_solve, DictionaryHandle, SolveDecision, SolveParams};

fn params(sides: &[&str], max: u16) -> SolveParams {
    SolveParams {
        sides: sides.iter().map(|s| s.to_string()).collect(),
        max_solutions: max,
    }
}

#[test]
fn test_decide_solve_start_when_idle() {
    let requested = params(&["abc", "def", "ghi", "jkl"], 500);
    assert_eq!(decide_solve(None, &requested), SolveDecision::Start);
}

#[test]
fn test_decide_solve_rejects_duplicate() {
    let current = params(&["abc", "def", "ghi", "jkl"], 500);
    let requested = params(&["abc", "def", "ghi", "jkl"], 500);
    assert_eq!(
        decide_solve(Some(&current), &requested),
        SolveDecision::RejectDuplicate
    );
}

#[test]
fn test_decide_solve_cancels_different() {
    let current = params(&["abc", "def", "ghi", "jkl"], 500);
    let other_board = params(&["abc", "def", "ghi", "jkm"], 500);
    let other_cap = params(&["abc", "def", "ghi", "jkl"], 10);
    assert_eq!(
        decide_solve(Some(&current), &other_board),
        SolveDecision::CancelPreviousAndStart
    );
    assert_eq!(
        decide_solve(Some(&current), &other_cap),
        SolveDecision::CancelPreviousAndStart
    );
}

#[test]
fn test_dictionary_handle_write_once() {
    let mut handle = DictionaryHandle::new();
    assert!(handle.get().is_none());
    assert!(handle.initialize(Dictionary::from_strings(vec!["dojo".to_string()])));
    assert_eq!(handle.get().unwrap().words.len(), 1);
    // a second initialization is rejected, the first dictionary stays
    assert!(!handle.initialize(Dictionary::from_strings(vec![
        "joke".to_string(),
        "dojo".to_string()
    ])));
    assert_eq!(handle.get().unwrap().words.len(), 1);
}
