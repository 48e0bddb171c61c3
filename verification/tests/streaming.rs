use boxchar::board::Board;
use boxchar::dictionary::Dictionary;
use boxchar::solver::{CancelToken, Solution, SolutionSink, Solver};

struct Collector {
    batches: Vec<Vec<String>>,
}

impl SolutionSink for Collector {
    fn deliver(&mut self, batch: &Vec<Solution>) {
        self.batches.push(batch.iter().map(|s| s.text()).collect());
    }
}

fn build_solver(max_solutions: u16) -> Solver {
    let sides: Vec<String> = ["yfa", "otk", "lgw", "rni"]
        .iter()
        .map(|s| s.to_string())
        .collect();
    let game = Board::from_sides(sides).unwrap();
    let wordlist = Dictionary::from_strings(
        ["forklift", "twangy", "filtration", "nag", "gawkily"]
            .iter()
            .map(|s| s.to_string())
            .collect(),
    );
    Solver::new(game, &wordlist, max_solutions)
}

#[test]
fn test_streaming_delivers_all() {
    let solver = build_solver(10);
    let mut sink = Collector { batches: Vec::new() };
    let token = CancelToken::new();
    let count = solver.solve_streaming(&mut sink, &token);
    assert_eq!(count, 2);
    let all: Vec<String> = sink.batches.concat();
    assert_eq!(all.len(), 2);
    assert!(all.contains(&"forklift-twangy".to_string()));
    assert!(all.contains(&"filtration-nag-gawkily".to_string()));
}

#[test]
fn test_streaming_cancelled_after_first_batch() {
    let solver = build_solver(10);
    let mut sink = Collector { batches: Vec::new() };
    let token = CancelToken::new();
    token.cancel();
    // The token is checked only after a batch, so the first pass still runs.
    let count = solver.solve_streaming(&mut sink, &token);
    assert_eq!(count, 0);
    assert_eq!(sink.batches.len(), 1);
    assert!(sink.batches[0].is_empty());
}
