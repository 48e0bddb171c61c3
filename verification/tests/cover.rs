use boxchar::cover::{solve_cover, Solution, Universe};

#[test]
fn test_universe_new() {
    let u = Universe::new(vec![1, 2, 3]);
    assert_eq!(u.elements, vec![1, 2, 3]);
    let s: Solution<usize> = Solution::new(vec![vec![0, 2]]);
    assert_eq!(s.solutions.len(), 1);
}

fn mask(bits: &[usize]) -> u32 {
    bits.iter().fold(0u32, |acc, b| acc | (1u32 << b))
}

#[test]
fn test_exact_cover_classic() {
    // Universe {0..6}; the classic instance with the unique cover B, D, F.
    let masks = vec![
        mask(&[0, 3, 6]),    // A
        mask(&[0, 3]),       // B
        mask(&[3, 4, 6]),    // C
        mask(&[2, 4, 5]),    // D
        mask(&[1, 2, 5, 6]), // E
        mask(&[1, 6]),       // F
    ];
    let solutions = solve_cover(&masks, 7);
    assert_eq!(solutions.len(), 1);
    let mut rows = solutions[0].clone();
    rows.sort();
    assert_eq!(rows, vec![1, 3, 5]); // B, D, F
}

#[test]
fn test_exact_cover_no_solution() {
    let masks = vec![mask(&[0]), mask(&[0])];
    let solutions = solve_cover(&masks, 2);
    assert!(solutions.is_empty());
}

#[test]
fn test_exact_cover_empty_universe() {
    let masks: Vec<u32> = Vec::new();
    let solutions = solve_cover(&masks, 0);
    assert_eq!(solutions.len(), 1);
    assert!(solutions[0].is_empty());
}

#[test]
fn test_exact_cover_one_subset_with_everything() {
    let masks = vec![mask(&[0, 1, 2, 3, 4, 5, 6]), mask(&[0, 3]), mask(&[3, 4, 6])];
    let solutions = solve_cover(&masks, 7);
    assert_eq!(solutions.len(), 1);
    assert_eq!(solutions[0], vec![0]);
}

#[test]
fn test_exact_cover_many_solutions() {
    // {0,1,2} + {3,4,5} and {0,2,4} + {1,3,5}, plus {6} needed by both.
    let masks = vec![
        mask(&[0, 1, 2]),
        mask(&[3, 4, 5]),
        mask(&[0, 2, 4]),
        mask(&[1, 3, 5]),
        mask(&[6]),
    ];
    let solutions = solve_cover(&masks, 7);
    assert_eq!(solutions.len(), 2);
    for sol in &solutions {
        let mut sol = sol.clone();
        sol.sort();
        assert!(sol == vec![0, 1, 4] || sol == vec![2, 3, 4]);
    }
}

#[test]
fn test_universe_solve_classic() {
    let universe = Universe::new(vec![1u8, 2, 3, 4, 5, 6, 7]);
    let subsets: Vec<Vec<u8>> = vec![
        vec![1, 4, 7],    // A
        vec![1, 4],       // B
        vec![4, 5, 7],    // C
        vec![3, 5, 6],    // D
        vec![2, 3, 6, 7], // E
        vec![2, 7],       // F
    ];
    let solution = universe.solve(&subsets);
    assert!(solution.is_some());
    let sol = solution.unwrap();
    assert_eq!(sol.solutions.len(), 1);
    let mut rows = sol.solutions[0].clone();
    rows.sort();
    assert_eq!(rows, vec![1, 3, 5]); // B, D, F
}

#[test]
fn test_universe_solve_trivial_instances() {
    let no_subsets = Universe::new(vec![1u8, 2, 3]);
    let sol = no_subsets.solve(&Vec::new()).unwrap();
    assert_eq!(sol.solutions.len(), 1);
    assert!(sol.solutions[0].is_empty());

    let no_elements: Universe<u8> = Universe::new(Vec::new());
    let sol = no_elements.solve(&vec![vec![1u8]]).unwrap();
    assert_eq!(sol.solutions.len(), 1);
    assert!(sol.solutions[0].is_empty());
}

#[test]
fn test_universe_solve_none_when_uncoverable() {
    let universe = Universe::new(vec![1u8, 2]);
    let subsets: Vec<Vec<u8>> = vec![vec![1], vec![1]];
    assert!(universe.solve(&subsets).is_none());
}
