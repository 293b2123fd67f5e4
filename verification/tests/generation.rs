use sudoku::board::Sudoku;
use sudoku::generate::{generate, generate_solved, generation_order, make_puzzle, remove_cells};
use sudoku::search::solve;

/// True when the cell index lies in one of the three diagonal 3x3 boxes.
fn is_diagonal(i: u8) -> bool {
    (i / 9) / 3 == (i % 9) / 3
}

#[test]
fn generated_solved_grid_is_valid() {
    let g = generate_solved();
    for r in 0..9u8 {
        let mut seen = vec![0u8; 10];
        for c in 0..9u8 {
            let v = g.get(r, c);
            assert!((1..=9).contains(&v));
            seen[v as usize] += 1;
        }
        for d in 1..=9usize {
            assert_eq!(seen[d], 1);
        }
    }
    for c in 0..9u8 {
        let mut seen = vec![0u8; 10];
        for r in 0..9u8 {
            seen[g.get(r, c) as usize] += 1;
        }
        for d in 1..=9usize {
            assert_eq!(seen[d], 1);
        }
    }
    for br in 0..3u8 {
        for bc in 0..3u8 {
            let mut seen = vec![0u8; 10];
            for k in 0..9u8 {
                seen[g.get(3 * br + k / 3, 3 * bc + k % 3) as usize] += 1;
            }
            for d in 1..=9usize {
                assert_eq!(seen[d], 1);
            }
        }
    }
}

#[test]
fn generated_puzzle_has_bounded_blanks_and_no_conflicts() {
    let p = generate();
    let cells = p.values();
    let blanks = cells.iter().filter(|&&v| v == 0).count();
    assert!((27..=45).contains(&blanks), "blank count {} out of range", blanks);
    // The remaining filled cells still satisfy every uniqueness constraint,
    // so the puzzle is a cut-down solved grid.
    for a in 0..81usize {
        for b in 0..81usize {
            if a != b && cells[a] != 0 && cells[a] == cells[b] {
                let (ra, ca) = (a / 9, a % 9);
                let (rb, cb) = (b / 9, b % 9);
                assert!(ra != rb, "duplicate in row {}", ra);
                assert!(ca != cb, "duplicate in column {}", ca);
                assert!(
                    ra / 3 != rb / 3 || ca / 3 != cb / 3,
                    "duplicate in box {},{}",
                    ra / 3,
                    ca / 3
                );
            }
        }
    }
}

#[test]
fn generation_order_covers_exactly_the_unseeded_cells() {
    let order = generation_order();
    let mut seen = vec![false; 81];
    for &i in order.iter() {
        assert!(i < 81);
        assert!(!seen[i as usize], "index {} listed twice", i);
        assert!(!is_diagonal(i), "seeded index {} in traversal order", i);
        seen[i as usize] = true;
    }
    for i in 0..81u8 {
        if !is_diagonal(i) {
            assert!(seen[i as usize], "index {} missing from traversal order", i);
        }
    }
    assert_eq!(order.len(), 54);
}

#[test]
fn make_puzzle_keeps_solution_digits() {
    let solved = generate_solved();
    let mut puzzle = solved.duplicate();
    make_puzzle(&mut puzzle);
    let mut blanks = 0usize;
    for r in 0..9u8 {
        for c in 0..9u8 {
            let v = puzzle.get(r, c);
            if v == 0 {
                blanks += 1;
            } else {
                assert_eq!(v, solved.get(r, c));
            }
        }
    }
    assert!((27..=45).contains(&blanks), "blank count {} out of range", blanks);
}

#[test]
fn remove_cells_blanks_exactly_the_listed_cells() {
    let mut solved = solve(Sudoku::new(), None).expect("the empty grid must be solvable");
    let kept = solved.duplicate();
    let order: Vec<u8> = (0..81u8).collect();
    remove_cells(&mut solved, &order, 27);
    for i in 0..81u8 {
        let v = solved.get(i / 9, i % 9);
        if i < 27 {
            assert_eq!(v, 0);
        } else {
            assert_eq!(v, kept.get(i / 9, i % 9));
            assert!(v != 0);
        }
    }
}
