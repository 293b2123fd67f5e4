use sudoku::board::Sudoku;
use sudoku::checker::check_validity;
use sudoku::search::solve;

/// The canonical example grid: 1,2,3 leading row 0, 4,5,6 in the middle of
/// row 1, 7,8,9 closing row 2, all other cells blank.
fn canonical_values() -> Vec<u8> {
    let mut v = vec![0u8; 81];
    v[0] = 1;
    v[1] = 2;
    v[2] = 3;
    v[12] = 4;
    v[13] = 5;
    v[14] = 6;
    v[24] = 7;
    v[25] = 8;
    v[26] = 9;
    v
}

/// Checks that every row, column and 3x3 box of a full grid holds each digit
/// 1..9 exactly once.
fn assert_solved_valid(g: &Sudoku) {
    for r in 0..9u8 {
        let mut seen = vec![0u8; 10];
        for c in 0..9u8 {
            let v = g.get(r, c);
            assert!((1..=9).contains(&v));
            seen[v as usize] += 1;
        }
        for d in 1..=9usize {
            assert_eq!(seen[d], 1, "row {} digit {}", r, d);
        }
    }
    for c in 0..9u8 {
        let mut seen = vec![0u8; 10];
        for r in 0..9u8 {
            seen[g.get(r, c) as usize] += 1;
        }
        for d in 1..=9usize {
            assert_eq!(seen[d], 1, "col {} digit {}", c, d);
        }
    }
    for br in 0..3u8 {
        for bc in 0..3u8 {
            let mut seen = vec![0u8; 10];
            for k in 0..9u8 {
                seen[g.get(3 * br + k / 3, 3 * bc + k % 3) as usize] += 1;
            }
            for d in 1..=9usize {
                assert_eq!(seen[d], 1, "box {},{} digit {}", br, bc, d);
            }
        }
    }
}

#[test]
fn solves_canonical_grid() {
    let grid = Sudoku::from_values(canonical_values()).unwrap();
    let solved = solve(grid, None).expect("canonical grid must be solvable");
    // The ascending digit order is a deterministic tie-break: 4, 5 and 6 sit
    // in the box below columns 3..6, so row 0 completes as 1 2 3 7 8 9 4 5 6.
    let row0 = [1u8, 2, 3, 7, 8, 9, 4, 5, 6];
    for c in 0..9u8 {
        assert_eq!(solved.get(0, c), row0[c as usize]);
    }
    // Pre-filled cells are never overwritten.
    assert_eq!(solved.get(1, 3), 4);
    assert_eq!(solved.get(1, 4), 5);
    assert_eq!(solved.get(1, 5), 6);
    assert_eq!(solved.get(2, 6), 7);
    assert_eq!(solved.get(2, 7), 8);
    assert_eq!(solved.get(2, 8), 9);
    assert_solved_valid(&solved);
}

#[test]
fn solver_is_idempotent_on_solved_grid() {
    let grid = Sudoku::from_values(canonical_values()).unwrap();
    let solved = solve(grid, None).expect("canonical grid must be solvable");
    let again = solve(solved.duplicate(), None).expect("a solved grid must stay solvable");
    assert_eq!(again.values(), solved.values());
}

#[test]
fn solver_is_deterministic() {
    let a = solve(Sudoku::from_values(canonical_values()).unwrap(), None)
        .expect("canonical grid must be solvable");
    let b = solve(Sudoku::from_values(canonical_values()).unwrap(), None)
        .expect("canonical grid must be solvable");
    assert_eq!(a.values(), b.values());
}

#[test]
fn row_duplicate_is_unsolvable() {
    // Start from a solved grid, open one cell, and duplicate a digit inside
    // its row so that every candidate for the open cell is blocked.
    let solved = solve(Sudoku::new(), None).expect("the empty grid must be solvable");
    let mut v = solved.values();
    let u = v[0];
    let w = v[2];
    v[0] = 0; // open (0,0); its column still holds every digit but u
    v[1] = w; // the duplicated pair in row 0
    v[4] = u; // row 0 now blocks u as well: no digit fits (0,0)
    let grid = Sudoku::from_values(v).unwrap();
    assert!(solve(grid, None).is_none());
}

#[test]
fn column_duplicate_is_unsolvable() {
    let solved = solve(Sudoku::new(), None).expect("the empty grid must be solvable");
    let mut v = solved.values();
    let u = v[0];
    let w = v[18]; // (2,0)
    v[0] = 0; // open (0,0); its row still holds every digit but u
    v[9] = w; // the duplicated pair in column 0
    v[36] = u; // column 0 now blocks u as well: no digit fits (0,0)
    let grid = Sudoku::from_values(v).unwrap();
    assert!(solve(grid, None).is_none());
}

#[test]
fn empty_grid_is_solvable() {
    let grid = Sudoku::new();
    let solved = solve(grid, None).expect("the empty grid must be solvable");
    assert_solved_valid(&solved);
}

#[test]
fn check_validity_rejects_row_column_and_box() {
    let mut v = vec![0u8; 81];
    v[0] = 7; // (0,0)
    let grid = Sudoku::from_values(v).unwrap();
    // Same row
    assert!(!check_validity(&grid, 0, 8, 7));
    // Same column
    assert!(!check_validity(&grid, 8, 0, 7));
    // Same box
    assert!(!check_validity(&grid, 1, 1, 7));
    // Unrelated cell, same digit
    assert!(check_validity(&grid, 4, 4, 7));
    // Same cell area, different digit
    assert!(check_validity(&grid, 0, 8, 6));
}

#[test]
fn set_element_and_get() {
    let mut grid = Sudoku::new();
    grid.set_element(4, 7, 9);
    assert_eq!(grid.get(4, 7), 9);
    assert_eq!(grid.get(7, 4), 0);
    grid.set_element(4, 7, 0);
    assert_eq!(grid.get(4, 7), 0);
}

#[test]
fn from_values_rejects_bad_input() {
    assert!(Sudoku::from_values(vec![0u8; 80]).is_none());
    assert!(Sudoku::from_values(vec![0u8; 82]).is_none());
    let mut v = vec![0u8; 81];
    v[40] = 10;
    assert!(Sudoku::from_values(v).is_none());
    assert!(Sudoku::from_values(vec![0u8; 81]).is_some());
}

#[test]
fn solve_follows_a_custom_traversal_order() {
    // Visit only the last row; everything else stays empty.
    let order: Vec<u8> = (72..81u8).collect();
    let grid = Sudoku::new();
    let solved = solve(grid, Some(order)).expect("one open row must be fillable");
    for c in 0..9u8 {
        assert_eq!(solved.get(8, c), c + 1);
    }
    for r in 0..8u8 {
        for c in 0..9u8 {
            assert_eq!(solved.get(r, c), 0);
        }
    }
}
