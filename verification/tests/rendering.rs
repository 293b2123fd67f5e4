use sudoku::board::Sudoku;
use sudoku::render::render_grid;
use sudoku::search::solve;

const LINE: &str = " ------- ------- ------- \n";

#[test]
fn renders_empty_grid() {
    let grid = Sudoku::new();
    let blank_row = "|       |       |       |\n";
    let mut expected = String::new();
    for band in 0..3 {
        let _ = band;
        expected.push_str(LINE);
        for _ in 0..3 {
            expected.push_str(blank_row);
        }
    }
    expected.push_str(LINE);
    assert_eq!(render_grid(&grid), expected);
}

#[test]
fn renders_digits_and_blanks() {
    let mut v = vec![0u8; 81];
    for c in 0..9usize {
        v[c] = (c + 1) as u8;
    }
    v[80] = 5;
    let grid = Sudoku::from_values(v).unwrap();
    let out = render_grid(&grid);
    let first_row = format!("{}| 1 2 3 | 4 5 6 | 7 8 9 |\n", LINE);
    assert!(out.starts_with(&first_row), "got: {}", out);
    let last_row = format!("|       |       |     5 |\n{}", LINE);
    assert!(out.ends_with(&last_row), "got: {}", out);
}

#[test]
fn rendered_solved_grid_has_expected_shape() {
    let solved = solve(Sudoku::new(), None).expect("the empty grid must be solvable");
    let out = render_grid(&solved);
    let lines: Vec<&str> = out.lines().collect();
    assert_eq!(lines.len(), 13);
    for (n, line) in lines.iter().enumerate() {
        if n % 4 == 0 {
            assert_eq!(*line, LINE.trim_end_matches('\n'));
        } else {
            assert_eq!(line.len(), 25);
            assert!(line.starts_with("| "));
            assert!(line.ends_with("|"));
        }
    }
}
