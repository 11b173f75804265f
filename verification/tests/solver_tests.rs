use sudoku::grid::{read_sudoku, Sudoku};
use sudoku::solver::{partial_solution, solve};

/// The full grid obtained by shifting 1..9 three columns per band:
/// every row, column, and box holds each digit exactly once.
fn shifted_grid() -> [[u8; 9]; 9] {
    let mut cells = [[0u8; 9]; 9];
    for y in 0..9 {
        for x in 0..9 {
            cells[y][x] = (((y * 3 + y / 3 + x) % 9) + 1) as u8;
        }
    }
    cells
}

fn assert_all_units_complete(s: &Sudoku) {
    // rows
    for y in 0..9 {
        let mut seen = [false; 10];
        for x in 0..9 {
            let v = s.value(x, y) as usize;
            assert!((1..=9).contains(&v), "cell ({x},{y}) out of range");
            assert!(!seen[v], "digit {v} twice in row {y}");
            seen[v] = true;
        }
    }
    // columns
    for x in 0..9 {
        let mut seen = [false; 10];
        for y in 0..9 {
            let v = s.value(x, y) as usize;
            assert!(!seen[v], "digit {v} twice in column {x}");
            seen[v] = true;
        }
    }
    // boxes
    for b in 0..9 {
        let mut seen = [false; 10];
        for k in 0..9 {
            let x = (b % 3) * 3 + k % 3;
            let y = (b / 3) * 3 + k / 3;
            let v = s.value(x, y) as usize;
            assert!(!seen[v], "digit {v} twice in box {b}");
            seen[v] = true;
        }
    }
}

#[test]
fn solves_sample_puzzle() {
    let puzzle = read_sudoku();
    let solution = solve(puzzle).expect("the sample puzzle must have a solution");
    assert_all_units_complete(&solution);
    for y in 0..9 {
        for x in 0..9 {
            let given = puzzle.value(x, y);
            if given != 0 {
                assert_eq!(solution.value(x, y), given, "clue at ({x},{y}) overwritten");
            }
        }
    }
}

#[test]
fn solver_is_deterministic() {
    let puzzle = read_sudoku();
    let first = solve(puzzle).expect("solvable");
    let second = solve(puzzle).expect("solvable");
    for y in 0..9 {
        for x in 0..9 {
            assert_eq!(first.value(x, y), second.value(x, y));
        }
    }
}

#[test]
fn filled_grid_returned_unchanged() {
    let cells = shifted_grid();
    let full = Sudoku::new(cells);
    let solution = solve(full).expect("a valid full grid is its own solution");
    for y in 0..9 {
        for x in 0..9 {
            assert_eq!(solution.value(x, y), cells[y][x]);
        }
    }
}

#[test]
fn forced_cells_are_restored() {
    let full = shifted_grid();
    let mut cells = full;
    // blank one cell in three different rows: each digit is the only
    // one missing from its row, so the completion is forced
    cells[0][0] = 0;
    cells[1][4] = 0;
    cells[8][8] = 0;
    let puzzle = Sudoku::new(cells);
    let solution = solve(puzzle).expect("solvable");
    for y in 0..9 {
        for x in 0..9 {
            assert_eq!(solution.value(x, y), full[y][x]);
        }
    }
}

#[test]
fn unsatisfiable_grid_returns_none() {
    // row 0 holds 1..8 and one empty cell; that cell can only take 9,
    // but 9 already stands in its column, so no digit fits
    let mut cells = [[0u8; 9]; 9];
    for x in 0..8 {
        cells[0][x] = (x + 1) as u8;
    }
    cells[1][8] = 9;
    let puzzle = Sudoku::new(cells);
    assert!(solve(puzzle).is_none());
}

#[test]
fn duplicate_givens_in_row_return_none() {
    // two identical digits placed in the same row among the givens:
    // no assignment can make every row duplicate-free
    let mut cells = [[0u8; 9]; 9];
    cells[4][1] = 5;
    cells[4][7] = 5;
    let puzzle = Sudoku::new(cells);
    assert!(solve(puzzle).is_none());
}

#[test]
fn fully_given_invalid_grid_returns_none() {
    // a full board of one repeated digit breaks every row
    let puzzle = Sudoku::new([[5u8; 9]; 9]);
    assert!(solve(puzzle).is_none());
}

#[test]
fn given_above_nine_returns_none() {
    let mut cells = [[0u8; 9]; 9];
    cells[2][2] = 12;
    let puzzle = Sudoku::new(cells);
    assert!(solve(puzzle).is_none());
}

#[test]
fn search_restores_forced_cells_too() {
    let full = shifted_grid();
    let mut cells = full;
    cells[3][5] = 0;
    let puzzle = Sudoku::new(cells);
    let solution = partial_solution(puzzle, 0).expect("solvable");
    for y in 0..9 {
        for x in 0..9 {
            assert_eq!(solution.value(x, y), full[y][x]);
        }
    }
}

#[test]
fn solving_from_past_the_end_returns_grid() {
    let mut cells = [[0u8; 9]; 9];
    cells[3][3] = 7;
    let grid = Sudoku::new(cells);
    let r = partial_solution(grid, 81).expect("position 81 accepts any grid");
    for y in 0..9 {
        for x in 0..9 {
            assert_eq!(r.value(x, y), cells[y][x]);
        }
    }
}
