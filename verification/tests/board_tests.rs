use sudoku::grid::{ParseError, Sudoku};

fn empty_cells() -> [[u8; 9]; 9] {
    [[0u8; 9]; 9]
}

#[test]
fn new_and_value_read_cells() {
    let mut cells = empty_cells();
    cells[2][7] = 4;
    cells[8][0] = 9;
    let s = Sudoku::new(cells);
    assert_eq!(s.value(7, 2), 4);
    assert_eq!(s.value(0, 8), 9);
    assert_eq!(s.value(0, 0), 0);
}

#[test]
fn is_set_sees_placed_digits_only() {
    let mut cells = empty_cells();
    cells[5][3] = 6;
    let s = Sudoku::new(cells);
    assert!(s.is_set(3, 5));
    assert!(!s.is_set(5, 3));
    assert!(!s.is_set(0, 0));
}

#[test]
fn try_value_builds_new_grid_without_touching_old() {
    let s = Sudoku::new(empty_cells());
    let t = s.try_value(4, 6, 8);
    assert_eq!(t.value(4, 6), 8);
    assert_eq!(s.value(4, 6), 0, "the receiver must stay unchanged");
    for y in 0..9 {
        for x in 0..9 {
            if (x, y) != (4, 6) {
                assert_eq!(t.value(x, y), 0);
            }
        }
    }
}

#[test]
fn is_valid_detects_row_conflict() {
    let mut cells = empty_cells();
    cells[0][0] = 5;
    cells[0][8] = 5;
    let s = Sudoku::new(cells);
    assert!(!s.is_valid(0, 0));
    assert!(!s.is_valid(8, 0));
}

#[test]
fn is_valid_detects_column_conflict() {
    let mut cells = empty_cells();
    cells[1][2] = 3;
    cells[7][2] = 3;
    let s = Sudoku::new(cells);
    assert!(!s.is_valid(2, 1));
    assert!(!s.is_valid(2, 7));
}

#[test]
fn is_valid_detects_box_conflict() {
    // same 3x3 box, different row and different column
    let mut cells = empty_cells();
    cells[0][0] = 7;
    cells[1][1] = 7;
    let s = Sudoku::new(cells);
    assert!(!s.is_valid(0, 0));
    assert!(!s.is_valid(1, 1));
}

#[test]
fn is_valid_accepts_clean_placement() {
    let mut cells = empty_cells();
    cells[0][0] = 1;
    cells[0][1] = 2;
    cells[1][0] = 3;
    cells[4][4] = 1;
    let s = Sudoku::new(cells);
    assert!(s.is_valid(0, 0));
    assert!(s.is_valid(1, 0));
    assert!(s.is_valid(0, 1));
    assert!(s.is_valid(4, 4));
}

#[test]
fn from_cells_accepts_nine_by_nine_digits() {
    let mut rows: Vec<Vec<u8>> = Vec::new();
    for y in 0..9u8 {
        let mut row: Vec<u8> = Vec::new();
        for x in 0..9u8 {
            row.push(if x == y { x + 1 } else { 0 });
        }
        rows.push(row);
    }
    let s = Sudoku::from_cells(&rows).expect("well-shaped digits must be accepted");
    for y in 0..9 {
        for x in 0..9 {
            assert_eq!(s.value(x, y), rows[y][x]);
        }
    }
}

#[test]
fn from_cells_rejects_wrong_outer_length() {
    let rows: Vec<Vec<u8>> = vec![vec![0; 9]; 8];
    assert!(matches!(Sudoku::from_cells(&rows), Err(ParseError::WrongShape)));
}

#[test]
fn from_cells_rejects_wrong_inner_length() {
    let mut rows: Vec<Vec<u8>> = vec![vec![0; 9]; 9];
    rows[4] = vec![0; 10];
    assert!(matches!(Sudoku::from_cells(&rows), Err(ParseError::WrongShape)));
}

#[test]
fn from_cells_rejects_value_above_nine() {
    let mut rows: Vec<Vec<u8>> = vec![vec![0; 9]; 9];
    rows[3][6] = 10;
    assert!(matches!(Sudoku::from_cells(&rows), Err(ParseError::NotDigit)));
}
