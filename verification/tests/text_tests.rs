use sudoku::grid::{read_sudoku, ParseError, Sudoku};

const SAMPLE_LINES: &str = "000000005\n135200080\n600100000\n000050000\n046000002\n090300006\n000000000\n000904000\n964000821\n";

#[test]
fn to_text_renders_exact_lines() {
    let mut cells = [[0u8; 9]; 9];
    for x in 0..9 {
        cells[0][x] = (x + 1) as u8;
    }
    cells[8][8] = 9;
    let s = Sudoku::new(cells);
    let mut expected = String::from("|1|2|3|4|5|6|7|8|9|\n");
    for _ in 0..7 {
        expected.push_str("|0|0|0|0|0|0|0|0|0|\n");
    }
    expected.push_str("|0|0|0|0|0|0|0|0|9|\n");
    assert_eq!(s.to_text(), expected);
}

#[test]
fn from_str_reads_sample_lines() {
    let parsed = Sudoku::from_str(SAMPLE_LINES).expect("well-formed lines must parse");
    let sample = read_sudoku();
    for y in 0..9 {
        for x in 0..9 {
            assert_eq!(parsed.value(x, y), sample.value(x, y));
        }
    }
}

#[test]
fn from_str_accepts_missing_final_line_break() {
    let trimmed = SAMPLE_LINES.strip_suffix('\n').unwrap();
    let parsed = Sudoku::from_str(trimmed).expect("the last line break is optional");
    assert_eq!(parsed.value(8, 0), 5);
    assert_eq!(parsed.value(0, 8), 9);
}

#[test]
fn from_str_rejects_wrong_length() {
    assert!(matches!(
        Sudoku::from_str("123\n456\n"),
        Err(ParseError::WrongShape)
    ));
}

#[test]
fn from_str_rejects_misplaced_line_breaks() {
    // 90 characters, but lines of 8 and 10 digits
    let mut text = String::from("00000000\n0000000000\n");
    for _ in 0..7 {
        text.push_str("000000000\n");
    }
    assert_eq!(text.len(), 90);
    assert!(matches!(
        Sudoku::from_str(&text),
        Err(ParseError::WrongShape)
    ));
}

#[test]
fn from_str_rejects_non_digit() {
    let bad = SAMPLE_LINES.replacen('3', "x", 1);
    assert!(matches!(Sudoku::from_str(&bad), Err(ParseError::NotDigit)));
}

#[test]
fn text_round_trip_reproduces_cells() {
    let sample = read_sudoku();
    let rendered = sample.to_text();
    let stripped: String = rendered.chars().filter(|c| *c != '|').collect();
    let back = Sudoku::from_str(&stripped).expect("stripped rendering must parse");
    for y in 0..9 {
        for x in 0..9 {
            assert_eq!(back.value(x, y), sample.value(x, y));
        }
    }
}
