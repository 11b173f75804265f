use sudoku::grid::{read_sudoku, ParseError, Sudoku};

fn sample_json() -> String {
    let sample = read_sudoku();
    let mut out = String::from("[");
    for y in 0..9 {
        out.push('[');
        for x in 0..9 {
            out.push_str(&sample.value(x, y).to_string());
            if x < 8 {
                out.push(',');
            }
        }
        out.push(']');
        if y < 8 {
            out.push(',');
        }
    }
    out.push(']');
    out
}

#[test]
fn from_json_reads_nine_by_nine_numbers() {
    let parsed = Sudoku::from_json_str(&sample_json()).expect("well-formed JSON must parse");
    let sample = read_sudoku();
    for y in 0..9 {
        for x in 0..9 {
            assert_eq!(parsed.value(x, y), sample.value(x, y));
        }
    }
}

#[test]
fn from_json_rejects_invalid_json() {
    assert!(matches!(
        Sudoku::from_json_str("not json at all"),
        Err(ParseError::BadJson)
    ));
}

#[test]
fn from_json_rejects_non_array_top_level() {
    assert!(matches!(
        Sudoku::from_json_str("{\"rows\": 9}"),
        Err(ParseError::NotArray)
    ));
}

#[test]
fn from_json_rejects_non_array_row() {
    assert!(matches!(
        Sudoku::from_json_str("[1,2,3,4,5,6,7,8,9]"),
        Err(ParseError::NotArray)
    ));
}

#[test]
fn from_json_rejects_wrong_row_count() {
    let json_text = "[[0,0,0,0,0,0,0,0,0],[0,0,0,0,0,0,0,0,0]]";
    assert!(matches!(
        Sudoku::from_json_str(json_text),
        Err(ParseError::WrongShape)
    ));
}

#[test]
fn from_json_rejects_short_row() {
    let mut json_text = String::from("[[0,0,0]");
    for _ in 0..8 {
        json_text.push_str(",[0,0,0,0,0,0,0,0,0]");
    }
    json_text.push(']');
    assert!(matches!(
        Sudoku::from_json_str(&json_text),
        Err(ParseError::WrongShape)
    ));
}

#[test]
fn from_json_rejects_value_that_is_no_byte() {
    let json_text = sample_json().replacen('5', "300", 1);
    assert!(matches!(
        Sudoku::from_json_str(&json_text),
        Err(ParseError::NotDigit)
    ));
}

#[test]
fn from_json_rejects_value_above_nine() {
    let json_text = sample_json().replacen('5', "10", 1);
    assert!(matches!(
        Sudoku::from_json_str(&json_text),
        Err(ParseError::NotDigit)
    ));
}

#[test]
fn from_json_rejects_string_cell() {
    let json_text = sample_json().replacen('5', "\"five\"", 1);
    assert!(matches!(
        Sudoku::from_json_str(&json_text),
        Err(ParseError::NotDigit)
    ));
}
