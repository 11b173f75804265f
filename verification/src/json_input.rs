//! Reading a board from a JSON source text: nine arrays of nine cell
//! values each. The `json` crate parses the text and the extraction to
//! plain rows of bytes stands behind one trusted wrapper whose outcome
//! is named, so the constructor's contract can say exactly when it
//! succeeds and which error it reports; the shape check, the
//! digit-range check, and assembling the board are verified.
use vstd::prelude::*;

use crate::grid::{in_range, wf, ParseError, Sudoku};

verus! {

/// Whether the extraction behind [`Sudoku::from_json_str`] succeeds on
/// this source text: the text is valid JSON, its top-level value is an
/// array of arrays, and every inner value is a number that fits in a
/// byte. A function of the text alone.
pub uninterp spec fn json_rows_ok(s: Seq<char>) -> bool;

/// The rows of byte values the extraction reads out of the text when
/// it succeeds. A function of the text alone.
pub uninterp spec fn json_rows_val(s: Seq<char>) -> Seq<Seq<u8>>;

/// The error the extraction reports when it fails: `BadJson` when the
/// text is not valid JSON, `NotArray` when the top-level value or an
/// inner value that must be an array is not one, `NotDigit` when a
/// cell value is no byte. A function of the text alone.
pub uninterp spec fn json_rows_err(s: Seq<char>) -> ParseError;

/// Relies on json::parse and json::JsonValue::as_u8: reads the source
/// text as a JSON array of arrays of bytes, row by row, value by
/// value, converting nothing but the types. Both calls depend on the
/// text alone, so the outcome bears the three names above.
#[verifier::external_body]
fn extract_rows(source: &str) -> (r: Result<Vec<Vec<u8>>, ParseError>)
    ensures
        json_rows_ok(source@) <==> r is Ok,
        r matches Ok(rows) ==> rows.deep_view() == json_rows_val(source@),
        r matches Err(e) ==> e == json_rows_err(source@),
        r matches Err(e) ==> (e == ParseError::BadJson || e == ParseError::NotArray || e
            == ParseError::NotDigit),
{
    let outer = match json::parse(source) {
        Ok(json::JsonValue::Array(values)) => values,
        Ok(_) => return Err(ParseError::NotArray),
        Err(_) => return Err(ParseError::BadJson),
    };
    let mut rows: Vec<Vec<u8>> = Vec::new();
    for value in outer {
        let vals = match value {
            json::JsonValue::Array(vals) => vals,
            _ => return Err(ParseError::NotArray),
        };
        let row: Option<Vec<u8>> = vals.iter().map(|v| v.as_u8()).collect();
        rows.push(row.ok_or(ParseError::NotDigit)?);
    }
    Ok(rows)
}

impl Sudoku {
    /// Parse a board from JSON: an array of nine arrays of nine cell
    /// values 0–9 (0 for an empty cell). Fails with `BadJson`,
    /// `NotArray`, or `NotDigit` as the extraction does; with
    /// `WrongShape` when the extracted rows are not 9×9; and with
    /// `NotDigit` when a cell value lies above 9.
    pub fn from_json_str(json_input: &str) -> (r: Result<Sudoku, ParseError>)
        ensures
            !json_rows_ok(json_input@) ==> r == Err::<Sudoku, ParseError>(
                json_rows_err(json_input@),
            ),
            json_rows_ok(json_input@) ==> ((r is Ok) <==> (wf(json_rows_val(json_input@))
                && in_range(json_rows_val(json_input@)))),
            r matches Ok(s) ==> s@ == json_rows_val(json_input@) && wf(s@) && in_range(s@),
            json_rows_ok(json_input@) && !wf(json_rows_val(json_input@)) ==> r == Err::<
                Sudoku,
                ParseError,
            >(ParseError::WrongShape),
            json_rows_ok(json_input@) && wf(json_rows_val(json_input@)) && !in_range(
                json_rows_val(json_input@),
            ) ==> r == Err::<Sudoku, ParseError>(ParseError::NotDigit),
    {
        match extract_rows(json_input) {
            Ok(rows) => Sudoku::from_cells(&rows),
            Err(e) => Err(e),
        }
    }
}

} // verus!
