//! The 9×9 Sudoku board: cell state, placement, and the per-cell
//! consistency check that the backtracking search prunes with.
use vstd::prelude::*;

verus! {

broadcast use vstd::array::group_array_axioms;

/// A 9×9 Sudoku board. A cell holds 0 when empty, or a placed digit 1–9.
/// Boards are values: placement returns a fresh board, never mutates.
#[derive(Clone, Copy)]
pub struct Sudoku {
    cells: [[u8; 9]; 9],
}

/// Why a piece of input could not become a board.
#[derive(Clone, Copy, PartialEq, Eq, Structural, Debug)]
pub enum ParseError {
    /// the input does not form 9 rows of 9 cells
    WrongShape,
    /// a cell is not a digit 0–9
    NotDigit,
    /// the input is not valid JSON at all
    BadJson,
    /// a level of the input that must be an array is something else
    NotArray,
}

/// The mathematical reading of a raw 9×9 cell array: row `y`, column `x`.
pub open spec fn grid_of(cells: [[u8; 9]; 9]) -> Seq<Seq<u8>> {
    Seq::new(9, |y: int| Seq::new(9, |x: int| cells[y][x]))
}

/// The grid has 9 rows of 9 cells each.
pub open spec fn wf(g: Seq<Seq<u8>>) -> bool {
    g.len() == 9 && (forall|y: int| 0 <= y < 9 ==> (#[trigger] g[y]).len() == 9)
}

/// Every cell holds 0 (empty) or a digit 1–9.
pub open spec fn in_range(g: Seq<Seq<u8>>) -> bool {
    forall|y: int, x: int| 0 <= y < 9 && 0 <= x < 9 ==> #[trigger] g[y][x] <= 9
}

/// Two cell positions constrain each other: same row, same column,
/// or same 3×3 box.
pub open spec fn same_unit(x1: int, y1: int, x2: int, y2: int) -> bool {
    y1 == y2 || x1 == x2 || (x1 / 3 == x2 / 3 && y1 / 3 == y2 / 3)
}

/// The value at (x, y) differs from the value of every other cell in
/// the same row, column, or box.
pub open spec fn ok_at(g: Seq<Seq<u8>>, x: int, y: int) -> bool {
    forall|x2: int, y2: int|
        0 <= x2 < 9 && 0 <= y2 < 9 && !(x2 == x && y2 == y) && same_unit(x, y, x2, y2)
            ==> #[trigger] g[y2][x2] != g[y][x]
}

/// The nine cells of row `y`, left to right.
pub open spec fn row_cells(g: Seq<Seq<u8>>, y: int) -> Seq<u8> {
    Seq::new(9, |x: int| g[y][x])
}

/// The nine cells of column `x`, top to bottom.
pub open spec fn col_cells(g: Seq<Seq<u8>>, x: int) -> Seq<u8> {
    Seq::new(9, |y: int| g[y][x])
}

/// The nine cells of box `b` (boxes numbered row-major, 0–8), read
/// row by row within the box.
pub open spec fn box_cells(g: Seq<Seq<u8>>, b: int) -> Seq<u8> {
    Seq::new(9, |k: int| g[(b / 3) * 3 + k / 3][(b % 3) * 3 + k % 3])
}

/// Each digit 1–9 occurs somewhere in `vals`.
pub open spec fn has_all_digits(vals: Seq<u8>) -> bool {
    forall|d: u8| 1 <= d <= 9 ==> #[trigger] vals.contains(d)
}

/// Nine cells that together hold each digit 1–9 exactly once.
pub open spec fn unit_solved(vals: Seq<u8>) -> bool {
    vals.len() == 9 && vals.no_duplicates() && has_all_digits(vals)
}

impl View for Sudoku {
    type V = Seq<Seq<u8>>;

    closed spec fn view(&self) -> Seq<Seq<u8>> {
        grid_of(self.cells)
    }
}

/// Every board value is a well-formed 9×9 grid.
pub broadcast proof fn lemma_sudoku_wf(s: Sudoku)
    ensures
        #![trigger s.view()]
        wf(s@),
{
}

impl Sudoku {
    /// Build a board directly from a 9×9 array of digits.
    pub fn new(cells: [[u8; 9]; 9]) -> (r: Sudoku)
        ensures
            r@ == grid_of(cells),
    {
        Sudoku { cells }
    }

    /// The digit at cell (x, y); 0 when the cell is empty.
    pub fn value(&self, x: usize, y: usize) -> (r: u8)
        requires
            x < 9,
            y < 9,
        ensures
            r == self@[y as int][x as int],
    {
        self.cells[y][x]
    }

    /// True iff cell (x, y) holds a placed digit rather than being empty.
    pub fn is_set(&self, x: usize, y: usize) -> (r: bool)
        requires
            x < 9,
            y < 9,
        ensures
            r == (self@[y as int][x as int] != 0),
    {
        self.cells[y][x] > 0
    }

    /// A fresh board equal to this one except that cell (x, y) holds `val`.
    /// The receiver is not changed.
    pub fn try_value(&self, x: usize, y: usize, val: u8) -> (r: Sudoku)
        requires
            x < 9,
            y < 9,
            1 <= val <= 9,
        ensures
            r@ == self@.update(y as int, self@[y as int].update(x as int, val)),
    {
        let mut cells = self.cells;
        cells[y][x] = val;
        let r = Sudoku { cells };
        proof {
            assert(r@ =~~= self@.update(y as int, self@[y as int].update(x as int, val)));
        }
        r
    }

    /// Build a board from nested rows of cell values, checking the
    /// shape (9 rows of 9) and the digit range (every value 0–9).
    pub fn from_cells(rows: &Vec<Vec<u8>>) -> (r: Result<Sudoku, ParseError>)
        ensures
            (wf(rows.deep_view()) && in_range(rows.deep_view())) <==> r is Ok,
            r matches Ok(s) ==> s@ == rows.deep_view(),
            !wf(rows.deep_view()) ==> r == Err::<Sudoku, ParseError>(ParseError::WrongShape),
            wf(rows.deep_view()) && !in_range(rows.deep_view()) ==> r == Err::<Sudoku, ParseError>(
                ParseError::NotDigit,
            ),
    {
        let ghost dv = rows.deep_view();
        proof {
            assert(dv.len() == rows@.len());
            assert(forall|y: int| 0 <= y < dv.len() ==> #[trigger] dv[y] == rows@[y]@);
        }
        if rows.len() != 9 {
            return Err(ParseError::WrongShape);
        }
        let mut y: usize = 0;
        while y < 9
            invariant
                dv == rows.deep_view(),
                dv.len() == 9,
                rows@.len() == 9,
                forall|y2: int| 0 <= y2 < dv.len() ==> #[trigger] dv[y2] == rows@[y2]@,
                y <= 9,
                forall|y2: int| 0 <= y2 < y ==> (#[trigger] dv[y2]).len() == 9,
            decreases 9 - y,
        {
            if rows[y].len() != 9 {
                assert(dv[y as int].len() != 9);
                assert(!wf(dv));
                return Err(ParseError::WrongShape);
            }
            y += 1;
        }
        assert(wf(dv));
        let mut cells: [[u8; 9]; 9] = [[0;9];9];
        let mut y: usize = 0;
        while y < 9
            invariant
                dv == rows.deep_view(),
                wf(dv),
                rows@.len() == 9,
                forall|y2: int| 0 <= y2 < dv.len() ==> #[trigger] dv[y2] == rows@[y2]@,
                y <= 9,
                forall|y2: int, x2: int|
                    0 <= y2 < y && 0 <= x2 < 9 ==> #[trigger] dv[y2][x2] <= 9,
                forall|y2: int, x2: int|
                    0 <= y2 < y && 0 <= x2 < 9 ==> #[trigger] cells[y2][x2] == dv[y2][x2],
            decreases 9 - y,
        {
            let mut x: usize = 0;
            while x < 9
                invariant
                    dv == rows.deep_view(),
                    wf(dv),
                    rows@.len() == 9,
                    forall|y2: int| 0 <= y2 < dv.len() ==> #[trigger] dv[y2] == rows@[y2]@,
                    y < 9,
                    x <= 9,
                    forall|y2: int, x2: int|
                        0 <= y2 < y && 0 <= x2 < 9 ==> #[trigger] dv[y2][x2] <= 9,
                    forall|y2: int, x2: int|
                        0 <= y2 < y && 0 <= x2 < 9 ==> #[trigger] cells[y2][x2] == dv[y2][x2],
                    forall|x2: int| 0 <= x2 < x ==> #[trigger] dv[y as int][x2] <= 9,
                    forall|x2: int|
                        0 <= x2 < x ==> #[trigger] cells[y as int][x2] == dv[y as int][x2],
                decreases 9 - x,
            {
                assert(dv[y as int] == rows@[y as int]@);
                assert(rows@[y as int]@.len() == 9);
                let v = rows[y][x];
                if v > 9 {
                    assert(dv[y as int][x as int] > 9);
                    return Err(ParseError::NotDigit);
                }
                cells[y][x] = v;
                x += 1;
            }
            y += 1;
        }
        assert(in_range(dv));
        let s = Sudoku { cells };
        proof {
            assert(s@ =~~= dv);
        }
        Ok(s)
    }

    /// True iff the digit currently at (x, y) clashes with no other cell
    /// of its row, column, or box.
    ///
    /// The box pass below deliberately skips box cells that share the
    /// target's row or column; the contract nevertheless states the full
    /// check over the whole box, because every skipped cell lies in the
    /// target's row or column and the two line passes scan those whole.
    pub fn is_valid(&self, x: usize, y: usize) -> (r: bool)
        requires
            x < 9,
            y < 9,
        ensures
            r == ok_at(self@, x as int, y as int),
    {
        let lower_x = (x / 3) * 3;
        let lower_y = (y / 3) * 3;
        let value = self.cells[y][x];

        let mut i = lower_x;
        while i < lower_x + 3
            invariant
                x < 9,
                y < 9,
                lower_x == (x / 3) * 3,
                lower_y == (y / 3) * 3,
                lower_x <= i <= lower_x + 3,
                value == self@[y as int][x as int],
                forall|i2: int, j2: int|
                    lower_x <= i2 < i && lower_y <= j2 < lower_y + 3 && i2 != x && j2 != y
                        ==> #[trigger] self@[j2][i2] != value,
            decreases lower_x + 3 - i,
        {
            let mut j = lower_y;
            while j < lower_y + 3
                invariant
                    x < 9,
                    y < 9,
                    lower_x == (x / 3) * 3,
                    lower_y == (y / 3) * 3,
                    lower_x <= i < lower_x + 3,
                    lower_y <= j <= lower_y + 3,
                    value == self@[y as int][x as int],
                    forall|i2: int, j2: int|
                        lower_x <= i2 < i && lower_y <= j2 < lower_y + 3 && i2 != x && j2 != y
                            ==> #[trigger] self@[j2][i2] != value,
                    forall|j2: int|
                        lower_y <= j2 < j && i != x && j2 != y
                            ==> #[trigger] self@[j2][i as int] != value,
                decreases lower_y + 3 - j,
            {
                if i != x && j != y && self.cells[j][i] == value {
                    proof {
                        assert(same_unit(x as int, y as int, i as int, j as int));
                        assert(self@[j as int][i as int] == value);
                        assert(!ok_at(self@, x as int, y as int));
                    }
                    return false;
                }
                j += 1;
            }
            i += 1;
        }

        let mut i: usize = 0;
        while i < 9
            invariant
                x < 9,
                y < 9,
                i <= 9,
                value == self@[y as int][x as int],
                forall|i2: int| 0 <= i2 < i && i2 != x ==> #[trigger] self@[y as int][i2] != value,
            decreases 9 - i,
        {
            if i != x && self.cells[y][i] == value {
                proof {
                    assert(same_unit(x as int, y as int, i as int, y as int));
                    assert(self@[y as int][i as int] == value);
                    assert(!ok_at(self@, x as int, y as int));
                }
                return false;
            }
            i += 1;
        }

        let mut j: usize = 0;
        while j < 9
            invariant
                x < 9,
                y < 9,
                j <= 9,
                value == self@[y as int][x as int],
                forall|i2: int| 0 <= i2 < 9 && i2 != x ==> #[trigger] self@[y as int][i2] != value,
                forall|j2: int| 0 <= j2 < j && j2 != y ==> #[trigger] self@[j2][x as int] != value,
            decreases 9 - j,
        {
            if j != y && self.cells[j][x] == value {
                proof {
                    assert(same_unit(x as int, y as int, x as int, j as int));
                    assert(self@[j as int][x as int] == value);
                    assert(!ok_at(self@, x as int, y as int));
                }
                return false;
            }
            j += 1;
        }

        proof {
            let lx = (x as int / 3) * 3;
            let ly = (y as int / 3) * 3;
            assert forall|x2: int, y2: int|
                0 <= x2 < 9 && 0 <= y2 < 9 && !(x2 == x as int && y2 == y as int)
                    && same_unit(x as int, y as int, x2, y2) implies #[trigger] self@[y2][x2]
                != value by {
                if y2 == y as int {
                    assert(self@[y as int][x2] != value);
                } else if x2 == x as int {
                    assert(self@[y2][x as int] != value);
                } else {
                    assert(lx <= x2 < lx + 3 && ly <= y2 < ly + 3);
                    assert(self@[y2][x2] != value);
                }
            }
        }
        true
    }
}

/// The fixed sample puzzle, row by row; 0 marks an empty cell.
pub open spec fn sample_grid() -> Seq<Seq<u8>> {
    seq![
        seq![0u8, 0, 0, 0, 0, 0, 0, 0, 5],
        seq![1u8, 3, 5, 2, 0, 0, 0, 8, 0],
        seq![6u8, 0, 0, 1, 0, 0, 0, 0, 0],
        seq![0u8, 0, 0, 0, 5, 0, 0, 0, 0],
        seq![0u8, 4, 6, 0, 0, 0, 0, 0, 2],
        seq![0u8, 9, 0, 3, 0, 0, 0, 0, 6],
        seq![0u8, 0, 0, 0, 0, 0, 0, 0, 0],
        seq![0u8, 0, 0, 9, 0, 4, 0, 0, 0],
        seq![9u8, 6, 4, 0, 0, 0, 8, 2, 1],
    ]
}

/// The fixed sample puzzle as a board value.
pub fn read_sudoku() -> (r: Sudoku)
    ensures
        r@ == sample_grid(),
        in_range(r@),
{
    let cells: [[u8; 9]; 9] = [
        [0, 0, 0, 0, 0, 0, 0, 0, 5],
        [1, 3, 5, 2, 0, 0, 0, 8, 0],
        [6, 0, 0, 1, 0, 0, 0, 0, 0],
        [0, 0, 0, 0, 5, 0, 0, 0, 0],
        [0, 4, 6, 0, 0, 0, 0, 0, 2],
        [0, 9, 0, 3, 0, 0, 0, 0, 6],
        [0, 0, 0, 0, 0, 0, 0, 0, 0],
        [0, 0, 0, 9, 0, 4, 0, 0, 0],
        [9, 6, 4, 0, 0, 0, 8, 2, 1],
    ];
    let r = Sudoku { cells };
    proof {
        assert(r@ =~~= sample_grid());
    }
    r
}

} // verus!
