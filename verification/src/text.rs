//! Text form of a board: rendering with `|` delimiters, parsing of a
//! plain 9×9 digit block, and the round-trip law tying the two together.
use vstd::prelude::*;

use crate::grid::{grid_of, in_range, wf, ParseError, Sudoku};
use vstd::string::{StrSliceExecFns, StringExecFns};

verus! {

/// The character that renders digit `d` (0–9).
pub open spec fn char_of_digit(d: u8) -> char {
    if d == 0 {
        '0'
    } else if d == 1 {
        '1'
    } else if d == 2 {
        '2'
    } else if d == 3 {
        '3'
    } else if d == 4 {
        '4'
    } else if d == 5 {
        '5'
    } else if d == 6 {
        '6'
    } else if d == 7 {
        '7'
    } else if d == 8 {
        '8'
    } else {
        '9'
    }
}

/// A decimal digit character.
pub open spec fn is_digit_char(c: char) -> bool {
    48 <= c as int <= 57
}

/// The digit a decimal digit character stands for.
pub open spec fn digit_of_char(c: char) -> u8 {
    (c as int - 48) as u8
}

/// One rendered row: `|` before and after each of the nine digits,
/// then a newline — 20 characters in all.
pub open spec fn row_text(row: Seq<u8>) -> Seq<char> {
    Seq::new(
        20,
        |i: int|
            if i == 19 {
                '\n'
            } else if i % 2 == 0 {
                '|'
            } else {
                char_of_digit(row[(i - 1) / 2])
            },
    )
}

/// The full rendering: nine rows of 20 characters each.
pub open spec fn text_of(g: Seq<Seq<u8>>) -> Seq<char> {
    Seq::new(180, |i: int| row_text(g[i / 20])[i % 20])
}

/// The text is 9 lines of 9 characters: a line break closes each full
/// line, and the last line may leave its break off.
pub open spec fn shape_ok(s: Seq<char>) -> bool {
    (s.len() == 89 || s.len() == 90) && (forall|i: int|
        0 <= i < s.len() && i % 10 == 9 ==> #[trigger] s[i] == '\n')
}

/// Every cell position of the text holds a decimal digit character.
pub open spec fn digits_ok(s: Seq<char>) -> bool {
    forall|i: int| 0 <= i < s.len() && i % 10 != 9 ==> is_digit_char(#[trigger] s[i])
}

/// The grid a well-shaped digit block spells out.
pub open spec fn grid_of_text(s: Seq<char>) -> Seq<Seq<u8>> {
    Seq::new(9, |y: int| Seq::new(9, |x: int| digit_of_char(s[10 * y + x])))
}

/// The one-character string rendering digit `d`.
fn digit_str(d: u8) -> (r: &'static str)
    requires
        d <= 9,
    ensures
        r@ =~= seq![char_of_digit(d)],
{
    proof {
        reveal_strlit("0");
        reveal_strlit("1");
        reveal_strlit("2");
        reveal_strlit("3");
        reveal_strlit("4");
        reveal_strlit("5");
        reveal_strlit("6");
        reveal_strlit("7");
        reveal_strlit("8");
        reveal_strlit("9");
    }
    match d {
        0 => "0",
        1 => "1",
        2 => "2",
        3 => "3",
        4 => "4",
        5 => "5",
        6 => "6",
        7 => "7",
        8 => "8",
        _ => "9",
    }
}

impl Sudoku {
    /// Render the board as nine lines, each cell's digit fenced by `|`
    /// delimiters, one line break after every row.
    pub fn to_text(&self) -> (r: String)
        requires
            in_range(self@),
        ensures
            r@ == text_of(self@),
    {
        let mut out = String::new();
        let mut y: usize = 0;
        while y < 9
            invariant
                in_range(self@),
                y <= 9,
                out@ =~= text_of(self@).subrange(0, 20 * y as int),
            decreases 9 - y,
        {
            out.append("|");
            proof {
                reveal_strlit("|");
                assert(out@ =~= text_of(self@).subrange(0, 20 * y as int + 1));
            }
            let mut x: usize = 0;
            while x < 9
                invariant
                    in_range(self@),
                    y < 9,
                    x <= 9,
                    out@ =~= text_of(self@).subrange(0, 20 * y as int + 1 + 2 * x as int),
                decreases 9 - x,
            {
                let d = self.value(x, y);
                out.append(digit_str(d));
                out.append("|");
                proof {
                    reveal_strlit("|");
                    assert(out@ =~= text_of(self@).subrange(0, 20 * y as int + 3 + 2 * x as int));
                }
                x += 1;
            }
            out.append("\n");
            proof {
                reveal_strlit("\n");
                assert(out@ =~= text_of(self@).subrange(0, 20 * (y + 1) as int));
            }
            y += 1;
        }
        proof {
            assert(out@ =~= text_of(self@));
        }
        out
    }

    /// Parse a 9×9 digit block: nine lines of nine digit characters
    /// (0 for an empty cell), each line closed by a line break, the
    /// last break optional. Reports which way the input is malformed.
    pub fn from_str(input: &str) -> (r: Result<Sudoku, ParseError>)
        ensures
            (shape_ok(input@) && digits_ok(input@)) <==> r is Ok,
            r matches Ok(s) ==> s@ == grid_of_text(input@) && in_range(s@),
            !shape_ok(input@) ==> r == Err::<Sudoku, ParseError>(ParseError::WrongShape),
            shape_ok(input@) && !digits_ok(input@) ==> r == Err::<Sudoku, ParseError>(
                ParseError::NotDigit,
            ),
    {
        let n = input.unicode_len();
        if n != 89 && n != 90 {
            return Err(ParseError::WrongShape);
        }
        let mut i: usize = 9;
        while i < n
            invariant
                n == input@.len(),
                n == 89 || n == 90,
                i % 10 == 9,
                9 <= i,
                forall|k: int| 0 <= k < i && k % 10 == 9 ==> #[trigger] input@[k] == '\n',
            decreases n + 10 - i,
        {
            let c = input.get_char(i);
            if c != '\n' {
                return Err(ParseError::WrongShape);
            }
            i += 10;
        }
        assert(shape_ok(input@));

        let mut cells: [[u8; 9]; 9] = [[0;9];9];
        let mut y: usize = 0;
        while y < 9
            invariant
                n == input@.len(),
                n == 89 || n == 90,
                shape_ok(input@),
                y <= 9,
                forall|y2: int, x2: int|
                    0 <= y2 < y && 0 <= x2 < 9 ==> is_digit_char(#[trigger] input@[10 * y2 + x2]),
                forall|y2: int, x2: int|
                    0 <= y2 < y && 0 <= x2 < 9 ==> #[trigger] cells[y2][x2] == digit_of_char(
                        input@[10 * y2 + x2],
                    ),
            decreases 9 - y,
        {
            let mut x: usize = 0;
            while x < 9
                invariant
                    n == input@.len(),
                    n == 89 || n == 90,
                    shape_ok(input@),
                    y < 9,
                    x <= 9,
                    forall|y2: int, x2: int|
                        0 <= y2 < y && 0 <= x2 < 9 ==> is_digit_char(
                            #[trigger] input@[10 * y2 + x2],
                        ),
                    forall|y2: int, x2: int|
                        0 <= y2 < y && 0 <= x2 < 9 ==> #[trigger] cells[y2][x2] == digit_of_char(
                            input@[10 * y2 + x2],
                        ),
                    forall|x2: int|
                        0 <= x2 < x ==> is_digit_char(#[trigger] input@[10 * y as int + x2]),
                    forall|x2: int|
                        0 <= x2 < x ==> #[trigger] cells[y as int][x2] == digit_of_char(
                            input@[10 * y as int + x2],
                        ),
                decreases 9 - x,
            {
                let c = input.get_char(10 * y + x);
                let u = c as u32;
                if u < 48 || u > 57 {
                    assert(!is_digit_char(input@[10 * y as int + x as int]));
                    assert(!digits_ok(input@));
                    return Err(ParseError::NotDigit);
                }
                cells[y][x] = (u - 48) as u8;
                x += 1;
            }
            y += 1;
        }
        proof {
            assert forall|i2: int| 0 <= i2 < n && i2 % 10 != 9 implies is_digit_char(
                #[trigger] input@[i2],
            ) by {
                let y2 = i2 / 10;
                let x2 = i2 % 10;
                assert(10 * y2 + x2 == i2);
                assert(0 <= y2 < 9 && 0 <= x2 < 9);
                assert(is_digit_char(input@[10 * y2 + x2]));
            }
            assert(digits_ok(input@));
            assert(grid_of(cells) =~~= grid_of_text(input@));
        }
        Ok(Sudoku::new(cells))
    }
}

/// A rendered board with its `|` delimiters struck out.
pub open spec fn strip_delims(s: Seq<char>) -> Seq<char> {
    s.filter(|c: char| c != '|')
}

/// The bare digit block of a grid: nine digits then a line break,
/// row after row — 90 characters.
pub open spec fn plain_text_of(g: Seq<Seq<u8>>) -> Seq<char> {
    Seq::new(
        90,
        |i: int|
            if i % 10 == 9 {
                '\n'
            } else {
                char_of_digit(g[i / 10][i % 10])
            },
    )
}

/// Striking a character out of, or keeping it at, the end of the text.
proof fn lemma_strip_push(s: Seq<char>, a: char)
    ensures
        strip_delims(s.push(a)) == if a != '|' {
            strip_delims(s).push(a)
        } else {
            strip_delims(s)
        },
{
    let t = s.push(a);
    assert(t.drop_last() =~= s);
    assert(t.last() == a);
    reveal(Seq::filter);
}

/// Stripping the first `i` rendered characters yields the first
/// `10·(i/20) + (i%20)/2` characters of the bare digit block.
proof fn lemma_strip_prefix(g: Seq<Seq<u8>>, i: int)
    requires
        wf(g),
        0 <= i <= 180,
    ensures
        strip_delims(text_of(g).subrange(0, i)) =~= plain_text_of(g).subrange(
            0,
            10 * (i / 20) + (i % 20) / 2,
        ),
    decreases i,
{
    let t = text_of(g);
    let p = plain_text_of(g);
    if i == 0 {
        assert(t.subrange(0, 0) =~= Seq::<char>::empty());
        reveal(Seq::filter);
        assert(strip_delims(Seq::<char>::empty()) =~= Seq::<char>::empty());
    } else {
        lemma_strip_prefix(g, i - 1);
        let k0 = 10 * ((i - 1) / 20) + ((i - 1) % 20) / 2;
        let k1 = 10 * (i / 20) + (i % 20) / 2;
        assert(t.subrange(0, i) =~= t.subrange(0, i - 1).push(t[i - 1]));
        lemma_strip_push(t.subrange(0, i - 1), t[i - 1]);
        let y = (i - 1) / 20;
        let r = (i - 1) % 20;
        assert(t[i - 1] == row_text(g[y])[r]);
        if r == 19 {
            assert(t[i - 1] == '\n');
            assert(k1 == k0 + 1);
            assert(p[k0] == '\n');
            assert(p.subrange(0, k1) =~= p.subrange(0, k0).push(p[k0]));
        } else if r % 2 == 0 {
            assert(t[i - 1] == '|');
            assert(k1 == k0);
        } else {
            let d = g[y][(r - 1) / 2];
            assert(t[i - 1] == char_of_digit(d));
            assert(char_of_digit(d) != '|');
            assert(k1 == k0 + 1);
            assert(k0 % 10 == r / 2 && k0 / 10 == y);
            assert(p[k0] == char_of_digit(g[y][(r - 1) / 2]));
            assert(p.subrange(0, k1) =~= p.subrange(0, k0).push(p[k0]));
        }
    }
}

/// Round trip: strip the `|` delimiters from a rendered board and the
/// parser accepts what is left and reads back exactly the same grid.
pub proof fn lemma_text_round_trip(g: Seq<Seq<u8>>)
    requires
        wf(g),
        in_range(g),
    ensures
        shape_ok(strip_delims(text_of(g))),
        digits_ok(strip_delims(text_of(g))),
        grid_of_text(strip_delims(text_of(g))) == g,
{
    lemma_strip_prefix(g, 180);
    let t = text_of(g);
    let p = plain_text_of(g);
    assert(t.subrange(0, 180) =~= t);
    assert(p.subrange(0, 90) =~= p);
    assert(strip_delims(t) =~= p);
    assert(strip_delims(t) == p);
    assert forall|i: int| 0 <= i < 90 && i % 10 != 9 implies is_digit_char(#[trigger] p[i]) by {
        assert(p[i] == char_of_digit(g[i / 10][i % 10]));
    }
    assert(shape_ok(p));
    assert(digits_ok(p));
    assert forall|y: int, x: int| 0 <= y < 9 && 0 <= x < 9 implies digit_of_char(
        #[trigger] p[10 * y + x],
    ) == g[y][x] by {
        assert(p[10 * y + x] == char_of_digit(g[y][x]));
        assert(g[y][x] <= 9);
    }
    assert(grid_of_text(p) =~~= g);
}

} // verus!
