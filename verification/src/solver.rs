//! Exhaustive backtracking search over cell positions 0..81 in row-major
//! order, trying digits 1–9 in ascending order at each empty cell.
//!
//! The contract of [`partial_solution`] pins the result down completely:
//! a board is returned exactly when a completion exists, the returned board
//! is a completion, and it is the lexicographically least completion in
//! row-major cell order.
use vstd::prelude::*;

use crate::grid::{
    box_cells, col_cells, has_all_digits, ok_at, row_cells, same_unit, unit_solved, wf, Sudoku,
};
use vstd::set_lib::{lemma_int_range, lemma_subset_equality, set_int_range};

verus! {

broadcast use crate::grid::lemma_sudoku_wf;

/// `g` completes `g0` from position `index` on: every cell before `index`
/// and every given is unchanged, and every cell from `index` on that was
/// empty in `g0` now holds a digit 1–9 that clashes with no other cell of
/// its row, column, or box.
pub open spec fn is_completion(g0: Seq<Seq<u8>>, index: int, g: Seq<Seq<u8>>) -> bool {
    &&& wf(g)
    &&& forall|x: int, y: int|
        0 <= x < 9 && 0 <= y < 9 && (y * 9 + x < index || g0[y][x] != 0) ==> #[trigger] g[y][x]
            == g0[y][x]
    &&& forall|x: int, y: int|
        0 <= x < 9 && 0 <= y < 9 && y * 9 + x >= index && g0[y][x] == 0 ==> 1 <= #[trigger] g[y][x]
            <= 9
    &&& forall|x: int, y: int|
        0 <= x < 9 && 0 <= y < 9 && y * 9 + x >= index && g0[y][x] == 0 ==> #[trigger] ok_at(
            g,
            x,
            y,
        )
}

/// `g` solves `g0` outright: every given of `g0` is kept, every cell
/// holds a digit 1–9, and every cell — given or placed — clashes with
/// no other cell of its row, column, or box.
pub open spec fn is_solution(g0: Seq<Seq<u8>>, g: Seq<Seq<u8>>) -> bool {
    &&& wf(g)
    &&& forall|x: int, y: int|
        0 <= x < 9 && 0 <= y < 9 && g0[y][x] != 0 ==> #[trigger] g[y][x] == g0[y][x]
    &&& forall|x: int, y: int| 0 <= x < 9 && 0 <= y < 9 ==> 1 <= #[trigger] g[y][x] <= 9
    &&& forall|x: int, y: int| 0 <= x < 9 && 0 <= y < 9 ==> #[trigger] ok_at(g, x, y)
}

/// The clue at (x, y), if any, holds a digit 1–9 and clashes with no
/// other cell.
pub open spec fn given_ok(g0: Seq<Seq<u8>>, x: int, y: int) -> bool {
    g0[y][x] != 0 ==> (g0[y][x] <= 9 && ok_at(g0, x, y))
}

/// Every given clue holds a digit 1–9 and clashes with no other cell.
pub open spec fn givens_consistent(g0: Seq<Seq<u8>>) -> bool {
    forall|x: int, y: int| 0 <= x < 9 && 0 <= y < 9 ==> #[trigger] given_ok(g0, x, y)
}

/// The cell of `g` at row-major position `i`.
pub open spec fn cell(g: Seq<Seq<u8>>, i: int) -> u8 {
    g[i / 9][i % 9]
}

/// `a` comes strictly before `b` in the lexicographic order that reads
/// the 81 cells in row-major order.
pub open spec fn lex_lt(a: Seq<Seq<u8>>, b: Seq<Seq<u8>>) -> bool {
    exists|i: int|
        0 <= i < 81 && #[trigger] cell(a, i) < cell(b, i) && (forall|j: int|
            0 <= j < i ==> #[trigger] cell(a, j) == cell(b, j))
}

pub open spec fn lex_le(a: Seq<Seq<u8>>, b: Seq<Seq<u8>>) -> bool {
    a == b || lex_lt(a, b)
}

/// Everything the solver promises of its result, as one predicate:
/// a board comes back exactly when a completion exists, the board is a
/// completion, and no completion comes before it lexicographically.
pub open spec fn solver_post(g0: Seq<Seq<u8>>, index: int, r: Option<Seq<Seq<u8>>>) -> bool {
    &&& (r is Some <==> exists|g: Seq<Seq<u8>>| #[trigger] is_completion(g0, index, g))
    &&& (r matches Some(s) ==> is_completion(g0, index, s))
    &&& (r matches Some(s) ==> forall|g: Seq<Seq<u8>>|
        #[trigger] is_completion(g0, index, g) ==> lex_le(s, g))
}

/// Everything [`solve`] promises of its result: a board comes back
/// exactly when a full solution exists, the board is such a solution,
/// and no solution comes before it lexicographically.
pub open spec fn solve_post(g0: Seq<Seq<u8>>, r: Option<Seq<Seq<u8>>>) -> bool {
    &&& (r is Some <==> exists|g: Seq<Seq<u8>>| #[trigger] is_solution(g0, g))
    &&& (r matches Some(s) ==> is_solution(g0, s))
    &&& (r matches Some(s) ==> forall|g: Seq<Seq<u8>>|
        #[trigger] is_solution(g0, g) ==> lex_le(s, g))
}

/// The view of an optional board.
pub open spec fn opt_view(r: Option<Sudoku>) -> Option<Seq<Seq<u8>>> {
    match r {
        Some(s) => Some(s@),
        None => None,
    }
}

/// At position 81 the only completion of a grid is the grid itself.
proof fn lemma_completion_at_end(g0: Seq<Seq<u8>>, g: Seq<Seq<u8>>)
    requires
        wf(g0),
    ensures
        is_completion(g0, 81, g0),
        is_completion(g0, 81, g) ==> g == g0,
{
    if is_completion(g0, 81, g) {
        assert(g =~~= g0);
    }
}

/// A position already set in `g0` changes nothing: the completions from
/// `index` are exactly the completions from `index + 1`.
proof fn lemma_skip(g0: Seq<Seq<u8>>, index: int, g: Seq<Seq<u8>>)
    requires
        0 <= index < 81,
        g0[index / 9][index % 9] != 0,
    ensures
        is_completion(g0, index, g) <==> is_completion(g0, index + 1, g),
{
    let x0 = index % 9;
    let y0 = index / 9;
    assert(y0 * 9 + x0 == index);
}

/// Placing digit `v` at the empty position `index` of `g0` gives `t`.
/// Then the completions of `t` from `index + 1` whose placement is locally
/// consistent are exactly the completions of `g0` from `index` that hold
/// `v` at that position.
proof fn lemma_place(g0: Seq<Seq<u8>>, index: int, v: u8, t: Seq<Seq<u8>>, g: Seq<Seq<u8>>)
    requires
        wf(g0),
        0 <= index < 81,
        g0[index / 9][index % 9] == 0,
        1 <= v <= 9,
        t == g0.update(index / 9, g0[index / 9].update(index % 9, v)),
    ensures
        (is_completion(t, index + 1, g) && ok_at(t, index % 9, index / 9)) <==> (is_completion(
            g0,
            index,
            g,
        ) && g[index / 9][index % 9] == v),
{
    let x0 = index % 9;
    let y0 = index / 9;
    assert(y0 * 9 + x0 == index);
    assert(0 <= x0 < 9 && 0 <= y0 < 9);
    assert(t[y0][x0] == v);
    assert(forall|x: int, y: int|
        0 <= x < 9 && 0 <= y < 9 && !(x == x0 && y == y0) ==> #[trigger] t[y][x] == g0[y][x]);

    if is_completion(t, index + 1, g) && ok_at(t, x0, y0) {
        assert(g[y0][x0] == v);
        // the placed cell stays consistent in the finished grid
        assert forall|x2: int, y2: int|
            0 <= x2 < 9 && 0 <= y2 < 9 && !(x2 == x0 && y2 == y0) && crate::grid::same_unit(
                x0,
                y0,
                x2,
                y2,
            ) implies #[trigger] g[y2][x2] != g[y0][x0] by {
            if y2 * 9 + x2 < index + 1 || t[y2][x2] != 0 {
                assert(g[y2][x2] == t[y2][x2]);
                assert(t[y2][x2] != t[y0][x0]);
            } else {
                assert(ok_at(g, x2, y2));
                assert(crate::grid::same_unit(x2, y2, x0, y0));
                assert(g[y0][x0] != g[y2][x2]);
            }
        }
        assert(ok_at(g, x0, y0));
        assert forall|x: int, y: int|
            0 <= x < 9 && 0 <= y < 9 && (y * 9 + x < index || g0[y][x] != 0) implies #[trigger] g[y][x]
            == g0[y][x] by {
            assert(!(x == x0 && y == y0));
            assert(t[y][x] == g0[y][x]);
            assert(g[y][x] == t[y][x]);
        }
        assert forall|x: int, y: int|
            0 <= x < 9 && 0 <= y < 9 && y * 9 + x >= index && g0[y][x] == 0 implies 1
            <= #[trigger] g[y][x] <= 9 by {
            if x == x0 && y == y0 {
            } else {
                assert(t[y][x] == 0);
                assert(y * 9 + x >= index + 1);
            }
        }
        assert forall|x: int, y: int|
            0 <= x < 9 && 0 <= y < 9 && y * 9 + x >= index && g0[y][x] == 0 implies #[trigger] ok_at(
            g,
            x,
            y,
        ) by {
            if x == x0 && y == y0 {
            } else {
                assert(t[y][x] == 0);
                assert(y * 9 + x >= index + 1);
            }
        }
        assert(is_completion(g0, index, g));
    }

    if is_completion(g0, index, g) && g[y0][x0] == v {
        assert(ok_at(g, x0, y0));
        // the trial placement is locally consistent
        assert forall|x2: int, y2: int|
            0 <= x2 < 9 && 0 <= y2 < 9 && !(x2 == x0 && y2 == y0) && crate::grid::same_unit(
                x0,
                y0,
                x2,
                y2,
            ) implies #[trigger] t[y2][x2] != t[y0][x0] by {
            if t[y2][x2] == 0 {
            } else {
                assert(t[y2][x2] == g0[y2][x2]);
                assert(g0[y2][x2] != 0);
                assert(g[y2][x2] == g0[y2][x2]);
                assert(g[y2][x2] != g[y0][x0]);
            }
        }
        assert(ok_at(t, x0, y0));
        assert forall|x: int, y: int|
            0 <= x < 9 && 0 <= y < 9 && (y * 9 + x < index + 1 || t[y][x] != 0) implies #[trigger] g[y][x]
            == t[y][x] by {
            if x == x0 && y == y0 {
            } else {
                assert(t[y][x] == g0[y][x]);
            }
        }
        assert forall|x: int, y: int|
            0 <= x < 9 && 0 <= y < 9 && y * 9 + x >= index + 1 && t[y][x] == 0 implies 1
            <= #[trigger] g[y][x] <= 9 by {
            assert(!(x == x0 && y == y0));
            assert(g0[y][x] == 0);
        }
        assert forall|x: int, y: int|
            0 <= x < 9 && 0 <= y < 9 && y * 9 + x >= index + 1 && t[y][x] == 0 implies #[trigger] ok_at(
            g,
            x,
            y,
        ) by {
            assert(!(x == x0 && y == y0));
            assert(g0[y][x] == 0);
        }
        assert(is_completion(t, index + 1, g));
    }
}

/// With consistent givens, solving a grid outright and completing it
/// from position 0 are the same thing: the search checks each placed
/// cell against all others, and the givens were checked up front.
proof fn lemma_solution_iff_completion(g0: Seq<Seq<u8>>, g: Seq<Seq<u8>>)
    requires
        wf(g0),
        givens_consistent(g0),
    ensures
        is_solution(g0, g) <==> is_completion(g0, 0, g),
{
    if is_completion(g0, 0, g) {
        assert forall|x: int, y: int| 0 <= x < 9 && 0 <= y < 9 implies 1 <= #[trigger] g[y][x]
            <= 9 by {
            if g0[y][x] != 0 {
                assert(given_ok(g0, x, y));
                assert(g[y][x] == g0[y][x]);
            }
        }
        assert forall|x: int, y: int| 0 <= x < 9 && 0 <= y < 9 implies #[trigger] ok_at(
            g,
            x,
            y,
        ) by {
            if g0[y][x] != 0 {
                assert forall|x2: int, y2: int|
                    0 <= x2 < 9 && 0 <= y2 < 9 && !(x2 == x && y2 == y) && same_unit(x, y, x2, y2)
                    implies #[trigger] g[y2][x2] != g[y][x] by {
                    if g0[y2][x2] != 0 {
                        assert(given_ok(g0, x, y));
                        assert(ok_at(g0, x, y));
                        assert(g[y][x] == g0[y][x]);
                        assert(g[y2][x2] == g0[y2][x2]);
                    } else {
                        assert(ok_at(g, x2, y2));
                        assert(same_unit(x2, y2, x, y));
                        assert(g[y][x] != g[y2][x2]);
                    }
                }
            }
        }
    }
    if is_solution(g0, g) {
        assert(is_completion(g0, 0, g));
    }
}

/// Nine pairwise-distinct digits drawn from 1–9 must cover all of 1–9.
proof fn lemma_digits_pigeonhole(vals: Seq<u8>)
    requires
        vals.len() == 9,
        vals.no_duplicates(),
        forall|i: int| 0 <= i < 9 ==> 1 <= #[trigger] vals[i] <= 9,
    ensures
        has_all_digits(vals),
{
    broadcast use vstd::set::group_set_axioms;
    broadcast use vstd::seq_lib::seq_to_set_is_finite;

    let ints = Seq::new(9, |i: int| vals[i] as int);
    assert forall|i: int, j: int|
        0 <= i < ints.len() && 0 <= j < ints.len() && i != j implies #[trigger] ints[i]
        != #[trigger] ints[j] by {
        assert(vals[i] != vals[j]);
    }
    ints.unique_seq_to_set();
    let s = ints.to_set();
    let r = set_int_range(1, 10);
    lemma_int_range(1, 10);
    assert forall|e: int| s.contains(e) implies r.contains(e) by {
        let i = choose|i: int| 0 <= i < ints.len() && ints[i] == e;
        assert(1 <= vals[i] <= 9);
    }
    lemma_subset_equality(s, r);
    assert forall|d: u8| 1 <= d <= 9 implies #[trigger] vals.contains(d) by {
        assert(r.contains(d as int));
        assert(ints.contains(d as int));
        let i = choose|i: int| 0 <= i < ints.len() && ints[i] == d as int;
        assert(vals[i] == d);
    }
}

/// Every row, column, and box of a returned solution holds each digit
/// 1–9 exactly once — the full constraint on every cell, independent
/// of the narrower per-placement check the search prunes with.
pub proof fn lemma_solution_fully_valid(g0: Seq<Seq<u8>>, g: Seq<Seq<u8>>)
    requires
        is_solution(g0, g),
    ensures
        forall|y: int| 0 <= y < 9 ==> unit_solved(#[trigger] row_cells(g, y)),
        forall|x: int| 0 <= x < 9 ==> unit_solved(#[trigger] col_cells(g, x)),
        forall|b: int| 0 <= b < 9 ==> unit_solved(#[trigger] box_cells(g, b)),
{
    assert forall|x1: int, y1: int, x2: int, y2: int|
        0 <= x1 < 9 && 0 <= y1 < 9 && 0 <= x2 < 9 && 0 <= y2 < 9 && !(x1 == x2 && y1 == y2)
            && same_unit(x1, y1, x2, y2) implies #[trigger] g[y1][x1] != #[trigger] g[y2][x2] by {
        assert(ok_at(g, x1, y1));
    }
    assert forall|y: int| 0 <= y < 9 implies unit_solved(#[trigger] row_cells(g, y)) by {
        let vals = row_cells(g, y);
        assert forall|i: int, j: int|
            0 <= i < vals.len() && 0 <= j < vals.len() && i != j implies vals[i] != vals[j] by {
            assert(same_unit(i, y, j, y));
            assert(g[y][i] != g[y][j]);
        }
        lemma_digits_pigeonhole(vals);
    }
    assert forall|x: int| 0 <= x < 9 implies unit_solved(#[trigger] col_cells(g, x)) by {
        let vals = col_cells(g, x);
        assert forall|i: int, j: int|
            0 <= i < vals.len() && 0 <= j < vals.len() && i != j implies vals[i] != vals[j] by {
            assert(same_unit(x, i, x, j));
            assert(g[i][x] != g[j][x]);
        }
        lemma_digits_pigeonhole(vals);
    }
    assert forall|b: int| 0 <= b < 9 implies unit_solved(#[trigger] box_cells(g, b)) by {
        let vals = box_cells(g, b);
        assert forall|i: int, j: int|
            0 <= i < vals.len() && 0 <= j < vals.len() && i != j implies vals[i] != vals[j] by {
            let x1 = (b % 3) * 3 + i % 3;
            let y1 = (b / 3) * 3 + i / 3;
            let x2 = (b % 3) * 3 + j % 3;
            let y2 = (b / 3) * 3 + j / 3;
            assert(x1 / 3 == b % 3 && x2 / 3 == b % 3 && y1 / 3 == b / 3 && y2 / 3 == b / 3);
            assert(same_unit(x1, y1, x2, y2));
            assert(!(x1 == x2 && y1 == y2));
            assert(g[y1][x1] != g[y2][x2]);
        }
        lemma_digits_pigeonhole(vals);
    }
}

/// A solution never overwrites a given clue: every cell set in the
/// input keeps its digit in any returned board.
pub proof fn lemma_givens_preserved(g0: Seq<Seq<u8>>, g: Seq<Seq<u8>>)
    requires
        is_solution(g0, g),
    ensures
        forall|x: int, y: int|
            0 <= x < 9 && 0 <= y < 9 && g0[y][x] != 0 ==> #[trigger] g[y][x] == g0[y][x],
{
}

/// The lexicographic order on boards is antisymmetric.
proof fn lemma_lex_le_antisymmetric(s1: Seq<Seq<u8>>, s2: Seq<Seq<u8>>)
    requires
        lex_le(s1, s2),
        lex_le(s2, s1),
    ensures
        s1 == s2,
{
    if s1 != s2 {
        assert(lex_lt(s1, s2));
        assert(lex_lt(s2, s1));
        let i1 = choose|i: int|
            0 <= i < 81 && #[trigger] cell(s1, i) < cell(s2, i) && (forall|j: int|
                0 <= j < i ==> #[trigger] cell(s1, j) == cell(s2, j));
        let i2 = choose|i: int|
            0 <= i < 81 && #[trigger] cell(s2, i) < cell(s1, i) && (forall|j: int|
                0 <= j < i ==> #[trigger] cell(s2, j) == cell(s1, j));
        if i1 < i2 {
            assert(cell(s2, i1) == cell(s1, i1));
        } else if i2 < i1 {
            assert(cell(s1, i2) == cell(s2, i2));
        }
        assert(false);
    }
}

/// The search's contract determines its answer: any two results that
/// satisfy it on the same input and position are equal.
pub proof fn lemma_solver_deterministic(
    g0: Seq<Seq<u8>>,
    index: int,
    r1: Option<Seq<Seq<u8>>>,
    r2: Option<Seq<Seq<u8>>>,
)
    requires
        solver_post(g0, index, r1),
        solver_post(g0, index, r2),
    ensures
        r1 == r2,
{
    if r1 is Some && r2 is Some {
        lemma_lex_le_antisymmetric(r1->Some_0, r2->Some_0);
    }
}

/// The solver's contract determines its answer: re-running [`solve`]
/// on the same input can only reproduce the same result.
pub proof fn lemma_solve_deterministic(
    g0: Seq<Seq<u8>>,
    r1: Option<Seq<Seq<u8>>>,
    r2: Option<Seq<Seq<u8>>>,
)
    requires
        solve_post(g0, r1),
        solve_post(g0, r2),
    ensures
        r1 == r2,
{
    if r1 is Some && r2 is Some {
        lemma_lex_le_antisymmetric(r1->Some_0, r2->Some_0);
    }
}

/// A grid that is already fully and validly filled is its own unique
/// solution, so the solver hands it back unchanged.
pub proof fn lemma_filled_grid_returned(g0: Seq<Seq<u8>>, r: Option<Seq<Seq<u8>>>)
    requires
        wf(g0),
        forall|x: int, y: int| 0 <= x < 9 && 0 <= y < 9 ==> 1 <= #[trigger] g0[y][x] <= 9,
        forall|x: int, y: int| 0 <= x < 9 && 0 <= y < 9 ==> #[trigger] ok_at(g0, x, y),
        solve_post(g0, r),
    ensures
        r == Some(g0),
{
    assert(is_solution(g0, g0));
    let s = r->Some_0;
    assert(is_solution(g0, s));
    assert forall|x: int, y: int| 0 <= x < 9 && 0 <= y < 9 implies #[trigger] s[y][x]
        == g0[y][x] by {
        assert(g0[y][x] != 0);
    }
    assert(s =~~= g0);
}

/// An unsatisfiable grid — one with no full solution, for instance two
/// equal digits placed in one row among the givens — makes the solver
/// report that no solution exists.
pub proof fn lemma_unsatisfiable_returns_none(g0: Seq<Seq<u8>>, r: Option<Seq<Seq<u8>>>)
    requires
        solve_post(g0, r),
        !(exists|g: Seq<Seq<u8>>| #[trigger] is_solution(g0, g)),
    ensures
        r is None,
{
}

/// Depth-first search from row-major position `index`: skip set cells,
/// try digits 1–9 at empty ones, recurse, and return the first full
/// solution found — which the contract shows is the lexicographically
/// least completion — or `None` when no completion exists.
pub fn partial_solution(sudoku: Sudoku, index: usize) -> (r: Option<Sudoku>)
    requires
        index <= 81,
    ensures
        solver_post(sudoku@, index as int, opt_view(r)),
    decreases 81 - index,
{
    let ghost g0 = sudoku@;
    let x = index % 9;
    let y = index / 9;

    if index == 81 {
        proof {
            lemma_completion_at_end(g0, g0);
            assert forall|g: Seq<Seq<u8>>| #[trigger] is_completion(g0, 81, g) implies lex_le(
                g0,
                g,
            ) by {
                lemma_completion_at_end(g0, g);
            }
        }
        Some(sudoku)
    } else if sudoku.is_set(x, y) {
        let r = partial_solution(sudoku, index + 1);
        proof {
            assert(g0[index as int / 9][index as int % 9] != 0);
            assert forall|g: Seq<Seq<u8>>|
                #![trigger is_completion(g0, index as int, g)]
                #![trigger is_completion(g0, index as int + 1, g)]
                is_completion(g0, index as int, g) <==> is_completion(g0, index as int + 1, g) by {
                lemma_skip(g0, index as int, g);
            }
        }
        r
    } else {
        let mut value: u8 = 1;
        loop
            invariant
                1 <= value <= 10,
                index < 81,
                x == index % 9,
                y == index / 9,
                sudoku@ == g0,
                g0[y as int][x as int] == 0,
                forall|g: Seq<Seq<u8>>| #[trigger] is_completion(g0, index as int, g)
                    ==> g[y as int][x as int] >= value,
            decreases 10 - value,
        {
            if value > 9 {
                proof {
                    assert forall|g: Seq<Seq<u8>>| !is_completion(g0, index as int, g) by {
                        if is_completion(g0, index as int, g) {
                            assert(g[y as int][x as int] <= 9);
                        }
                    }
                }
                return None;
            }
            let trial = sudoku.try_value(x, y, value);
            let ghost t = trial@;
            if trial.is_valid(x, y) {
                match partial_solution(trial, index + 1) {
                    Some(result) => {
                        proof {
                            lemma_place(g0, index as int, value, t, result@);
                            assert(is_completion(g0, index as int, result@));
                            assert forall|g: Seq<Seq<u8>>| #[trigger] is_completion(
                                g0,
                                index as int,
                                g,
                            ) implies lex_le(result@, g) by {
                                let w = g[y as int][x as int];
                                if w == value {
                                    lemma_place(g0, index as int, value, t, g);
                                    assert(is_completion(t, index as int + 1, g));
                                    assert(lex_le(result@, g));
                                } else {
                                    assert(1 <= w <= 9 && w > value);
                                    assert forall|j: int| 0 <= j < index as int implies #[trigger] cell(
                                        result@,
                                        j,
                                    ) == cell(g, j) by {
                                        let xj = j % 9;
                                        let yj = j / 9;
                                        assert(yj * 9 + xj == j);
                                        assert(result@[yj][xj] == g0[yj][xj]);
                                        assert(g[yj][xj] == g0[yj][xj]);
                                    }
                                    assert(cell(result@, index as int) == value);
                                    assert(cell(g, index as int) == w);
                                    assert(lex_lt(result@, g));
                                }
                            }
                        }
                        return Some(result);
                    },
                    None => {
                        proof {
                            assert forall|g: Seq<Seq<u8>>| #[trigger] is_completion(
                                g0,
                                index as int,
                                g,
                            ) implies g[y as int][x as int] >= value + 1 by {
                                if g[y as int][x as int] == value {
                                    lemma_place(g0, index as int, value, t, g);
                                    assert(is_completion(t, index as int + 1, g));
                                }
                            }
                        }
                    },
                }
            } else {
                proof {
                    assert forall|g: Seq<Seq<u8>>| #[trigger] is_completion(
                        g0,
                        index as int,
                        g,
                    ) implies g[y as int][x as int] >= value + 1 by {
                        if g[y as int][x as int] == value {
                            lemma_place(g0, index as int, value, t, g);
                            assert(ok_at(t, index as int % 9, index as int / 9));
                        }
                    }
                }
            }
            value = value + 1;
        }
    }
}

/// Solve a puzzle outright: first check every given clue — a digit
/// above 9 or a clash with another cell means no full solution can
/// exist, so the answer is `None` — then run the backtracking search.
/// The contract pins the answer completely: a board comes back exactly
/// when a solution exists, and it is the lexicographically least one.
pub fn solve(sudoku: Sudoku) -> (r: Option<Sudoku>)
    ensures
        solve_post(sudoku@, opt_view(r)),
{
    let ghost g0 = sudoku@;
    let mut y: usize = 0;
    while y < 9
        invariant
            sudoku@ == g0,
            y <= 9,
            forall|x2: int, y2: int|
                0 <= x2 < 9 && 0 <= y2 < y ==> #[trigger] given_ok(g0, x2, y2),
        decreases 9 - y,
    {
        let mut x: usize = 0;
        while x < 9
            invariant
                sudoku@ == g0,
                y < 9,
                x <= 9,
                forall|x2: int, y2: int|
                    0 <= x2 < 9 && 0 <= y2 < y ==> #[trigger] given_ok(g0, x2, y2),
                forall|x2: int| 0 <= x2 < x ==> #[trigger] given_ok(g0, x2, y as int),
            decreases 9 - x,
        {
            if sudoku.is_set(x, y) {
                if sudoku.value(x, y) > 9 {
                    proof {
                        assert forall|g: Seq<Seq<u8>>| !is_solution(g0, g) by {
                            if is_solution(g0, g) {
                                assert(g[y as int][x as int] == g0[y as int][x as int]);
                                assert(g[y as int][x as int] <= 9);
                            }
                        }
                    }
                    return None;
                }
                if !sudoku.is_valid(x, y) {
                    proof {
                        let (x2, y2) = choose|x2: int, y2: int|
                            0 <= x2 < 9 && 0 <= y2 < 9 && !(x2 == x as int && y2 == y as int)
                                && same_unit(x as int, y as int, x2, y2) && #[trigger] g0[y2][x2]
                                == g0[y as int][x as int];
                        assert forall|g: Seq<Seq<u8>>| !is_solution(g0, g) by {
                            if is_solution(g0, g) {
                                assert(g0[y2][x2] != 0);
                                assert(g[y2][x2] == g0[y2][x2]);
                                assert(g[y as int][x as int] == g0[y as int][x as int]);
                                assert(ok_at(g, x as int, y as int));
                                assert(g[y2][x2] != g[y as int][x as int]);
                            }
                        }
                    }
                    return None;
                }
                proof {
                    assert(given_ok(g0, x as int, y as int));
                }
            } else {
                proof {
                    assert(g0[y as int][x as int] == 0);
                    assert(given_ok(g0, x as int, y as int));
                }
            }
            x += 1;
        }
        y += 1;
    }
    proof {
        assert forall|x2: int, y2: int| 0 <= x2 < 9 && 0 <= y2 < 9 implies #[trigger] given_ok(
            g0,
            x2,
            y2,
        ) by {}
    }
    let r = partial_solution(sudoku, 0);
    proof {
        assert(givens_consistent(g0));
        assert forall|g: Seq<Seq<u8>>|
            #![trigger is_solution(g0, g)]
            #![trigger is_completion(g0, 0, g)]
            is_solution(g0, g) <==> is_completion(g0, 0, g) by {
            lemma_solution_iff_completion(g0, g);
        }
    }
    r
}

} // verus!
