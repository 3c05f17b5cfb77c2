use vstd::prelude::*;

use crate::game::{Cell, Game, GameModel};
use crate::game::lemma_flat_index;

verus! {

/// Number of guess cells among the first `c` columns of `row`.
pub open spec fn row_guesses_upto(m: GameModel, row: int, c: int) -> nat
    decreases c,
{
    if c <= 0 {
        0
    } else {
        row_guesses_upto(m, row, c - 1) + (if m.cell(row, c - 1) is Guess {
            1nat
        } else {
            0nat
        })
    }
}

/// No `Empty` cell among the first `c` columns of `row`.
pub open spec fn row_filled_upto(m: GameModel, row: int, c: int) -> bool
    decreases c,
{
    if c <= 0 {
        true
    } else {
        row_filled_upto(m, row, c - 1) && m.cell(row, c - 1) != Cell::Empty
    }
}

/// Points of player `p` from the first `c` columns of `row`, counting each
/// guess cell whose number equals the row's total guess count.
pub open spec fn row_points_upto(m: GameModel, row: int, c: int, p: int) -> nat
    decreases c,
{
    if c <= 0 {
        0
    } else {
        row_points_upto(m, row, c - 1, p) + ({
            let cl = m.cell(row, c - 1);
            if cl is Guess && cl->Guess_0 == p && cl->Guess_1 == row_guesses_upto(
                m,
                row,
                m.ncols as int,
            ) {
                cl->Guess_1 as nat
            } else {
                0nat
            }
        })
    }
}

/// Points player `p` earns from `row`: nothing unless the row is fully
/// written, else one award of `n` per guess cell of `p` whose number equals
/// the row's guess count `n`.
pub open spec fn row_score(m: GameModel, row: int, p: int) -> nat {
    if row_filled_upto(m, row, m.ncols as int) {
        row_points_upto(m, row, m.ncols as int, p)
    } else {
        0
    }
}

/// Points of player `p` over the first `r` rows.
pub open spec fn rows_score_upto(m: GameModel, r: int, p: int) -> nat
    decreases r,
{
    if r <= 0 {
        0
    } else {
        rows_score_upto(m, r - 1, p) + row_score(m, r - 1, p)
    }
}

/// Number of guess cells among the first `r` rows of column `col`.
pub open spec fn col_guesses_upto(m: GameModel, col: int, r: int) -> nat
    decreases r,
{
    if r <= 0 {
        0
    } else {
        col_guesses_upto(m, col, r - 1) + (if m.cell(r - 1, col) is Guess {
            1nat
        } else {
            0nat
        })
    }
}

/// No `Empty` cell among the first `r` rows of column `col`.
pub open spec fn col_filled_upto(m: GameModel, col: int, r: int) -> bool
    decreases r,
{
    if r <= 0 {
        true
    } else {
        col_filled_upto(m, col, r - 1) && m.cell(r - 1, col) != Cell::Empty
    }
}

/// Points of player `p` from the first `r` rows of column `col`.
pub open spec fn col_points_upto(m: GameModel, col: int, r: int, p: int) -> nat
    decreases r,
{
    if r <= 0 {
        0
    } else {
        col_points_upto(m, col, r - 1, p) + ({
            let cl = m.cell(r - 1, col);
            if cl is Guess && cl->Guess_0 == p && cl->Guess_1 == col_guesses_upto(
                m,
                col,
                m.nrows as int,
            ) {
                cl->Guess_1 as nat
            } else {
                0nat
            }
        })
    }
}

/// Points player `p` earns from column `col`.
pub open spec fn col_score(m: GameModel, col: int, p: int) -> nat {
    if col_filled_upto(m, col, m.nrows as int) {
        col_points_upto(m, col, m.nrows as int, p)
    } else {
        0
    }
}

/// Points of player `p` over the first `c` columns.
pub open spec fn cols_score_upto(m: GameModel, c: int, p: int) -> nat
    decreases c,
{
    if c <= 0 {
        0
    } else {
        cols_score_upto(m, c - 1, p) + col_score(m, c - 1, p)
    }
}

/// The total score of player `p`: rows and columns are scored independently
/// and added, so one cell can contribute to both its row and its column.
pub open spec fn score(m: GameModel, p: int) -> nat {
    rows_score_upto(m, m.nrows as int, p) + cols_score_upto(m, m.ncols as int, p)
}

proof fn lemma_row_guesses_bound(m: GameModel, row: int, c: int)
    requires
        c >= 0,
    ensures
        row_guesses_upto(m, row, c) <= c,
    decreases c,
{
    if c > 0 {
        lemma_row_guesses_bound(m, row, c - 1);
    }
}

proof fn lemma_col_guesses_bound(m: GameModel, col: int, r: int)
    requires
        r >= 0,
    ensures
        col_guesses_upto(m, col, r) <= r,
    decreases r,
{
    if r > 0 {
        lemma_col_guesses_bound(m, col, r - 1);
    }
}

proof fn lemma_row_points_bound(m: GameModel, row: int, c: int, p: int)
    requires
        c >= 0,
    ensures
        row_points_upto(m, row, c, p) <= c * m.ncols,
    decreases c,
{
    if c > 0 {
        lemma_row_points_bound(m, row, c - 1, p);
        lemma_row_guesses_bound(m, row, m.ncols as int);
        assert((c - 1) * m.ncols + m.ncols == c * m.ncols) by (nonlinear_arith);
    }
}

proof fn lemma_col_points_bound(m: GameModel, col: int, r: int, p: int)
    requires
        r >= 0,
    ensures
        col_points_upto(m, col, r, p) <= r * m.nrows,
    decreases r,
{
    if r > 0 {
        lemma_col_points_bound(m, col, r - 1, p);
        lemma_col_guesses_bound(m, col, m.nrows as int);
        assert((r - 1) * m.nrows + m.nrows == r * m.nrows) by (nonlinear_arith);
    }
}

proof fn lemma_rows_score_bound(m: GameModel, r: int, p: int)
    requires
        r >= 0,
    ensures
        rows_score_upto(m, r, p) <= r * (m.ncols * m.ncols),
    decreases r,
{
    if r > 0 {
        lemma_rows_score_bound(m, r - 1, p);
        lemma_row_points_bound(m, r - 1, m.ncols as int, p);
        assert((r - 1) * (m.ncols * m.ncols) + m.ncols * m.ncols == r * (m.ncols * m.ncols))
            by (nonlinear_arith);
    }
}

proof fn lemma_cols_score_bound(m: GameModel, c: int, p: int)
    requires
        c >= 0,
    ensures
        cols_score_upto(m, c, p) <= c * (m.nrows * m.nrows),
    decreases c,
{
    if c > 0 {
        lemma_cols_score_bound(m, c - 1, p);
        lemma_col_points_bound(m, c - 1, m.nrows as int, p);
        assert((c - 1) * (m.nrows * m.nrows) + m.nrows * m.nrows == c * (m.nrows * m.nrows))
            by (nonlinear_arith);
    }
}

impl Game {
    /// Compute both players' scores. For every fully written row, each guess
    /// cell whose number equals the row's guess count awards that number to
    /// its player; every fully written column is scored the same way,
    /// independently and additively. Partially written lines award nothing.
    /// The result is a pure function of the board, so repeated calls agree.
    #[verifier::loop_isolation(false)]
    pub fn get_scores(&self) -> (r: [usize; 2])
        requires
            self@.wf(),
            self@.players_valid(),
            (self@.nrows * self@.ncols) * (self@.nrows + self@.ncols) <= usize::MAX,
        ensures
            r[0] == score(self@, 0),
            r[1] == score(self@, 1),
    {
        let ghost m = self@;
        let mut s0: usize = 0;
        let mut s1: usize = 0;
        proof {
            assert(m.nrows * (m.ncols * m.ncols) + m.ncols * (m.nrows * m.nrows) == (m.nrows
                * m.ncols) * (m.nrows + m.ncols)) by (nonlinear_arith);
        }
        let mut row: usize = 0;
        while row < self.nrows
            invariant
                row <= m.nrows,
                s0 == rows_score_upto(m, row as int, 0),
                s1 == rows_score_upto(m, row as int, 1),
            decreases m.nrows - row,
        {
            let mut is_full = true;
            let mut num_guesses: usize = 0;
            let mut col: usize = 0;
            while col < self.ncols
                invariant
                    col <= m.ncols,
                    num_guesses == row_guesses_upto(m, row as int, col as int),
                    num_guesses <= col,
                    is_full == row_filled_upto(m, row as int, col as int),
                decreases m.ncols - col,
            {
                match *self.get_cell(row, col) {
                    Cell::Empty => {
                        is_full = false;
                    },
                    Cell::Guess(_, _) => {
                        num_guesses = num_guesses + 1;
                    },
                    Cell::CrossedOut => {},
                }
                col = col + 1;
            }
            if is_full {
                proof {
                    lemma_rows_score_bound(m, row as int, 0);
                    lemma_rows_score_bound(m, row as int, 1);
                    assert(row * (m.ncols * m.ncols) <= m.nrows * (m.ncols * m.ncols))
                        by (nonlinear_arith)
                        requires
                            0 <= row <= m.nrows,
                            m.ncols >= 0,
                    ;
                }
                let mut col2: usize = 0;
                while col2 < self.ncols
                    invariant
                        col2 <= m.ncols,
                        num_guesses == row_guesses_upto(m, row as int, m.ncols as int),
                        s0 == rows_score_upto(m, row as int, 0) + row_points_upto(
                            m,
                            row as int,
                            col2 as int,
                            0,
                        ),
                        s1 == rows_score_upto(m, row as int, 1) + row_points_upto(
                            m,
                            row as int,
                            col2 as int,
                            1,
                        ),
                    decreases m.ncols - col2,
                {
                    proof {
                        lemma_rows_score_bound(m, row as int, 0);
                        lemma_rows_score_bound(m, row as int, 1);
                        lemma_row_points_bound(m, row as int, col2 as int, 0);
                        lemma_row_points_bound(m, row as int, col2 as int, 1);
                        lemma_row_guesses_bound(m, row as int, m.ncols as int);
                        assert(row * (m.ncols * m.ncols) + col2 * m.ncols + m.ncols <= m.nrows * (
                        m.ncols * m.ncols) + m.ncols * (m.nrows * m.nrows)) by (nonlinear_arith)
                            requires
                                0 <= row < m.nrows,
                                0 <= col2 < m.ncols,
                                m.nrows >= 1,
                        ;
                    }
                    if let Cell::Guess(player, guess_num) = *self.get_cell(row, col2) {
                        proof {
                            lemma_flat_index(m, row as int, col2 as int);
                            assert(m.cell(row as int, col2 as int) == m.cells[m.flat(
                                row as int,
                                col2 as int,
                            )]);
                            assert(player < 2);
                        }
                        if guess_num == num_guesses {
                            if player == 0 {
                                s0 = s0 + guess_num;
                            } else {
                                s1 = s1 + guess_num;
                            }
                        }
                    }
                    col2 = col2 + 1;
                }
            }
            row = row + 1;
        }
        proof {
            lemma_rows_score_bound(m, m.nrows as int, 0);
            lemma_rows_score_bound(m, m.nrows as int, 1);
        }
        let mut col: usize = 0;
        while col < self.ncols
            invariant
                col <= m.ncols,
                s0 == rows_score_upto(m, m.nrows as int, 0) + cols_score_upto(m, col as int, 0),
                s1 == rows_score_upto(m, m.nrows as int, 1) + cols_score_upto(m, col as int, 1),
            decreases m.ncols - col,
        {
            let mut is_full = true;
            let mut num_guesses: usize = 0;
            let mut row2: usize = 0;
            while row2 < self.nrows
                invariant
                    row2 <= m.nrows,
                    num_guesses == col_guesses_upto(m, col as int, row2 as int),
                    num_guesses <= row2,
                    is_full == col_filled_upto(m, col as int, row2 as int),
                decreases m.nrows - row2,
            {
                match *self.get_cell(row2, col) {
                    Cell::Empty => {
                        is_full = false;
                    },
                    Cell::Guess(_, _) => {
                        num_guesses = num_guesses + 1;
                    },
                    Cell::CrossedOut => {},
                }
                row2 = row2 + 1;
            }
            if is_full {
                let mut row3: usize = 0;
                while row3 < self.nrows
                    invariant
                        row3 <= m.nrows,
                        num_guesses == col_guesses_upto(m, col as int, m.nrows as int),
                        s0 == rows_score_upto(m, m.nrows as int, 0) + cols_score_upto(
                            m,
                            col as int,
                            0,
                        ) + col_points_upto(m, col as int, row3 as int, 0),
                        s1 == rows_score_upto(m, m.nrows as int, 1) + cols_score_upto(
                            m,
                            col as int,
                            1,
                        ) + col_points_upto(m, col as int, row3 as int, 1),
                    decreases m.nrows - row3,
                {
                    proof {
                        lemma_rows_score_bound(m, m.nrows as int, 0);
                        lemma_rows_score_bound(m, m.nrows as int, 1);
                        lemma_cols_score_bound(m, col as int, 0);
                        lemma_cols_score_bound(m, col as int, 1);
                        lemma_col_points_bound(m, col as int, row3 as int, 0);
                        lemma_col_points_bound(m, col as int, row3 as int, 1);
                        lemma_col_guesses_bound(m, col as int, m.nrows as int);
                        assert(m.nrows * (m.ncols * m.ncols) + col * (m.nrows * m.nrows) + row3
                            * m.nrows + m.nrows <= m.nrows * (m.ncols * m.ncols) + m.ncols * (
                        m.nrows * m.nrows)) by (nonlinear_arith)
                            requires
                                0 <= col < m.ncols,
                                0 <= row3 < m.nrows,
                                m.ncols >= 1,
                        ;
                    }
                    if let Cell::Guess(player, guess_num) = *self.get_cell(row3, col) {
                        proof {
                            lemma_flat_index(m, row3 as int, col as int);
                            assert(m.cell(row3 as int, col as int) == m.cells[m.flat(
                                row3 as int,
                                col as int,
                            )]);
                            assert(player < 2);
                        }
                        if guess_num == num_guesses {
                            if player == 0 {
                                s0 = s0 + guess_num;
                            } else {
                                s1 = s1 + guess_num;
                            }
                        }
                    }
                    row3 = row3 + 1;
                }
            }
            col = col + 1;
        }
        [s0, s1]
    }
}

/// Law: scoring is a pure function of the board, so any two results that
/// `get_scores` may return for the same position are identical.
pub proof fn lemma_scores_deterministic(m: GameModel, r1: [usize; 2], r2: [usize; 2])
    requires
        r1[0] == score(m, 0),
        r1[1] == score(m, 1),
        r2[0] == score(m, 0),
        r2[1] == score(m, 1),
    ensures
        r1[0] == r2[0],
        r1[1] == r2[1],
{
}

/// The transposed position: rows and columns swap roles, the player to move
/// is unchanged.
pub open spec fn transpose(m: GameModel) -> GameModel {
    GameModel {
        active: m.active,
        nrows: m.ncols,
        ncols: m.nrows,
        cells: Seq::new(
            m.cells.len(),
            |i: int| m.cells[(i % m.nrows as int) * m.ncols as int + i / m.nrows as int],
        ),
    }
}

/// The cell of the transpose at `(r, c)` is the cell of the original at
/// `(c, r)`.
pub proof fn lemma_transpose_cell(m: GameModel, r: int, c: int)
    requires
        m.wf(),
        0 <= r < m.ncols,
        0 <= c < m.nrows,
    ensures
        transpose(m).cell(r, c) == m.cell(c, r),
{
    let t = transpose(m);
    let i = r * m.nrows as int + c;
    assert(m.nrows * m.ncols == m.ncols * m.nrows) by (nonlinear_arith);
    assert(0 <= r * m.nrows as int + c < m.ncols * m.nrows) by (nonlinear_arith)
        requires
            0 <= r < m.ncols,
            0 <= c < m.nrows,
    ;
    vstd::arithmetic::div_mod::lemma_fundamental_div_mod_converse(i, m.nrows as int, r, c);
    assert(t.cell(r, c) == t.cells[i]);
    assert(t.cells[i] == m.cells[c * m.ncols as int + r]);
    assert(t.cell(r, c) == m.cell(c, r));
}

proof fn lemma_transpose_row_guesses(m: GameModel, row: int, c: int)
    requires
        m.wf(),
        0 <= row < m.ncols,
        0 <= c <= m.nrows,
    ensures
        row_guesses_upto(transpose(m), row, c) == col_guesses_upto(m, row, c),
    decreases c,
{
    if c > 0 {
        lemma_transpose_row_guesses(m, row, c - 1);
        lemma_transpose_cell(m, row, c - 1);
    }
}

proof fn lemma_transpose_row_filled(m: GameModel, row: int, c: int)
    requires
        m.wf(),
        0 <= row < m.ncols,
        0 <= c <= m.nrows,
    ensures
        row_filled_upto(transpose(m), row, c) == col_filled_upto(m, row, c),
    decreases c,
{
    if c > 0 {
        lemma_transpose_row_filled(m, row, c - 1);
        lemma_transpose_cell(m, row, c - 1);
    }
}

proof fn lemma_transpose_row_points(m: GameModel, row: int, c: int, p: int)
    requires
        m.wf(),
        0 <= row < m.ncols,
        0 <= c <= m.nrows,
    ensures
        row_points_upto(transpose(m), row, c, p) == col_points_upto(m, row, c, p),
    decreases c,
{
    lemma_transpose_row_guesses(m, row, m.nrows as int);
    if c > 0 {
        lemma_transpose_row_points(m, row, c - 1, p);
        lemma_transpose_cell(m, row, c - 1);
    }
}

proof fn lemma_transpose_rows_score(m: GameModel, r: int, p: int)
    requires
        m.wf(),
        0 <= r <= m.ncols,
    ensures
        rows_score_upto(transpose(m), r, p) == cols_score_upto(m, r, p),
    decreases r,
{
    if r > 0 {
        lemma_transpose_rows_score(m, r - 1, p);
        lemma_transpose_row_filled(m, r - 1, m.nrows as int);
        lemma_transpose_row_points(m, r - 1, m.nrows as int, p);
    }
}

proof fn lemma_transpose_col_guesses(m: GameModel, col: int, r: int)
    requires
        m.wf(),
        0 <= col < m.nrows,
        0 <= r <= m.ncols,
    ensures
        col_guesses_upto(transpose(m), col, r) == row_guesses_upto(m, col, r),
    decreases r,
{
    if r > 0 {
        lemma_transpose_col_guesses(m, col, r - 1);
        lemma_transpose_cell(m, r - 1, col);
    }
}

proof fn lemma_transpose_col_filled(m: GameModel, col: int, r: int)
    requires
        m.wf(),
        0 <= col < m.nrows,
        0 <= r <= m.ncols,
    ensures
        col_filled_upto(transpose(m), col, r) == row_filled_upto(m, col, r),
    decreases r,
{
    if r > 0 {
        lemma_transpose_col_filled(m, col, r - 1);
        lemma_transpose_cell(m, r - 1, col);
    }
}

proof fn lemma_transpose_col_points(m: GameModel, col: int, r: int, p: int)
    requires
        m.wf(),
        0 <= col < m.nrows,
        0 <= r <= m.ncols,
    ensures
        col_points_upto(transpose(m), col, r, p) == row_points_upto(m, col, r, p),
    decreases r,
{
    lemma_transpose_col_guesses(m, col, m.ncols as int);
    if r > 0 {
        lemma_transpose_col_points(m, col, r - 1, p);
        lemma_transpose_cell(m, r - 1, col);
    }
}

proof fn lemma_transpose_cols_score(m: GameModel, c: int, p: int)
    requires
        m.wf(),
        0 <= c <= m.nrows,
    ensures
        cols_score_upto(transpose(m), c, p) == rows_score_upto(m, c, p),
    decreases c,
{
    if c > 0 {
        lemma_transpose_cols_score(m, c - 1, p);
        lemma_transpose_col_filled(m, c - 1, m.ncols as int);
        lemma_transpose_col_points(m, c - 1, m.ncols as int, p);
    }
}

/// Law: transposing the board leaves both players' scores unchanged, because
/// the rows of the transpose are scored exactly as the columns of the
/// original and vice versa.
pub proof fn lemma_transpose_scores(m: GameModel, p: int)
    requires
        m.wf(),
    ensures
        score(transpose(m), p) == score(m, p),
{
    lemma_transpose_rows_score(m, m.ncols as int, p);
    lemma_transpose_cols_score(m, m.nrows as int, p);
}

} // verus!
