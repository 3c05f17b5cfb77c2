use vstd::prelude::*;

use crate::game::{Action, Cell, Game, GameModel};
use crate::game::{lemma_flat_index, lemma_flat_inverse};

verus! {

/// The fixed set of reasons for which a move is rejected. Exactly one of them
/// is reported, in the order the legality test checks them.
#[derive(Copy, Clone, Debug, PartialEq, Eq, Structural)]
pub enum MoveError {
    RowOutOfBounds,
    ColOutOfBounds,
    Occupied,
    EraseAttempt,
    WrongPlayer,
    GuessZero,
    GuessTooLarge,
    DuplicateGuess,
}

impl MoveError {
    /// The sentence reported for each rejection reason.
    pub open spec fn message_spec(self) -> Seq<char> {
        match self {
            MoveError::RowOutOfBounds => "Row is out of bounds"@,
            MoveError::ColOutOfBounds => "Column is out of bounds"@,
            MoveError::Occupied => "Cannot place on a non-empty square"@,
            MoveError::EraseAttempt => "Cannot erase a square"@,
            MoveError::WrongPlayer => "Cannot place a guess for your opponent"@,
            MoveError::GuessZero => "Cannot guess 0"@,
            MoveError::GuessTooLarge => "Guess cannot be larger than both the grid's width and height"@,
            MoveError::DuplicateGuess => "Only one of each guess value per row/column"@,
        }
    }

    /// A human-readable sentence for each rejection reason.
    pub fn message(&self) -> (r: &'static str)
        ensures
            r@ == self.message_spec(),
    {
        match self {
            MoveError::RowOutOfBounds => "Row is out of bounds",
            MoveError::ColOutOfBounds => "Column is out of bounds",
            MoveError::Occupied => "Cannot place on a non-empty square",
            MoveError::EraseAttempt => "Cannot erase a square",
            MoveError::WrongPlayer => "Cannot place a guess for your opponent",
            MoveError::GuessZero => "Cannot guess 0",
            MoveError::GuessTooLarge => "Guess cannot be larger than both the grid's width and height",
            MoveError::DuplicateGuess => "Only one of each guess value per row/column",
        }
    }
}

/// A rejected placement: the board it was attempted on, the attempted
/// coordinates and cell, and the reason. Diagnostics only: the search never
/// provokes one.
#[derive(Debug)]
pub struct IllegalMoveError {
    pub game: Game,
    pub row: usize,
    pub col: usize,
    pub cell: Cell,
    pub reason: MoveError,
}

/// Some guess cell sharing `row` or `col` already holds the number `num`.
pub open spec fn guess_conflict(m: GameModel, row: int, col: int, num: int) -> bool {
    exists|r: int, c: int|
        m.in_bounds(r, c) && (r == row || c == col) && ((#[trigger] m.cell(r, c)) matches Cell::Guess(
            _,
            n,
        ) && n == num)
}

/// The verdict of the legality test: `None` for a legal move, otherwise the
/// first reason, in checking order, for which it fails.
pub open spec fn move_error(m: GameModel, row: int, col: int, cell: Cell) -> Option<MoveError> {
    if !(0 <= row < m.nrows) {
        Some(MoveError::RowOutOfBounds)
    } else if !(0 <= col < m.ncols) {
        Some(MoveError::ColOutOfBounds)
    } else if m.cell(row, col) != Cell::Empty {
        Some(MoveError::Occupied)
    } else {
        match cell {
            Cell::Empty => Some(MoveError::EraseAttempt),
            Cell::CrossedOut => None,
            Cell::Guess(p, n) => if p != m.active {
                Some(MoveError::WrongPlayer)
            } else if n == 0 {
                Some(MoveError::GuessZero)
            } else if n > m.max_guess() {
                Some(MoveError::GuessTooLarge)
            } else if guess_conflict(m, row, col, n as int) {
                Some(MoveError::DuplicateGuess)
            } else {
                None
            },
        }
    }
}

/// A move is legal when the legality test finds nothing wrong with it.
pub open spec fn is_legal(m: GameModel, row: int, col: int, cell: Cell) -> bool {
    move_error(m, row, col, cell) is None
}

impl Game {
    /// The legality test: `Ok` exactly when the move is legal, otherwise the
    /// first failing reason. Crossing out is legal on any empty in-bounds
    /// cell; a guess must further be the active player's, have a number in
    /// `1..=max(nrows, ncols)`, and not repeat a number already guessed in
    /// its row or column.
    #[verifier::loop_isolation(false)]
    pub fn is_legal_move(&self, row: usize, col: usize, cell: &Cell) -> (r: Result<(), MoveError>)
        requires
            self@.wf(),
        ensures
            r is Ok <==> is_legal(self@, row as int, col as int, *cell),
            r matches Err(e) ==> move_error(self@, row as int, col as int, *cell) == Some(e),
    {
        let ghost m = self@;
        if row >= self.nrows {
            return Err(MoveError::RowOutOfBounds);
        }
        if col >= self.ncols {
            return Err(MoveError::ColOutOfBounds);
        }
        if *self.get_cell(row, col) != Cell::Empty {
            return Err(MoveError::Occupied);
        }
        match *cell {
            Cell::Empty => Err(MoveError::EraseAttempt),
            Cell::CrossedOut => Ok(()),
            Cell::Guess(player, guess_num) => {
                if player != self.active_player {
                    return Err(MoveError::WrongPlayer);
                }
                if guess_num == 0 {
                    return Err(MoveError::GuessZero);
                }
                let max_guess = if self.nrows >= self.ncols {
                    self.nrows
                } else {
                    self.ncols
                };
                if guess_num > max_guess {
                    return Err(MoveError::GuessTooLarge);
                }
                let mut c2: usize = 0;
                while c2 < self.ncols
                    invariant
                        c2 <= m.ncols,
                        forall|j: int|
                            0 <= j < c2 ==> !((#[trigger] m.cell(row as int, j)) matches Cell::Guess(
                                _,
                                n,
                            ) && n == guess_num),
                    decreases m.ncols - c2,
                {
                    match *self.get_cell(row, c2) {
                        Cell::Guess(_, other) => {
                            if other == guess_num {
                                proof {
                                    assert(m.cell(row as int, c2 as int) matches Cell::Guess(_, n)
                                        && n == guess_num);
                                }
                                return Err(MoveError::DuplicateGuess);
                            }
                        },
                        _ => {},
                    }
                    c2 = c2 + 1;
                }
                let mut r2: usize = 0;
                while r2 < self.nrows
                    invariant
                        r2 <= m.nrows,
                        forall|j: int|
                            0 <= j < r2 ==> !((#[trigger] m.cell(j, col as int)) matches Cell::Guess(
                                _,
                                n,
                            ) && n == guess_num),
                    decreases m.nrows - r2,
                {
                    match *self.get_cell(r2, col) {
                        Cell::Guess(_, other) => {
                            if other == guess_num {
                                proof {
                                    assert(m.cell(r2 as int, col as int) matches Cell::Guess(_, n)
                                        && n == guess_num);
                                }
                                return Err(MoveError::DuplicateGuess);
                            }
                        },
                        _ => {},
                    }
                    r2 = r2 + 1;
                }
                proof {
                    assert forall|r: int, c: int|
                        m.in_bounds(r, c) && (r == row as int || c == col as int) implies !((
                    #[trigger] m.cell(r, c)) matches Cell::Guess(_, n) && n == guess_num) by {
                        if r == row as int {
                            assert(!(m.cell(row as int, c) matches Cell::Guess(_, n) && n
                                == guess_num));
                        } else {
                            assert(!(m.cell(r, col as int) matches Cell::Guess(_, n) && n
                                == guess_num));
                        }
                    }
                }
                Ok(())
            },
        }
    }
}

/// The cross-out candidate at `(row, col)`, kept only if legal.
pub open spec fn crossout_actions(m: GameModel, row: int, col: int) -> Seq<Action> {
    if is_legal(m, row, col, Cell::CrossedOut) {
        seq![
            Action { row: row as usize, col: col as usize, cell: Cell::CrossedOut },
        ]
    } else {
        Seq::empty()
    }
}

/// The legal guess candidates for the active player at `(row, col)` with
/// numbers in `1..=k`, in ascending number order.
pub open spec fn guess_actions(m: GameModel, row: int, col: int, k: int) -> Seq<Action>
    decreases k,
{
    if k <= 0 {
        Seq::empty()
    } else {
        guess_actions(m, row, col, k - 1) + (if is_legal(
            m,
            row,
            col,
            Cell::Guess(m.active as usize, k as usize),
        ) {
            seq![
                Action {
                    row: row as usize,
                    col: col as usize,
                    cell: Cell::Guess(m.active as usize, k as usize),
                },
            ]
        } else {
            Seq::empty()
        })
    }
}

/// All legal actions at one cell: the cross-out first, then the guesses in
/// ascending number order.
pub open spec fn cell_actions(m: GameModel, row: int, col: int) -> Seq<Action> {
    crossout_actions(m, row, col) + guess_actions(m, row, col, m.max_guess())
}

/// The legal actions of row `row` over its first `c` columns.
pub open spec fn row_actions(m: GameModel, row: int, c: int) -> Seq<Action>
    decreases c,
{
    if c <= 0 {
        Seq::empty()
    } else {
        row_actions(m, row, c - 1) + cell_actions(m, row, c - 1)
    }
}

/// The legal actions of the first `r` rows, in row-major cell order.
pub open spec fn rows_actions(m: GameModel, r: int) -> Seq<Action>
    decreases r,
{
    if r <= 0 {
        Seq::empty()
    } else {
        rows_actions(m, r - 1) + row_actions(m, r - 1, m.ncols as int)
    }
}

/// Every legal action of the position, in row-major cell order, the cross-out
/// before the guesses of a cell, and guesses in ascending number order.
pub open spec fn legal_actions(m: GameModel) -> Seq<Action> {
    rows_actions(m, m.nrows as int)
}

/// An element of a concatenation comes from one of the two parts.
proof fn seq_add_contains<T>(s1: Seq<T>, s2: Seq<T>, x: T)
    requires
        (s1 + s2).contains(x),
    ensures
        s1.contains(x) || s2.contains(x),
{
    let i = choose|i: int| 0 <= i < (s1 + s2).len() && (s1 + s2)[i] == x;
    if i < s1.len() {
        assert(s1[i] == x);
    } else {
        assert(s2[i - s1.len()] == x);
    }
}

/// And conversely: each part's elements are in the concatenation.
proof fn seq_add_contains_left<T>(s1: Seq<T>, s2: Seq<T>, x: T)
    requires
        s1.contains(x),
    ensures
        (s1 + s2).contains(x),
{
    let i = choose|i: int| 0 <= i < s1.len() && s1[i] == x;
    assert((s1 + s2)[i] == x);
}

proof fn seq_add_contains_right<T>(s1: Seq<T>, s2: Seq<T>, x: T)
    requires
        s2.contains(x),
    ensures
        (s1 + s2).contains(x),
{
    let i = choose|i: int| 0 <= i < s2.len() && s2[i] == x;
    assert((s1 + s2)[s1.len() + i] == x);
}

/// When a move at `(row, col)` is legal both coordinates fit the machine, so
/// the round trip through `usize` in an `Action` loses nothing.
proof fn lemma_legal_coords_fit(m: GameModel, row: int, col: int, cell: Cell)
    requires
        m.wf(),
        is_legal(m, row, col, cell),
    ensures
        0 <= row <= usize::MAX,
        0 <= col <= usize::MAX,
{
    assert(0 <= row < m.nrows && 0 <= col < m.ncols);
    assert(m.nrows <= m.nrows * m.ncols) by (nonlinear_arith)
        requires
            m.ncols >= 1,
    ;
    assert(m.ncols <= m.nrows * m.ncols) by (nonlinear_arith)
        requires
            m.nrows >= 1,
    ;
}

proof fn lemma_guess_actions_legal(m: GameModel, row: int, col: int, k: int, a: Action)
    requires
        m.wf(),
        guess_actions(m, row, col, k).contains(a),
    ensures
        is_legal(m, a.row as int, a.col as int, a.cell),
        a.cell != Cell::Empty,
    decreases k,
{
    if k <= 0 {
    } else {
        let tail = if is_legal(m, row, col, Cell::Guess(m.active as usize, k as usize)) {
            seq![
                Action {
                    row: row as usize,
                    col: col as usize,
                    cell: Cell::Guess(m.active as usize, k as usize),
                },
            ]
        } else {
            Seq::<Action>::empty()
        };
        seq_add_contains(guess_actions(m, row, col, k - 1), tail, a);
        if guess_actions(m, row, col, k - 1).contains(a) {
            lemma_guess_actions_legal(m, row, col, k - 1, a);
        } else {
            assert(tail[0] == a);
            let cand = Cell::Guess(m.active as usize, k as usize);
            assert(is_legal(m, row, col, cand));
            lemma_legal_coords_fit(m, row, col, cand);
            assert(a.row as int == row && a.col as int == col);
        }
    }
}

proof fn lemma_cell_actions_legal(m: GameModel, row: int, col: int, a: Action)
    requires
        m.wf(),
        cell_actions(m, row, col).contains(a),
    ensures
        is_legal(m, a.row as int, a.col as int, a.cell),
        a.cell != Cell::Empty,
{
    seq_add_contains(crossout_actions(m, row, col), guess_actions(m, row, col, m.max_guess()), a);
    if crossout_actions(m, row, col).contains(a) {
        assert(crossout_actions(m, row, col)[0] == a);
        assert(is_legal(m, row, col, Cell::CrossedOut));
        lemma_legal_coords_fit(m, row, col, Cell::CrossedOut);
        assert(a.row as int == row && a.col as int == col);
    } else {
        lemma_guess_actions_legal(m, row, col, m.max_guess(), a);
    }
}

proof fn lemma_row_actions_legal(m: GameModel, row: int, c: int, a: Action)
    requires
        m.wf(),
        row_actions(m, row, c).contains(a),
    ensures
        is_legal(m, a.row as int, a.col as int, a.cell),
        a.cell != Cell::Empty,
    decreases c,
{
    if c <= 0 {
    } else {
        seq_add_contains(row_actions(m, row, c - 1), cell_actions(m, row, c - 1), a);
        if row_actions(m, row, c - 1).contains(a) {
            lemma_row_actions_legal(m, row, c - 1, a);
        } else {
            lemma_cell_actions_legal(m, row, c - 1, a);
        }
    }
}

/// Law: every action the enumerator yields passes the legality test, and is
/// never an erasure; `place` on such an action therefore always succeeds.
pub proof fn lemma_enumerated_actions_legal(m: GameModel, a: Action)
    requires
        m.wf(),
        legal_actions(m).contains(a),
    ensures
        is_legal(m, a.row as int, a.col as int, a.cell),
        a.cell != Cell::Empty,
{
    lemma_rows_actions_legal(m, m.nrows as int, a);
}

proof fn lemma_rows_actions_legal(m: GameModel, r: int, a: Action)
    requires
        m.wf(),
        rows_actions(m, r).contains(a),
    ensures
        is_legal(m, a.row as int, a.col as int, a.cell),
        a.cell != Cell::Empty,
    decreases r,
{
    if r <= 0 {
    } else {
        seq_add_contains(rows_actions(m, r - 1), row_actions(m, r - 1, m.ncols as int), a);
        if rows_actions(m, r - 1).contains(a) {
            lemma_rows_actions_legal(m, r - 1, a);
        } else {
            lemma_row_actions_legal(m, r - 1, m.ncols as int, a);
        }
    }
}

impl Game {
    /// Materialize every legal action of the position: for each empty cell in
    /// row-major order, a cross-out if legal, then each legal guess number in
    /// ascending order. The result reflects exactly the legality test.
    #[verifier::loop_isolation(false)]
    pub fn get_legal_actions(&self) -> (r: Vec<Action>)
        requires
            self@.wf(),
        ensures
            r@ == legal_actions(self@),
    {
        let ghost m = self@;
        let mut v: Vec<Action> = Vec::new();
        let max_guess = if self.nrows >= self.ncols {
            self.nrows
        } else {
            self.ncols
        };
        let mut row: usize = 0;
        while row < self.nrows
            invariant
                row <= m.nrows,
                v@ == rows_actions(m, row as int),
            decreases m.nrows - row,
        {
            let mut col: usize = 0;
            while col < self.ncols
                invariant
                    col <= m.ncols,
                    v@ == rows_actions(m, row as int) + row_actions(m, row as int, col as int),
                decreases m.ncols - col,
            {
                match self.is_legal_move(row, col, &Cell::CrossedOut) {
                    Ok(()) => {
                        v.push(Action { row, col, cell: Cell::CrossedOut });
                    },
                    Err(_) => {},
                }
                proof {
                    assert(v@ =~= rows_actions(m, row as int) + row_actions(
                        m,
                        row as int,
                        col as int,
                    ) + crossout_actions(m, row as int, col as int));
                }
                let mut k: usize = 0;
                while k < max_guess
                    invariant
                        k <= max_guess,
                        v@ == rows_actions(m, row as int) + row_actions(m, row as int, col as int)
                            + crossout_actions(m, row as int, col as int) + guess_actions(
                            m,
                            row as int,
                            col as int,
                            k as int,
                        ),
                    decreases max_guess - k,
                {
                    let num = k + 1;
                    let cand = Cell::Guess(self.active_player, num);
                    proof {
                        assert(cand == Cell::Guess(m.active as usize, (num as int) as usize));
                    }
                    match self.is_legal_move(row, col, &cand) {
                        Ok(()) => {
                            v.push(Action { row, col, cell: cand });
                        },
                        Err(_) => {},
                    }
                    proof {
                        assert(v@ =~= rows_actions(m, row as int) + row_actions(
                            m,
                            row as int,
                            col as int,
                        ) + crossout_actions(m, row as int, col as int) + guess_actions(
                            m,
                            row as int,
                            col as int,
                            num as int,
                        ));
                    }
                    k = num;
                }
                proof {
                    assert(v@ =~= rows_actions(m, row as int) + row_actions(
                        m,
                        row as int,
                        col as int + 1,
                    ));
                }
                col = col + 1;
            }
            proof {
                assert(v@ =~= rows_actions(m, row as int + 1));
            }
            row = row + 1;
        }
        v
    }
}

proof fn lemma_guess_actions_complete(m: GameModel, row: int, col: int, k: int, n: int)
    requires
        m.wf(),
        1 <= n <= k,
        is_legal(m, row, col, Cell::Guess(m.active as usize, n as usize)),
    ensures
        guess_actions(m, row, col, k).contains(
            Action {
                row: row as usize,
                col: col as usize,
                cell: Cell::Guess(m.active as usize, n as usize),
            },
        ),
    decreases k,
{
    let a = Action {
        row: row as usize,
        col: col as usize,
        cell: Cell::Guess(m.active as usize, n as usize),
    };
    if n == k {
        let tail = seq![
            Action {
                row: row as usize,
                col: col as usize,
                cell: Cell::Guess(m.active as usize, k as usize),
            },
        ];
        assert(guess_actions(m, row, col, k) == guess_actions(m, row, col, k - 1) + tail);
        assert(tail[0] == a);
        seq_add_contains_right(guess_actions(m, row, col, k - 1), tail, a);
    } else {
        lemma_guess_actions_complete(m, row, col, k - 1, n);
        let tail = if is_legal(m, row, col, Cell::Guess(m.active as usize, k as usize)) {
            seq![
                Action {
                    row: row as usize,
                    col: col as usize,
                    cell: Cell::Guess(m.active as usize, k as usize),
                },
            ]
        } else {
            Seq::<Action>::empty()
        };
        seq_add_contains_left(guess_actions(m, row, col, k - 1), tail, a);
    }
}

proof fn lemma_row_actions_complete(m: GameModel, row: int, col: int, c: int, a: Action)
    requires
        0 <= col < c,
        cell_actions(m, row, col).contains(a),
    ensures
        row_actions(m, row, c).contains(a),
    decreases c,
{
    if col == c - 1 {
        seq_add_contains_right(row_actions(m, row, c - 1), cell_actions(m, row, c - 1), a);
    } else {
        lemma_row_actions_complete(m, row, col, c - 1, a);
        seq_add_contains_left(row_actions(m, row, c - 1), cell_actions(m, row, c - 1), a);
    }
}

proof fn lemma_rows_actions_complete(m: GameModel, row: int, r: int, a: Action)
    requires
        0 <= row < r,
        row_actions(m, row, m.ncols as int).contains(a),
    ensures
        rows_actions(m, r).contains(a),
    decreases r,
{
    if row == r - 1 {
        seq_add_contains_right(rows_actions(m, r - 1), row_actions(m, r - 1, m.ncols as int), a);
    } else {
        lemma_rows_actions_complete(m, row, r - 1, a);
        seq_add_contains_left(rows_actions(m, r - 1), row_actions(m, r - 1, m.ncols as int), a);
    }
}

/// Law: the enumerator misses nothing. Every legal non-erasing placement is
/// among the enumerated actions; with [`lemma_enumerated_actions_legal`] the
/// enumeration is exactly the set of legal moves.
pub proof fn lemma_legal_actions_complete(m: GameModel, a: Action)
    requires
        m.wf(),
        is_legal(m, a.row as int, a.col as int, a.cell),
        a.cell != Cell::Empty,
    ensures
        legal_actions(m).contains(a),
{
    let row = a.row as int;
    let col = a.col as int;
    lemma_legal_coords_fit(m, row, col, a.cell);
    match a.cell {
        Cell::Empty => {},
        Cell::CrossedOut => {
            assert(crossout_actions(m, row, col)[0] == a);
            assert(crossout_actions(m, row, col).contains(a));
            seq_add_contains_left(
                crossout_actions(m, row, col),
                guess_actions(m, row, col, m.max_guess()),
                a,
            );
        },
        Cell::Guess(p, n) => {
            assert(p == m.active && 1 <= n <= m.max_guess());
            assert(Cell::Guess(m.active as usize, (n as int) as usize) == a.cell);
            lemma_guess_actions_complete(m, row, col, m.max_guess(), n as int);
            seq_add_contains_right(
                crossout_actions(m, row, col),
                guess_actions(m, row, col, m.max_guess()),
                a,
            );
        },
    }
    lemma_row_actions_complete(m, row, col, m.ncols as int, a);
    lemma_rows_actions_complete(m, row, m.nrows as int, a);
}

/// Law: a board that is not finished always offers a move — crossing out any
/// empty cell is legal — so the enumeration is empty exactly on finished
/// boards.
pub proof fn lemma_unfinished_has_actions(m: GameModel)
    requires
        m.wf(),
        !m.finished(),
    ensures
        legal_actions(m).len() > 0,
{
    let i = choose|i: int| 0 <= i < m.cells.len() && m.cells[i] == Cell::Empty;
    lemma_flat_inverse(m, i);
    let row = i / m.ncols as int;
    let col = i % m.ncols as int;
    let a = Action { row: row as usize, col: col as usize, cell: Cell::CrossedOut };
    assert(m.cell(row, col) == Cell::Empty);
    assert(is_legal(m, row, col, Cell::CrossedOut));
    lemma_legal_coords_fit(m, row, col, Cell::CrossedOut);
    lemma_legal_actions_complete(m, a);
    let w = choose|w: int| 0 <= w < legal_actions(m).len() && legal_actions(m)[w] == a;
    assert(legal_actions(m).len() > 0);
}

/// Law: conversely, a finished board offers no move at all, since every
/// placement needs an empty target cell.
pub proof fn lemma_finished_has_no_actions(m: GameModel)
    requires
        m.wf(),
        m.finished(),
    ensures
        legal_actions(m).len() == 0,
{
    if legal_actions(m).len() > 0 {
        let a = legal_actions(m)[0];
        assert(legal_actions(m).contains(a));
        lemma_enumerated_actions_legal(m, a);
        lemma_flat_index(m, a.row as int, a.col as int);
        assert(m.cells[m.flat(a.row as int, a.col as int)] == Cell::Empty);
        assert(false);
    }
}

/// No guess number at all is legal for the active player at `(row, col)`:
/// the cell has become unusable and the cascade may void it.
pub open spec fn unusable(m: GameModel, row: int, col: int) -> bool {
    forall|j: int|
        1 <= j <= m.max_guess() ==> (#[trigger] move_error(
            m,
            row,
            col,
            Cell::Guess(m.active as usize, j as usize),
        )) is Some
}

/// After a guess at `(row, col)` on the already-mutated board `m`, the cell
/// with flat index `i` is voided by the cascade: it shares the moved-to row
/// or column, is still empty, and no guess remains legal there.
pub open spec fn should_cross(m: GameModel, row: int, col: int, i: int) -> bool {
    let r = i / m.ncols as int;
    let c = i % m.ncols as int;
    (r == row || c == col) && m.cells[i] == Cell::Empty && unusable(m, r, c)
}

/// The board after the elimination cascade that follows a guess at
/// `(row, col)`: every unusable empty cell in that row or column is crossed
/// out, simultaneously with respect to the post-placement board `m`.
pub open spec fn cascade(m: GameModel, row: int, col: int) -> Seq<Cell> {
    Seq::new(
        m.cells.len(),
        |i: int|
            if should_cross(m, row, col, i) {
                Cell::CrossedOut
            } else {
                m.cells[i]
            },
    )
}

/// The model right after writing `cell` at `(row, col)` and passing the turn.
pub open spec fn placed(m: GameModel, row: int, col: int, cell: Cell) -> GameModel {
    GameModel {
        active: (1 - m.active as int) as nat,
        cells: m.cells.update(m.flat(row, col), cell),
        ..m
    }
}

/// The full effect of a successful `place`: the cell is written, the turn
/// passes, and a guess additionally triggers the elimination cascade.
pub open spec fn place_result(m: GameModel, row: int, col: int, cell: Cell) -> GameModel {
    let p = placed(m, row, col, cell);
    if cell matches Cell::Guess(_, _) {
        GameModel { cells: cascade(p, row, col), ..p }
    } else {
        p
    }
}

/// Law: a legal placement, with its automatic elimination cascade, preserves
/// the uniqueness invariant: no two guess cells sharing a row or column hold
/// equal numbers. With the all-empty starting board this yields the invariant
/// after any sequence of legal placements.
pub proof fn lemma_place_preserves_no_dup(m: GameModel, row: int, col: int, cell: Cell)
    requires
        m.wf(),
        is_legal(m, row, col, cell),
        m.no_dup(),
    ensures
        place_result(m, row, col, cell).no_dup(),
{
    let f = place_result(m, row, col, cell);
    let idx = m.flat(row, col);
    lemma_flat_index(m, row, col);
    assert forall|r1: int, c1: int, r2: int, c2: int|
        f.in_bounds(r1, c1) && f.in_bounds(r2, c2) && (r1 != r2 || c1 != c2) && (r1 == r2 || c1
            == c2) implies !(#[trigger] f.cell(r1, c1) matches Cell::Guess(_, n1)
        && #[trigger] f.cell(r2, c2) matches Cell::Guess(_, n2) && n1 == n2) by {
        lemma_flat_index(m, r1, c1);
        lemma_flat_index(m, r2, c2);
        let i1 = m.flat(r1, c1);
        let i2 = m.flat(r2, c2);
        assert(i1 != i2);
        if f.cell(r1, c1) is Guess && f.cell(r2, c2) is Guess && f.cell(r1, c1)->Guess_1 == f.cell(
            r2,
            c2,
        )->Guess_1 {
            let n1 = f.cell(r1, c1)->Guess_1;
            let n2 = f.cell(r2, c2)->Guess_1;
            // a cell of f holding a guess either is the placed cell or held
            // the same guess in m already: the cascade writes only cross-outs
            let new1 = i1 == idx && cell == f.cell(r1, c1);
            let new2 = i2 == idx && cell == f.cell(r2, c2);
            assert(new1 || (m.cell(r1, c1) == f.cell(r1, c1) && i1 != idx));
            assert(new2 || (m.cell(r2, c2) == f.cell(r2, c2) && i2 != idx));
            if new1 {
                assert(r1 == row && c1 == col);
                assert(m.cell(r2, c2) is Guess && m.cell(r2, c2)->Guess_1 == n2);
                assert(guess_conflict(m, row, col, n2 as int));
                assert(cell is Guess && cell->Guess_1 == n1);
                assert(move_error(m, row, col, cell) is Some);
                assert(false);
            } else if new2 {
                assert(r2 == row && c2 == col);
                assert(m.cell(r1, c1) is Guess && m.cell(r1, c1)->Guess_1 == n1);
                assert(guess_conflict(m, row, col, n1 as int));
                assert(move_error(m, row, col, cell) is Some);
                assert(false);
            } else {
                assert(m.cell(r1, c1) is Guess && m.cell(r1, c1)->Guess_1 == n1);
                assert(m.cell(r2, c2) is Guess && m.cell(r2, c2)->Guess_1 == n2);
                assert(false);
            }
        }
    }
}

/// A legal placement changes neither the dimensions nor the validity of the
/// guess owners: every guess of the resulting board still belongs to player
/// 0 or 1, since the placed guess is the active player's.
pub proof fn lemma_place_keeps_players_valid(m: GameModel, row: int, col: int, cell: Cell)
    requires
        m.wf(),
        m.players_valid(),
        is_legal(m, row, col, cell),
    ensures
        place_result(m, row, col, cell).wf(),
        place_result(m, row, col, cell).players_valid(),
        place_result(m, row, col, cell).nrows == m.nrows,
        place_result(m, row, col, cell).ncols == m.ncols,
{
    lemma_flat_index(m, row, col);
    let f = place_result(m, row, col, cell);
    let p = placed(m, row, col, cell);
    let idx = m.flat(row, col);
    assert(f.cells.len() == m.cells.len());
    assert forall|i: int| 0 <= i < f.cells.len() implies ((#[trigger] f.cells[i]) matches Cell::Guess(
        q,
        _,
    ) ==> q < 2) by {
        if f.cells[i] is Guess {
            assert(f.cells[i] == p.cells[i]);
            if i == idx {
                assert(cell is Guess && cell->Guess_0 == m.active);
            } else {
                assert(p.cells[i] == m.cells[i]);
            }
        }
    }
}

/// A legal placement strictly lowers the number of empty cells: the target
/// cell is written, and the cascade only ever writes into empty cells.
pub proof fn lemma_place_decreases_empty(m: GameModel, row: int, col: int, cell: Cell)
    requires
        m.wf(),
        is_legal(m, row, col, cell),
    ensures
        place_result(m, row, col, cell).empty_count() < m.empty_count(),
{
    lemma_flat_index(m, row, col);
    let f = place_result(m, row, col, cell);
    let p = placed(m, row, col, cell);
    let idx = m.flat(row, col);
    assert(f.cells.len() == m.cells.len());
    assert forall|i: int|
        0 <= i < m.cells.len() && (#[trigger] f.cells[i]) == Cell::Empty implies m.cells[i]
        == Cell::Empty by {
        assert(f.cells[i] == p.cells[i]);
        assert(i != idx);
    }
    assert(m.cells[idx] == Cell::Empty);
    assert(f.cells[idx] != Cell::Empty);
    crate::game::lemma_empty_upto_lt(m, f, m.cells.len() as int, idx);
}

/// Law: a board with no guesses at all trivially satisfies the uniqueness
/// invariant; in particular a freshly constructed all-empty board does.
pub proof fn lemma_all_empty_no_dup(m: GameModel)
    requires
        m.wf(),
        forall|i: int| 0 <= i < m.cells.len() ==> m.cells[i] == Cell::Empty,
    ensures
        m.no_dup(),
{
    assert forall|r1: int, c1: int, r2: int, c2: int|
        m.in_bounds(r1, c1) && m.in_bounds(r2, c2) && (r1 != r2 || c1 != c2) && (r1 == r2 || c1
            == c2) implies !(#[trigger] m.cell(r1, c1) matches Cell::Guess(_, n1)
        && #[trigger] m.cell(r2, c2) matches Cell::Guess(_, n2) && n1 == n2) by {
        lemma_flat_index(m, r1, c1);
        lemma_flat_index(m, r2, c2);
    }
}

impl Game {
    /// True when no guess number at all is legal for the active player at
    /// `(row, col)`.
    #[verifier::loop_isolation(false)]
    fn no_legal_guess(&self, row: usize, col: usize) -> (r: bool)
        requires
            self@.wf(),
            self@.in_bounds(row as int, col as int),
        ensures
            r == unusable(self@, row as int, col as int),
    {
        let max_guess = if self.nrows >= self.ncols {
            self.nrows
        } else {
            self.ncols
        };
        let mut k: usize = 0;
        while k < max_guess
            invariant
                k <= max_guess,
                forall|j: int|
                    1 <= j <= k ==> (#[trigger] move_error(
                        self@,
                        row as int,
                        col as int,
                        Cell::Guess(self@.active as usize, j as usize),
                    )) is Some,
            decreases max_guess - k,
        {
            let num = k + 1;
            let cand = Cell::Guess(self.active_player, num);
            proof {
                assert(cand == Cell::Guess(self@.active as usize, (num as int) as usize));
            }
            match self.is_legal_move(row, col, &cand) {
                Ok(()) => {
                    proof {
                        assert(move_error(
                            self@,
                            row as int,
                            col as int,
                            Cell::Guess(self@.active as usize, (num as int) as usize),
                        ) is None);
                    }
                    return false;
                },
                Err(_) => {},
            }
            k = num;
        }
        true
    }

    /// Attempt a placement. On an illegal move the board is left exactly as
    /// it was and the error reports the attempted board, coordinates, cell
    /// and reason. On a legal move the cell is written, the turn passes, and
    /// a guess triggers the automatic elimination cascade over its row and
    /// column; row/column uniqueness of guess numbers is preserved.
    #[verifier::loop_isolation(false)]
    pub fn place(&mut self, row: usize, col: usize, cell: Cell) -> (r: Result<(), IllegalMoveError>)
        requires
            old(self)@.wf(),
        ensures
            final (self)@.wf(),
            move_error(old(self)@, row as int, col as int, cell) matches Some(e) ==> final (self)@
                == old(self)@ && (r matches Err(err) && err.reason == e && err.row == row
                && err.col == col && err.cell == cell && err.game@ == old(self)@),
            is_legal(old(self)@, row as int, col as int, cell) ==> r is Ok && final (self)@
                == place_result(old(self)@, row as int, col as int, cell),
            is_legal(old(self)@, row as int, col as int, cell) && old(self)@.no_dup() ==> final (
            self)@.no_dup(),
    {
        let ghost m0 = self@;
        match self.is_legal_move(row, col, &cell) {
            Err(reason) => {
                return Err(IllegalMoveError { game: self.clone(), row, col, cell, reason });
            },
            Ok(()) => {},
        }
        let is_guess = match cell {
            Cell::Guess(_, _) => true,
            Cell::CrossedOut => false,
            Cell::Empty => {
                proof {
                    assert(false);
                }
                false
            },
        };
        self.set_cell(row, col, cell);
        self.active_player = 1 - self.active_player;
        let ghost p = placed(m0, row as int, col as int, cell);
        proof {
            lemma_flat_index(m0, row as int, col as int);
            assert(self@ == p);
            assert(p.wf());
        }
        if is_guess {
            let n = self.board.len();
            let mut newboard: Vec<Cell> = Vec::new();
            let mut i: usize = 0;
            while i < n
                invariant
                    i <= n,
                    self@ == p,
                    n == p.cells.len(),
                    newboard@.len() == i,
                    forall|j: int|
                        0 <= j < i ==> newboard@[j] == (if should_cross(
                            p,
                            row as int,
                            col as int,
                            j,
                        ) {
                            Cell::CrossedOut
                        } else {
                            p.cells[j]
                        }),
                decreases n - i,
            {
                proof {
                    lemma_flat_inverse(p, i as int);
                }
                let r_i = i / self.ncols;
                let c_i = i % self.ncols;
                let mut val = self.board[i];
                if r_i == row || c_i == col {
                    if val == Cell::Empty {
                        if self.no_legal_guess(r_i, c_i) {
                            val = Cell::CrossedOut;
                        }
                    }
                }
                proof {
                    assert(val == (if should_cross(p, row as int, col as int, i as int) {
                        Cell::CrossedOut
                    } else {
                        p.cells[i as int]
                    }));
                }
                newboard.push(val);
                i = i + 1;
            }
            self.board = newboard;
            proof {
                assert(self@.cells =~= cascade(p, row as int, col as int));
                assert(self@ == place_result(m0, row as int, col as int, cell));
            }
        }
        proof {
            if m0.no_dup() {
                lemma_place_preserves_no_dup(m0, row as int, col as int, cell);
            }
        }
        Ok(())
    }
}

} // verus!
