use vstd::prelude::*;

verus! {

/// The content of one grid square. A cell's identity is purely its content:
/// either it is untouched, permanently voided, or holds a numbered guess
/// belonging to a player (`Guess(player, number)`).
#[derive(Copy, Clone, Debug, PartialEq, Eq, Structural)]
pub enum Cell {
    Empty,
    CrossedOut,
    Guess(usize, usize),
}

/// One placement: writing `cell` (never `Cell::Empty`) at `(row, col)`.
#[derive(Copy, Clone, Debug, PartialEq, Eq, Structural)]
pub struct Action {
    pub row: usize,
    pub col: usize,
    pub cell: Cell,
}

/// A grid configuration together with whose turn it is. Cells are stored in a
/// flat row-major vector of length `nrows * ncols`; the dimensions never
/// change after construction.
#[derive(Debug)]
pub struct Game {
    pub active_player: usize,
    pub board: Vec<Cell>,
    pub nrows: usize,
    pub ncols: usize,
}

/// The mathematical model of a [`Game`]: the same data with the board as a
/// sequence and the sizes as unbounded integers.
pub struct GameModel {
    pub active: nat,
    pub cells: Seq<Cell>,
    pub nrows: nat,
    pub ncols: nat,
}

impl GameModel {
    /// Dimensional well-formedness: the flat vector has exactly one slot per
    /// grid square, the active player is 0 or 1, and the cell count fits the
    /// machine.
    pub open spec fn wf(self) -> bool {
        &&& self.cells.len() == self.nrows * self.ncols
        &&& self.active < 2
        &&& self.nrows * self.ncols <= usize::MAX
    }

    pub open spec fn in_bounds(self, row: int, col: int) -> bool {
        0 <= row < self.nrows && 0 <= col < self.ncols
    }

    pub open spec fn flat(self, row: int, col: int) -> int {
        row * self.ncols + col
    }

    pub open spec fn cell(self, row: int, col: int) -> Cell {
        self.cells[self.flat(row, col)]
    }

    /// The largest guess number the grid admits.
    pub open spec fn max_guess(self) -> int {
        if self.nrows >= self.ncols {
            self.nrows as int
        } else {
            self.ncols as int
        }
    }

    /// Every cell is written: no further move is possible.
    pub open spec fn finished(self) -> bool {
        forall|i: int| 0 <= i < self.cells.len() ==> self.cells[i] != Cell::Empty
    }

    /// Number of `Empty` cells among the first `n` slots.
    pub open spec fn empty_upto(self, n: int) -> nat
        decreases n,
    {
        if n <= 0 {
            0
        } else {
            self.empty_upto(n - 1) + (if self.cells[n - 1] == Cell::Empty {
                1nat
            } else {
                0nat
            })
        }
    }

    /// Number of `Empty` cells on the whole board.
    pub open spec fn empty_count(self) -> nat {
        self.empty_upto(self.cells.len() as int)
    }

    /// Every guess on the board belongs to player 0 or 1.
    pub open spec fn players_valid(self) -> bool {
        forall|i: int| 0 <= i < self.cells.len() ==> (#[trigger] self.cells[i] matches Cell::Guess(
            p,
            _,
        ) ==> p < 2)
    }

    /// No two guess cells sharing a row or a column hold equal numbers.
    pub open spec fn no_dup(self) -> bool {
        forall|r1: int, c1: int, r2: int, c2: int|
            self.in_bounds(r1, c1) && self.in_bounds(r2, c2) && (r1 != r2 || c1 != c2) && (r1 == r2
                || c1 == c2) ==> !(#[trigger] self.cell(r1, c1) matches Cell::Guess(_, n1)
                && #[trigger] self.cell(r2, c2) matches Cell::Guess(_, n2) && n1 == n2)
    }
}

impl View for Game {
    type V = GameModel;

    open spec fn view(&self) -> GameModel {
        GameModel {
            active: self.active_player as nat,
            cells: self.board@,
            nrows: self.nrows as nat,
            ncols: self.ncols as nat,
        }
    }
}

/// Flat row-major indices stay inside the vector and are injective over grid
/// coordinates.
pub proof fn lemma_flat_index(m: GameModel, row: int, col: int)
    requires
        m.wf(),
        m.in_bounds(row, col),
    ensures
        0 <= m.flat(row, col) < m.cells.len(),
        m.flat(row, col) / m.ncols as int == row,
        m.flat(row, col) % m.ncols as int == col,
{
    assert(0 <= row * m.ncols + col < m.nrows * m.ncols) by (nonlinear_arith)
        requires
            0 <= row < m.nrows,
            0 <= col < m.ncols,
    ;
    vstd::arithmetic::div_mod::lemma_fundamental_div_mod_converse(
        m.flat(row, col),
        m.ncols as int,
        row,
        col,
    );
}

/// Conversely, every flat index names exactly one in-bounds grid square.
pub proof fn lemma_flat_inverse(m: GameModel, i: int)
    requires
        m.wf(),
        0 <= i < m.cells.len(),
    ensures
        m.in_bounds(i / m.ncols as int, i % m.ncols as int),
        m.flat(i / m.ncols as int, i % m.ncols as int) == i,
{
    let n = m.ncols as int;
    assert(n > 0) by (nonlinear_arith)
        requires
            0 <= i < m.nrows * n,
    ;
    vstd::arithmetic::div_mod::lemma_fundamental_div_mod(i, n);
    assert(0 <= i % n < n) by (nonlinear_arith)
        requires
            n > 0,
    ;
    assert(0 <= i / n < m.nrows) by (nonlinear_arith)
        requires
            n > 0,
            i == n * (i / n) + i % n,
            0 <= i % n < n,
            0 <= i < m.nrows * n,
    ;
}

/// Counting empties is monotone: a board with pointwise no more empty cells
/// has no larger a count, and strictly smaller if some cell lost its
/// emptiness.
pub proof fn lemma_empty_upto_le(a: GameModel, b: GameModel, n: int)
    requires
        a.cells.len() == b.cells.len(),
        forall|i: int| 0 <= i < n ==> ((#[trigger] b.cells[i]) == Cell::Empty ==> a.cells[i] == Cell::Empty),
    ensures
        b.empty_upto(n) <= a.empty_upto(n),
    decreases n,
{
    if n > 0 {
        lemma_empty_upto_le(a, b, n - 1);
    }
}

pub proof fn lemma_empty_upto_lt(a: GameModel, b: GameModel, n: int, i0: int)
    requires
        a.cells.len() == b.cells.len(),
        forall|i: int| 0 <= i < n ==> ((#[trigger] b.cells[i]) == Cell::Empty ==> a.cells[i] == Cell::Empty),
        0 <= i0 < n,
        a.cells[i0] == Cell::Empty,
        b.cells[i0] != Cell::Empty,
    ensures
        b.empty_upto(n) < a.empty_upto(n),
    decreases n,
{
    if i0 == n - 1 {
        lemma_empty_upto_le(a, b, n - 1);
    } else {
        lemma_empty_upto_lt(a, b, n - 1, i0);
    }
}

impl Game {
    /// A fresh game: an all-empty `nrows x ncols` grid with player 0 to move.
    pub fn new(nrows: usize, ncols: usize) -> (g: Game)
        requires
            nrows * ncols <= usize::MAX,
        ensures
            g@.wf(),
            g@.nrows == nrows,
            g@.ncols == ncols,
            g@.active == 0,
            forall|i: int| 0 <= i < g@.cells.len() ==> g@.cells[i] == Cell::Empty,
    {
        let n = nrows * ncols;
        let mut board: Vec<Cell> = Vec::new();
        let mut i: usize = 0;
        while i < n
            invariant
                board@.len() == i,
                i <= n,
                forall|j: int| 0 <= j < i ==> board@[j] == Cell::Empty,
            decreases n - i,
        {
            board.push(Cell::Empty);
            i = i + 1;
        }
        Game { active_player: 0, board, nrows, ncols }
    }

    /// Read the cell at `(row, col)`.
    pub fn get_cell(&self, row: usize, col: usize) -> (c: &Cell)
        requires
            self@.wf(),
            self@.in_bounds(row as int, col as int),
        ensures
            *c == self@.cell(row as int, col as int),
    {
        proof {
            lemma_flat_index(self@, row as int, col as int);
        }
        &self.board[row * self.ncols + col]
    }

    /// Overwrite the cell at `(row, col)`; every other cell, the dimensions
    /// and the active player are untouched.
    pub fn set_cell(&mut self, row: usize, col: usize, cell: Cell)
        requires
            old(self)@.wf(),
            old(self)@.in_bounds(row as int, col as int),
        ensures
            final (self)@ == (GameModel {
                cells: old(self)@.cells.update(old(self)@.flat(row as int, col as int), cell),
                ..old(self)@
            }),
    {
        proof {
            lemma_flat_index(self@, row as int, col as int);
        }
        let i = row * self.ncols + col;
        self.board.set(i, cell);
    }

    /// True exactly when no cell is `Empty`.
    pub fn is_finished(&self) -> (r: bool)
        requires
            self@.wf(),
        ensures
            r == self@.finished(),
    {
        let n = self.board.len();
        let mut i: usize = 0;
        while i < n
            invariant
                i <= n,
                n == self@.cells.len(),
                forall|j: int| 0 <= j < i ==> self@.cells[j] != Cell::Empty,
            decreases n - i,
        {
            if self.board[i] == Cell::Empty {
                return false;
            }
            i = i + 1;
        }
        true
    }

    /// The number of `Empty` cells left on the board.
    pub fn empty_cells(&self) -> (r: usize)
        requires
            self@.wf(),
        ensures
            r == self@.empty_count(),
    {
        let n = self.board.len();
        let mut count: usize = 0;
        let mut i: usize = 0;
        while i < n
            invariant
                i <= n,
                n == self@.cells.len(),
                count == self@.empty_upto(i as int),
                count <= i,
            decreases n - i,
        {
            if self.board[i] == Cell::Empty {
                count = count + 1;
            }
            i = i + 1;
        }
        count
    }

    /// Exact structural equality of positions: same dimensions, same cells,
    /// same player to move. This is the identity used to key the search tree.
    pub fn same_state(&self, other: &Game) -> (r: bool)
        requires
            self@.wf(),
            other@.wf(),
        ensures
            r <==> self@ == other@,
    {
        if self.active_player != other.active_player || self.nrows != other.nrows || self.ncols
            != other.ncols {
            return false;
        }
        let n = self.board.len();
        let mut i: usize = 0;
        while i < n
            invariant
                i <= n,
                n == self@.cells.len(),
                n == other@.cells.len(),
                forall|j: int| 0 <= j < i ==> self@.cells[j] == other@.cells[j],
            decreases n - i,
        {
            if self.board[i] != other.board[i] {
                return false;
            }
            i = i + 1;
        }
        proof {
            assert(self@.cells =~= other@.cells);
        }
        true
    }
}

impl Clone for Game {
    /// An exact copy: the model of the clone equals the model of the source.
    fn clone(&self) -> (r: Game)
        ensures
            r@ == self@,
    {
        let n = self.board.len();
        let mut board: Vec<Cell> = Vec::new();
        let mut i: usize = 0;
        while i < n
            invariant
                i <= n,
                n == self@.cells.len(),
                board@.len() == i,
                forall|j: int| 0 <= j < i ==> board@[j] == self@.cells[j],
            decreases n - i,
        {
            board.push(self.board[i]);
            i = i + 1;
        }
        proof {
            assert(board@ =~= self@.cells);
        }
        Game { active_player: self.active_player, board, nrows: self.nrows, ncols: self.ncols }
    }
}

} // verus!
