//! The simulation engine: boards of cells, the B3/S23 transition rule,
//! and the lifecycle state machine driven by `Game::next`.

use vstd::prelude::*;

verus! {

/// One grid cell, alive or dead.
#[derive(Debug, Clone, Copy, PartialEq, Eq, Structural)]
pub enum Cell {
    Alive,
    Dead,
}

/// Where the simulation stands: freshly built, still evolving, frozen
/// with live cells, or entirely dead. `Stalemated` and `Extinct` are
/// terminal: `next` leaves a game in either state untouched.
#[derive(Debug, Clone, Copy, PartialEq, Eq, Structural)]
pub enum GameState {
    New,
    Running,
    Stalemated,
    Extinct,
}

/// Why a game could not be constructed.
#[derive(Debug, Clone, Copy, PartialEq, Eq, Structural)]
pub enum GameError {
    /// The supplied grid is ragged: not all rows have the same length.
    InvalidShape,
}

/// A grid of cells, rows then columns.
pub type GameBoard = Vec<Vec<Cell>>;

/// A running simulation: the current board, its lifecycle state, and
/// how many productive steps have been taken.
pub struct Game {
    pub board: GameBoard,
    pub state: GameState,
    pub iteration: usize,
}

/// The mathematical value of a board: a sequence of rows of cells.
pub open spec fn board_view(b: &GameBoard) -> Seq<Seq<Cell>> {
    Seq::new(b@.len(), |i: int| b@[i]@)
}

/// The common row length of a board; zero when there are no rows.
pub open spec fn width(b: Seq<Seq<Cell>>) -> nat {
    if b.len() == 0 {
        0
    } else {
        b[0].len()
    }
}

/// Every row has the same length.
pub open spec fn rectangular(b: Seq<Seq<Cell>>) -> bool {
    forall|i: int| 0 <= i < b.len() ==> (#[trigger] b[i]).len() == width(b)
}

/// Position (i, j) lies on the board and holds a live cell. Positions
/// off the board count as dead, which gives the hard-edge topology.
pub open spec fn live_at(b: Seq<Seq<Cell>>, i: int, j: int) -> bool {
    0 <= i < b.len() && 0 <= j < b[i].len() && b[i][j] is Alive
}

/// 1 when (i, j) holds a live cell, else 0.
pub open spec fn live_count_at(b: Seq<Seq<Cell>>, i: int, j: int) -> nat {
    if live_at(b, i, j) {
        1
    } else {
        0
    }
}

/// How many of the up-to-eight grid-adjacent positions of (i, j) hold
/// a live cell; positions outside the board contribute nothing.
pub open spec fn live_neighbors(b: Seq<Seq<Cell>>, i: int, j: int) -> nat {
    live_count_at(b, i - 1, j - 1) + live_count_at(b, i - 1, j) + live_count_at(b, i - 1, j + 1)
        + live_count_at(b, i, j - 1) + live_count_at(b, i, j + 1) + live_count_at(b, i + 1, j - 1)
        + live_count_at(b, i + 1, j) + live_count_at(b, i + 1, j + 1)
}

/// The B3/S23 rule: a live cell with two or three live neighbors
/// survives, a dead cell with exactly three is born, all else dies or
/// stays dead.
pub open spec fn rule(c: Cell, n: nat) -> Cell {
    match c {
        Cell::Alive => if n == 2 || n == 3 {
            Cell::Alive
        } else {
            Cell::Dead
        },
        Cell::Dead => if n == 3 {
            Cell::Alive
        } else {
            Cell::Dead
        },
    }
}

/// The next value of cell (i, j), read entirely from the prior board.
pub open spec fn next_cell(b: Seq<Seq<Cell>>, i: int, j: int) -> Cell {
    rule(b[i][j], live_neighbors(b, i, j))
}

/// The whole next generation, every cell computed from the prior board.
pub open spec fn step_board(b: Seq<Seq<Cell>>) -> Seq<Seq<Cell>> {
    Seq::new(b.len(), |i: int| Seq::new(b[i].len(), |j: int| next_cell(b, i, j)))
}

/// No live cell anywhere; vacuously true of an empty board.
pub open spec fn all_dead(b: Seq<Seq<Cell>>) -> bool {
    forall|i: int, j: int|
        0 <= i < b.len() && 0 <= j < b[i].len() ==> #[trigger] b[i][j] is Dead
}

/// Stepping the board reproduces it cell for cell.
pub open spec fn unchanged_by_step(b: Seq<Seq<Cell>>) -> bool {
    forall|i: int, j: int|
        0 <= i < b.len() && 0 <= j < b[i].len() ==> #[trigger] next_cell(b, i, j) == b[i][j]
}

impl GameState {
    /// Terminal states absorb every further step.
    pub open spec fn is_terminal(self) -> bool {
        self is Stalemated || self is Extinct
    }
}

/// The lifecycle state machine as a total function: a terminal state
/// stays put; otherwise extinction is checked before stalemate, and a
/// board that changed while keeping live cells keeps running.
pub open spec fn spec_transition(s: GameState, changed: bool, extinct: bool) -> GameState {
    if s.is_terminal() {
        s
    } else if extinct {
        GameState::Extinct
    } else if !changed {
        GameState::Stalemated
    } else {
        GameState::Running
    }
}

/// What one productive step of board `b` is classified as.
pub open spec fn step_outcome(b: Seq<Seq<Cell>>) -> GameState {
    if all_dead(step_board(b)) {
        GameState::Extinct
    } else if unchanged_by_step(b) {
        GameState::Stalemated
    } else {
        GameState::Running
    }
}

/// Some cell in row `i` at a column before `m` steps to a new value.
pub open spec fn row_prefix_changed(b: Seq<Seq<Cell>>, i: int, m: int) -> bool {
    exists|c: int| 0 <= c < m && #[trigger] next_cell(b, i, c) != b[i][c]
}

/// Some cell in a row before `n` steps to a new value.
pub open spec fn rows_prefix_changed(b: Seq<Seq<Cell>>, n: int) -> bool {
    exists|r: int| 0 <= r < n && #[trigger] row_prefix_changed(b, r, b[r].len() as int)
}

/// Every cell in row `i` at a column before `m` steps to a dead cell.
pub open spec fn row_prefix_dead(b: Seq<Seq<Cell>>, i: int, m: int) -> bool {
    forall|c: int| 0 <= c < m ==> #[trigger] next_cell(b, i, c) is Dead
}

/// Every cell in a row before `n` steps to a dead cell.
pub open spec fn rows_prefix_dead(b: Seq<Seq<Cell>>, n: int) -> bool {
    forall|r: int| 0 <= r < n ==> #[trigger] row_prefix_dead(b, r, b[r].len() as int)
}

/// Shape and contents of the stepped board, and how the whole-board
/// predicates over it reduce to per-cell facts about the prior board.
pub proof fn lemma_step_board_facts(b: Seq<Seq<Cell>>)
    ensures
        step_board(b).len() == b.len(),
        forall|i: int| 0 <= i < b.len() ==> (#[trigger] step_board(b)[i]).len() == b[i].len(),
        forall|i: int, j: int|
            0 <= i < b.len() && 0 <= j < b[i].len() ==> #[trigger] step_board(b)[i][j]
                == next_cell(b, i, j),
        rectangular(b) ==> rectangular(step_board(b)),
        rectangular(b) ==> width(step_board(b)) == width(b),
        all_dead(step_board(b)) <==> rows_prefix_dead(b, b.len() as int),
        unchanged_by_step(b) <==> !rows_prefix_changed(b, b.len() as int),
{
    let s = step_board(b);
    assert forall|i: int| 0 <= i < b.len() implies (#[trigger] s[i]).len() == b[i].len() by {
        assert(s[i] == Seq::new(b[i].len(), |j: int| next_cell(b, i, j)));
    }
    if rectangular(b) {
        assert forall|i: int| 0 <= i < s.len() implies (#[trigger] s[i]).len() == width(s) by {
            assert(b[i].len() == width(b));
            if b.len() > 0 {
                assert(b[0].len() == width(b));
            }
        }
    }
    if all_dead(s) {
        assert forall|r: int| 0 <= r < b.len() implies #[trigger] row_prefix_dead(
            b,
            r,
            b[r].len() as int,
        ) by {
            assert forall|c: int| 0 <= c < b[r].len() implies #[trigger] next_cell(b, r, c)
                is Dead by {
                assert(s[r][c] is Dead);
            }
        }
    }
    if rows_prefix_dead(b, b.len() as int) {
        assert forall|i: int, j: int| 0 <= i < s.len() && 0 <= j < s[i].len() implies #[trigger] s[i][j]
            is Dead by {
            assert(row_prefix_dead(b, i, b[i].len() as int));
            assert(next_cell(b, i, j) is Dead);
        }
    }
    if unchanged_by_step(b) {
        assert forall|r: int| 0 <= r < b.len() implies !(#[trigger] row_prefix_changed(
            b,
            r,
            b[r].len() as int,
        )) by {
            assert forall|c: int| 0 <= c < b[r].len() implies !(#[trigger] next_cell(b, r, c)
                != b[r][c]) by {
                assert(next_cell(b, r, c) == b[r][c]);
            }
        }
    }
    if !rows_prefix_changed(b, b.len() as int) {
        assert forall|i: int, j: int|
            0 <= i < b.len() && 0 <= j < b[i].len() implies #[trigger] next_cell(b, i, j)
            == b[i][j] by {
            assert(!row_prefix_changed(b, i, b[i].len() as int));
            assert(!(next_cell(b, i, j) != b[i][j]));
        }
    }
}

impl Game {
    /// The board as a sequence of rows.
    pub open spec fn rows(&self) -> Seq<Seq<Cell>> {
        board_view(&self.board)
    }

    /// A well-formed game holds a rectangular board.
    pub open spec fn wf(&self) -> bool {
        rectangular(self.rows())
    }
}

/// Relies on rand::random::<bool>: an unbiased coin flip; nothing is
/// promised of the value drawn.
#[verifier::external_body]
fn random_bool() -> bool {
    rand::random()
}

/// True exactly when every row of `board` has the same length.
pub fn is_rectangular(board: &GameBoard) -> (r: bool)
    ensures
        r == rectangular(board_view(board)),
{
    let ghost b = board_view(board);
    let rows = board.len();
    if rows == 0 {
        return true;
    }
    let w = board[0].len();
    let mut i: usize = 1;
    while i < rows
        invariant
            1 <= i <= rows,
            rows == board@.len(),
            rows > 0,
            w == board@[0]@.len(),
            b == board_view(board),
            forall|k: int| 0 <= k < i ==> (#[trigger] board@[k]@).len() == w,
        decreases rows - i,
    {
        if board[i].len() != w {
            proof {
                assert(b[i as int].len() != width(b));
            }
            return false;
        }
        i = i + 1;
    }
    proof {
        assert forall|k: int| 0 <= k < b.len() implies (#[trigger] b[k]).len() == width(b) by {
            assert(b[k] == board@[k]@);
            assert(b[0] == board@[0]@);
        }
    }
    true
}

/// 1 when cell (r, c) of `board` is alive, else 0.
fn alive_at(board: &GameBoard, r: usize, c: usize) -> (k: u8)
    requires
        r < board@.len(),
        c < board@[r as int]@.len(),
    ensures
        k == live_count_at(board_view(board), r as int, c as int),
{
    proof {
        assert(board_view(board)[r as int] == board@[r as int]@);
    }
    if matches!(board[r][c], Cell::Alive) {
        1
    } else {
        0
    }
}

/// How many live neighbors cell (i, j) of `board` has, counting only
/// positions that lie on the board.
pub fn live_neighbor_count(board: &GameBoard, i: usize, j: usize) -> (n: u8)
    requires
        rectangular(board_view(board)),
        i < board@.len(),
        j < board@[i as int]@.len(),
    ensures
        n == live_neighbors(board_view(board), i as int, j as int),
{
    let ghost b = board_view(board);
    let rows = board.len();
    let cols = board[i].len();
    proof {
        assert(b[i as int].len() == width(b));
        assert forall|k: int| 0 <= k < b.len() implies (#[trigger] board@[k]@).len() == cols by {
            assert(b[k].len() == width(b));
            assert(b[k] == board@[k]@);
        }
    }
    let t0: u8 = if i > 0 && j > 0 {
        alive_at(board, i - 1, j - 1)
    } else {
        0
    };
    assert(t0 == live_count_at(b, i as int - 1, j as int - 1));
    let t1: u8 = if i > 0 {
        alive_at(board, i - 1, j)
    } else {
        0
    };
    assert(t1 == live_count_at(b, i as int - 1, j as int));
    let t2: u8 = if i > 0 && j + 1 < cols {
        alive_at(board, i - 1, j + 1)
    } else {
        0
    };
    assert(t2 == live_count_at(b, i as int - 1, j as int + 1));
    let t3: u8 = if j > 0 {
        alive_at(board, i, j - 1)
    } else {
        0
    };
    assert(t3 == live_count_at(b, i as int, j as int - 1));
    let t4: u8 = if j + 1 < cols {
        alive_at(board, i, j + 1)
    } else {
        0
    };
    assert(t4 == live_count_at(b, i as int, j as int + 1));
    let t5: u8 = if i + 1 < rows && j > 0 {
        alive_at(board, i + 1, j - 1)
    } else {
        0
    };
    assert(t5 == live_count_at(b, i as int + 1, j as int - 1));
    let t6: u8 = if i + 1 < rows {
        alive_at(board, i + 1, j)
    } else {
        0
    };
    assert(t6 == live_count_at(b, i as int + 1, j as int));
    let t7: u8 = if i + 1 < rows && j + 1 < cols {
        alive_at(board, i + 1, j + 1)
    } else {
        0
    };
    assert(t7 == live_count_at(b, i as int + 1, j as int + 1));
    t0 + t1 + t2 + t3 + t4 + t5 + t6 + t7
}

/// The next value of cell (i, j), computed from the current board
/// alone by the B3/S23 rule.
pub fn next_cell_value(board: &GameBoard, i: usize, j: usize) -> (c: Cell)
    requires
        rectangular(board_view(board)),
        i < board@.len(),
        j < board@[i as int]@.len(),
    ensures
        c == next_cell(board_view(board), i as int, j as int),
{
    let n = live_neighbor_count(board, i, j);
    match board[i][j] {
        Cell::Alive => if n == 2 || n == 3 {
            Cell::Alive
        } else {
            Cell::Dead
        },
        Cell::Dead => if n == 3 {
            Cell::Alive
        } else {
            Cell::Dead
        },
    }
}

/// Executable form of the lifecycle transition; one call decides the
/// state after a productive step from `changed` and `extinct`.
pub fn transition(s: GameState, changed: bool, extinct: bool) -> (t: GameState)
    ensures
        t == spec_transition(s, changed, extinct),
{
    match s {
        GameState::Stalemated => GameState::Stalemated,
        GameState::Extinct => GameState::Extinct,
        _ => {
            if extinct {
                GameState::Extinct
            } else if !changed {
                GameState::Stalemated
            } else {
                GameState::Running
            }
        },
    }
}

impl Game {
    /// A fresh game on an `x` by `y` board, each cell drawn at random.
    pub fn new(x: usize, y: usize) -> (g: Game)
        ensures
            g.wf(),
            g.rows().len() == x,
            forall|i: int| 0 <= i < x ==> (#[trigger] g.rows()[i]).len() == y,
            g.state is New,
            g.iteration == 0,
    {
        let mut board: GameBoard = Vec::new();
        let mut i: usize = 0;
        while i < x
            invariant
                i <= x,
                board@.len() == i,
                forall|k: int| 0 <= k < i ==> (#[trigger] board@[k]@).len() == y,
            decreases x - i,
        {
            let mut row: Vec<Cell> = Vec::new();
            let mut j: usize = 0;
            while j < y
                invariant
                    j <= y,
                    row@.len() == j,
                decreases y - j,
            {
                let c = if random_bool() {
                    Cell::Dead
                } else {
                    Cell::Alive
                };
                row.push(c);
                j = j + 1;
            }
            board.push(row);
            i = i + 1;
        }
        let g = Game { board, state: GameState::New, iteration: 0 };
        proof {
            let b = g.rows();
            assert forall|k: int| 0 <= k < b.len() implies (#[trigger] b[k]).len() == width(b) by {
                assert(b[k] == g.board@[k]@);
                if b.len() > 0 {
                    assert(b[0] == g.board@[0]@);
                }
            }
            assert forall|k: int| 0 <= k < x implies (#[trigger] b[k]).len() == y by {
                assert(b[k] == g.board@[k]@);
            }
        }
        g
    }

    /// Wraps a caller-supplied grid as a fresh game, rejecting ragged
    /// input: the game exists exactly when all rows have equal length.
    pub fn from_board(board: GameBoard) -> (r: Result<Game, GameError>)
        ensures
            r is Ok <==> rectangular(board_view(&board)),
            r matches Ok(g) ==> g.rows() == board_view(&board) && g.wf() && g.state is New
                && g.iteration == 0,
            r matches Err(e) ==> e == GameError::InvalidShape,
    {
        if !is_rectangular(&board) {
            return Err(GameError::InvalidShape);
        }
        Ok(Game { board, state: GameState::New, iteration: 0 })
    }

    /// One step of the simulation. A terminal game is left untouched;
    /// otherwise the whole next generation is computed from the prior
    /// board, the state is reclassified, and the counter advances by
    /// exactly one.
    #[verifier::loop_isolation(false)]
    pub fn next(&mut self)
        requires
            old(self).wf(),
            !old(self).state.is_terminal() ==> old(self).iteration < usize::MAX,
        ensures
            final(self).wf(),
            old(self).state.is_terminal() ==> *final(self) == *old(self),
            !old(self).state.is_terminal() ==> final(self).rows() == step_board(old(self).rows()),
            !old(self).state.is_terminal() ==> final(self).state == step_outcome(old(self).rows()),
            !old(self).state.is_terminal() ==> final(self).iteration == old(self).iteration + 1,
    {
        match self.state {
            GameState::Stalemated | GameState::Extinct => {
                return;
            },
            _ => {},
        }
        let ghost b0 = self.rows();
        let rows = self.board.len();
        let mut next_board: GameBoard = Vec::new();
        let mut changed = false;
        let mut extinct = true;
        let mut i: usize = 0;
        while i < rows
            invariant
                i <= rows,
                next_board@.len() == i,
                forall|k: int| 0 <= k < i ==> (#[trigger] next_board@[k]@) == step_board(b0)[k],
                changed == rows_prefix_changed(b0, i as int),
                extinct == rows_prefix_dead(b0, i as int),
            decreases rows - i,
        {
            let cols = self.board[i].len();
            let mut row: Vec<Cell> = Vec::new();
            let mut j: usize = 0;
            while j < cols
                invariant
                    j <= cols,
                    i < rows,
                    row@.len() == j,
                    forall|c: int| 0 <= c < j ==> #[trigger] row@[c] == next_cell(b0, i as int, c),
                    changed == (rows_prefix_changed(b0, i as int) || row_prefix_changed(
                        b0,
                        i as int,
                        j as int,
                    )),
                    extinct == (rows_prefix_dead(b0, i as int) && row_prefix_dead(
                        b0,
                        i as int,
                        j as int,
                    )),
                decreases cols - j,
            {
                let c_old = self.board[i][j];
                let c_new = next_cell_value(&self.board, i, j);
                proof {
                    assert(c_new == next_cell(b0, i as int, j as int));
                    assert(c_old == b0[i as int][j as int]);
                }
                if c_new != c_old {
                    changed = true;
                }
                if matches!(c_new, Cell::Alive) {
                    extinct = false;
                }
                row.push(c_new);
                proof {
                    if changed {
                        assert(rows_prefix_changed(b0, i as int) || row_prefix_changed(
                            b0,
                            i as int,
                            j + 1,
                        ));
                    } else {
                        assert forall|c: int| 0 <= c < j + 1 implies !(#[trigger] next_cell(
                            b0,
                            i as int,
                            c,
                        ) != b0[i as int][c]) by {
                            if c < j {
                                assert(!row_prefix_changed(b0, i as int, j as int));
                            }
                        }
                    }
                    if extinct {
                        assert forall|c: int| 0 <= c < j + 1 implies #[trigger] next_cell(
                            b0,
                            i as int,
                            c,
                        ) is Dead by {
                            if c < j {
                                assert(row_prefix_dead(b0, i as int, j as int));
                            }
                        }
                    } else {
                        assert(!(rows_prefix_dead(b0, i as int) && row_prefix_dead(
                            b0,
                            i as int,
                            j + 1,
                        )));
                    }
                }
                j = j + 1;
            }
            proof {
                lemma_step_board_facts(b0);
                assert(row@ =~= step_board(b0)[i as int]);
                assert(row_prefix_changed(b0, i as int, cols as int) == row_prefix_changed(
                    b0,
                    i as int,
                    b0[i as int].len() as int,
                ));
                if changed {
                    assert(rows_prefix_changed(b0, i + 1));
                } else {
                    assert forall|r: int| 0 <= r < i + 1 implies !(#[trigger] row_prefix_changed(
                        b0,
                        r,
                        b0[r].len() as int,
                    )) by {
                        if r < i {
                            assert(!rows_prefix_changed(b0, i as int));
                        }
                    }
                }
                if extinct {
                    assert forall|r: int| 0 <= r < i + 1 implies #[trigger] row_prefix_dead(
                        b0,
                        r,
                        b0[r].len() as int,
                    ) by {
                        if r < i {
                            assert(rows_prefix_dead(b0, i as int));
                        }
                    }
                } else {
                    assert(!(rows_prefix_dead(b0, i + 1)));
                }
            }
            next_board.push(row);
            i = i + 1;
        }
        proof {
            lemma_step_board_facts(b0);
            assert(board_view(&next_board) =~= step_board(b0));
        }
        self.state = transition(self.state, changed, extinct);
        self.board = next_board;
        self.iteration = self.iteration + 1;
    }
}

} // verus!
