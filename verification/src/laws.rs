//! General consequences of the transition rule, stated and proved once
//! and for all: a cell's next value is local to its neighborhood, still
//! lifes persist forever, an isolated live cell starves, and the
//! three-cell blinker oscillates with period two while staying alive.

use vstd::prelude::*;

use crate::game::all_dead;
use crate::game::lemma_step_board_facts;
use crate::game::live_at;
use crate::game::live_neighbors;
use crate::game::next_cell;
use crate::game::rectangular;
use crate::game::step_board;
use crate::game::step_outcome;
use crate::game::unchanged_by_step;
use crate::game::width;
use crate::game::Cell;
use crate::game::GameState;

verus! {

/// The board after `n` successive generations.
pub open spec fn step_n(b: Seq<Seq<Cell>>, n: nat) -> Seq<Seq<Cell>>
    decreases n,
{
    if n == 0 {
        b
    } else {
        step_board(step_n(b, (n - 1) as nat))
    }
}

/// A board that one step reproduces is reproduced by every number of
/// steps: still lifes are stable forever.
pub proof fn lemma_still_life_forever(b: Seq<Seq<Cell>>, n: nat)
    requires
        step_board(b) == b,
    ensures
        step_n(b, n) == b,
    decreases n,
{
    if n > 0 {
        lemma_still_life_forever(b, (n - 1) as nat);
    }
}

/// A cell's next value depends only on the prior generation around it:
/// two boards that hold the same cell at (i, j) and agree on which of
/// the surrounding positions are live step that cell identically.
pub proof fn lemma_next_cell_local(a: Seq<Seq<Cell>>, b: Seq<Seq<Cell>>, i: int, j: int)
    requires
        0 <= i < a.len(),
        0 <= j < a[i].len(),
        0 <= i < b.len(),
        0 <= j < b[i].len(),
        a[i][j] == b[i][j],
        forall|r: int, c: int|
            i - 1 <= r <= i + 1 && j - 1 <= c <= j + 1 ==> #[trigger] live_at(a, r, c) == live_at(
                b,
                r,
                c,
            ),
    ensures
        next_cell(a, i, j) == next_cell(b, i, j),
{
    assert(live_at(a, i - 1, j - 1) == live_at(b, i - 1, j - 1));
    assert(live_at(a, i - 1, j) == live_at(b, i - 1, j));
    assert(live_at(a, i - 1, j + 1) == live_at(b, i - 1, j + 1));
    assert(live_at(a, i, j - 1) == live_at(b, i, j - 1));
    assert(live_at(a, i, j + 1) == live_at(b, i, j + 1));
    assert(live_at(a, i + 1, j - 1) == live_at(b, i + 1, j - 1));
    assert(live_at(a, i + 1, j) == live_at(b, i + 1, j));
    assert(live_at(a, i + 1, j + 1) == live_at(b, i + 1, j + 1));
    assert(live_neighbors(a, i, j) == live_neighbors(b, i, j));
}

/// A live cell with no live company anywhere on a board of at least
/// two rows and two columns dies of isolation, and the whole next
/// generation is dead: the step is classified extinct.
pub proof fn lemma_lone_live_cell_dies(b: Seq<Seq<Cell>>, r: int, c: int)
    requires
        rectangular(b),
        b.len() >= 2,
        width(b) >= 2,
        live_at(b, r, c),
        forall|i: int, j: int|
            0 <= i < b.len() && 0 <= j < b[i].len() && (i != r || j != c) ==> !(#[trigger] live_at(
                b,
                i,
                j,
            )),
    ensures
        all_dead(step_board(b)),
        step_outcome(b) == GameState::Extinct,
{
    assert forall|x: int, y: int| live_at(b, x, y) implies x == r && y == c by {
        if x != r || y != c {
            assert(!live_at(b, x, y));
        }
    }
    assert forall|i: int, j: int| 0 <= i < b.len() && 0 <= j < b[i].len() implies #[trigger] next_cell(
        b,
        i,
        j,
    ) is Dead by {
        if i == r && j == c {
            assert(live_neighbors(b, i, j) == 0);
        } else {
            assert(live_neighbors(b, i, j) <= 1);
            assert(!live_at(b, i, j));
        }
    }
    lemma_step_board_facts(b);
    assert forall|i: int, j: int|
        0 <= i < step_board(b).len() && 0 <= j < step_board(b)[i].len() implies #[trigger] step_board(
        b,
    )[i][j] is Dead by {
        assert(next_cell(b, i, j) is Dead);
    }
}

/// The filled two-by-two board: every cell alive.
pub open spec fn block_board() -> Seq<Seq<Cell>> {
    Seq::new(2, |i: int| Seq::new(2, |j: int| Cell::Alive))
}

/// One step reproduces the filled two-by-two block cell for cell.
proof fn lemma_block_step()
    ensures
        step_board(block_board()) == block_board(),
{
    let b = block_board();
    lemma_step_board_facts(b);
    assert(live_neighbors(b, 0, 0) == 3);
    assert(live_neighbors(b, 0, 1) == 3);
    assert(live_neighbors(b, 1, 0) == 3);
    assert(live_neighbors(b, 1, 1) == 3);
    assert forall|i: int, j: int| 0 <= i < 2 && 0 <= j < 2 implies #[trigger] step_board(b)[i][j]
        == b[i][j] by {
        assert(live_neighbors(b, i, j) == 3);
        assert(step_board(b)[i][j] == next_cell(b, i, j));
    }
    assert(step_board(b) =~~= b);
}

/// Every cell of the filled two-by-two block steps to itself.
proof fn lemma_block_unchanged()
    ensures
        unchanged_by_step(block_board()),
{
    let b = block_board();
    assert forall|i: int, j: int|
        0 <= i < b.len() && 0 <= j < b[i].len() implies #[trigger] next_cell(b, i, j)
        == b[i][j] by {
        assert(live_neighbors(b, i, j) == 3);
    }
}

/// The filled two-by-two block is a still life: every cell keeps
/// exactly three live neighbors, so any number of steps reproduces the
/// board, and a step of it is classified stalemated, never extinct.
pub proof fn lemma_block_is_still_life(n: nat)
    ensures
        step_board(block_board()) == block_board(),
        !all_dead(block_board()),
        step_outcome(block_board()) == GameState::Stalemated,
        step_n(block_board(), n) == block_board(),
{
    let b = block_board();
    lemma_block_step();
    lemma_block_unchanged();
    assert(!all_dead(b)) by {
        assert(b[0][0] is Alive);
    }
    lemma_still_life_forever(b, n);
}

/// The vertical three-cell blinker spanning rows `r - 1` to `r + 1` of
/// column `c` on a `rows` by `cols` board, with every other cell dead.
pub open spec fn blinker_vertical(rows: int, cols: int, r: int, c: int) -> Seq<Seq<Cell>> {
    Seq::new(
        rows as nat,
        |i: int|
            Seq::new(
                cols as nat,
                |j: int|
                    if j == c && r - 1 <= i <= r + 1 {
                        Cell::Alive
                    } else {
                        Cell::Dead
                    },
            ),
    )
}

/// The horizontal three-cell blinker centered at the same position.
pub open spec fn blinker_horizontal(rows: int, cols: int, r: int, c: int) -> Seq<Seq<Cell>> {
    Seq::new(
        rows as nat,
        |i: int|
            Seq::new(
                cols as nat,
                |j: int|
                    if i == r && c - 1 <= j <= c + 1 {
                        Cell::Alive
                    } else {
                        Cell::Dead
                    },
            ),
    )
}

/// One step turns the vertical blinker phase into the horizontal one.
proof fn lemma_blinker_v_step(rows: int, cols: int, r: int, c: int)
    requires
        1 <= r <= rows - 2,
        1 <= c <= cols - 2,
    ensures
        step_board(blinker_vertical(rows, cols, r, c)) == blinker_horizontal(rows, cols, r, c),
{
    let v = blinker_vertical(rows, cols, r, c);
    let h = blinker_horizontal(rows, cols, r, c);
    lemma_step_board_facts(v);
    assert forall|i: int, j: int|
        0 <= i < rows && 0 <= j < cols implies #[trigger] step_board(v)[i][j] == h[i][j] by {
        if i == r && c - 1 <= j <= c + 1 {
            assert(live_neighbors(v, i, j) >= 2);
        }
        assert(step_board(v)[i][j] == next_cell(v, i, j));
    }
    assert(step_board(v) =~~= h);
}

/// One step turns the horizontal blinker phase back into the vertical.
proof fn lemma_blinker_h_step(rows: int, cols: int, r: int, c: int)
    requires
        1 <= r <= rows - 2,
        1 <= c <= cols - 2,
    ensures
        step_board(blinker_horizontal(rows, cols, r, c)) == blinker_vertical(rows, cols, r, c),
{
    let v = blinker_vertical(rows, cols, r, c);
    let h = blinker_horizontal(rows, cols, r, c);
    lemma_step_board_facts(h);
    assert forall|i: int, j: int|
        0 <= i < rows && 0 <= j < cols implies #[trigger] step_board(h)[i][j] == v[i][j] by {
        if j == c && r - 1 <= i <= r + 1 {
            assert(live_neighbors(h, i, j) >= 2);
        }
        assert(step_board(h)[i][j] == next_cell(h, i, j));
    }
    assert(step_board(h) =~~= v);
}

/// One step turns each blinker phase into the other, the two phases
/// differ, and stepping either phase is classified running, wherever
/// the blinker stands clear of the board's edges.
pub proof fn lemma_blinker_steps(rows: int, cols: int, r: int, c: int)
    requires
        1 <= r <= rows - 2,
        1 <= c <= cols - 2,
    ensures
        step_board(blinker_vertical(rows, cols, r, c)) == blinker_horizontal(rows, cols, r, c),
        step_board(blinker_horizontal(rows, cols, r, c)) == blinker_vertical(rows, cols, r, c),
        blinker_vertical(rows, cols, r, c) != blinker_horizontal(rows, cols, r, c),
        step_outcome(blinker_vertical(rows, cols, r, c)) == GameState::Running,
        step_outcome(blinker_horizontal(rows, cols, r, c)) == GameState::Running,
{
    let v = blinker_vertical(rows, cols, r, c);
    let h = blinker_horizontal(rows, cols, r, c);
    lemma_blinker_v_step(rows, cols, r, c);
    lemma_blinker_h_step(rows, cols, r, c);
    assert(v[r - 1][c] is Alive && h[r - 1][c] is Dead);
    assert(!all_dead(h)) by {
        assert(h[r][c] is Alive);
    }
    assert(!all_dead(v)) by {
        assert(v[r][c] is Alive);
    }
    assert(!unchanged_by_step(v)) by {
        assert(live_neighbors(v, r - 1, c) == 1);
        assert(next_cell(v, r - 1, c) != v[r - 1][c]);
    }
    assert(!unchanged_by_step(h)) by {
        assert(live_neighbors(h, r - 1, c) == 3);
        assert(next_cell(h, r - 1, c) != h[r - 1][c]);
    }
}

/// The blinker returns to its starting phase every second step.
proof fn lemma_blinker_parity(rows: int, cols: int, r: int, c: int, n: nat)
    requires
        1 <= r <= rows - 2,
        1 <= c <= cols - 2,
    ensures
        step_n(blinker_vertical(rows, cols, r, c), n) == if n % 2 == 0 {
            blinker_vertical(rows, cols, r, c)
        } else {
            blinker_horizontal(rows, cols, r, c)
        },
    decreases n,
{
    if n > 0 {
        lemma_blinker_parity(rows, cols, r, c, (n - 1) as nat);
        lemma_blinker_v_step(rows, cols, r, c);
        lemma_blinker_h_step(rows, cols, r, c);
    }
}

/// The blinker toggles between its two phases every step, forever, and
/// every generation of it keeps the simulation classified running.
pub proof fn lemma_blinker_oscillates(rows: int, cols: int, r: int, c: int, n: nat)
    requires
        1 <= r <= rows - 2,
        1 <= c <= cols - 2,
    ensures
        step_n(blinker_vertical(rows, cols, r, c), n) == if n % 2 == 0 {
            blinker_vertical(rows, cols, r, c)
        } else {
            blinker_horizontal(rows, cols, r, c)
        },
        step_outcome(step_n(blinker_vertical(rows, cols, r, c), n)) == GameState::Running,
{
    lemma_blinker_parity(rows, cols, r, c, n);
    lemma_blinker_steps(rows, cols, r, c);
}

} // verus!
