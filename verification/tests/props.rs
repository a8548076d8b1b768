use game_of_life::game::{is_rectangular, live_neighbor_count, next_cell_value, transition};
use game_of_life::game::{Cell, Game, GameError, GameState};

fn board_with(rows: usize, cols: usize, live: &[(usize, usize)]) -> Vec<Vec<Cell>> {
    let mut b = vec![vec![Cell::Dead; cols]; rows];
    for &(i, j) in live {
        b[i][j] = Cell::Alive;
    }
    b
}

#[test]
fn transition_covers_every_state_pair() {
    for &changed in &[false, true] {
        for &extinct in &[false, true] {
            assert_eq!(
                transition(GameState::Stalemated, changed, extinct),
                GameState::Stalemated
            );
            assert_eq!(
                transition(GameState::Extinct, changed, extinct),
                GameState::Extinct
            );
        }
        for &fresh in &[GameState::New, GameState::Running] {
            assert_eq!(transition(fresh, changed, true), GameState::Extinct);
        }
    }
    for &fresh in &[GameState::New, GameState::Running] {
        assert_eq!(transition(fresh, false, false), GameState::Stalemated);
        assert_eq!(transition(fresh, true, false), GameState::Running);
    }
}

#[test]
fn mismatched_rows_give_invalid_shape() {
    let r = Game::from_board(vec![
        vec![Cell::Alive, Cell::Alive],
        vec![Cell::Dead],
    ]);
    assert!(matches!(r, Err(GameError::InvalidShape)));
}

#[test]
fn rectangularity_is_checked_row_by_row() {
    assert!(is_rectangular(&vec![]));
    assert!(is_rectangular(&vec![vec![], vec![]]));
    assert!(is_rectangular(&board_with(3, 4, &[])));
    assert!(!is_rectangular(&vec![vec![Cell::Dead], vec![]]));
}

#[test]
fn empty_boards_go_extinct_in_one_step() {
    let mut g = Game::from_board(vec![]).unwrap();
    g.next();
    assert_eq!(g.state, GameState::Extinct);
    assert_eq!(g.iteration, 1);

    let mut g = Game::from_board(vec![vec![], vec![], vec![]]).unwrap();
    g.next();
    assert_eq!(g.state, GameState::Extinct);
    assert_eq!(g.iteration, 1);
}

#[test]
fn lone_cell_starves() {
    let mut g = Game::from_board(board_with(4, 5, &[(2, 3)])).unwrap();
    g.next();
    assert_eq!(g.board, board_with(4, 5, &[]));
    assert_eq!(g.state, GameState::Extinct);
}

#[test]
fn terminal_states_absorb_steps() {
    let block = board_with(2, 2, &[(0, 0), (0, 1), (1, 0), (1, 1)]);
    let mut g = Game::from_board(block.clone()).unwrap();
    g.next();
    assert_eq!(g.state, GameState::Stalemated);
    assert_eq!(g.iteration, 1);
    for _ in 0..3 {
        g.next();
        assert_eq!(g.board, block);
        assert_eq!(g.state, GameState::Stalemated);
        assert_eq!(g.iteration, 1);
    }

    let mut g = Game::from_board(board_with(2, 2, &[])).unwrap();
    g.next();
    assert_eq!(g.state, GameState::Extinct);
    assert_eq!(g.iteration, 1);
    g.next();
    assert_eq!(g.board, board_with(2, 2, &[]));
    assert_eq!(g.state, GameState::Extinct);
    assert_eq!(g.iteration, 1);
}

#[test]
fn counter_advances_once_per_productive_step() {
    let mut g = Game::from_board(board_with(3, 3, &[(0, 1), (1, 1), (2, 1)])).unwrap();
    let mut prior = g.iteration;
    assert_eq!(prior, 0);
    for _ in 0..10 {
        g.next();
        assert_eq!(g.iteration, prior + 1);
        prior = g.iteration;
    }
}

#[test]
fn blinker_alternates_between_two_phases() {
    let vertical = board_with(3, 3, &[(0, 1), (1, 1), (2, 1)]);
    let horizontal = board_with(3, 3, &[(1, 0), (1, 1), (1, 2)]);
    let mut g = Game::from_board(vertical.clone()).unwrap();
    g.next();
    assert_eq!(g.board, horizontal);
    assert_eq!(g.state, GameState::Running);
    g.next();
    assert_eq!(g.board, vertical);
    assert_eq!(g.state, GameState::Running);
}

#[test]
fn in_place_update_would_diverge() {
    // A left-to-right in-place scan would starve the middle cell after
    // overwriting its left neighbor; reading the prior board keeps it.
    let mut g = Game::from_board(board_with(1, 3, &[(0, 0), (0, 1), (0, 2)])).unwrap();
    g.next();
    assert_eq!(g.board, board_with(1, 3, &[(0, 1)]));
}

#[test]
fn glider_travels_diagonally() {
    let glider = &[(0, 1), (1, 2), (2, 0), (2, 1), (2, 2)];
    let mut g = Game::from_board(board_with(10, 10, glider)).unwrap();
    for _ in 0..4 {
        g.next();
        assert_eq!(g.state, GameState::Running);
    }
    let shifted: Vec<(usize, usize)> = glider.iter().map(|&(i, j)| (i + 1, j + 1)).collect();
    assert_eq!(g.board, board_with(10, 10, &shifted));
    assert_eq!(g.iteration, 4);
}

#[test]
fn neighbor_counts_respect_edges() {
    let board = board_with(3, 3, &[(0, 0), (0, 1), (1, 1), (2, 2)]);
    assert_eq!(live_neighbor_count(&board, 0, 0), 2);
    assert_eq!(live_neighbor_count(&board, 1, 1), 3);
    assert_eq!(live_neighbor_count(&board, 2, 0), 1);
    assert_eq!(live_neighbor_count(&board, 2, 2), 1);
}

#[test]
fn rule_outcomes_for_single_cells() {
    // birth on exactly three neighbors
    let board = board_with(2, 2, &[(0, 0), (0, 1), (1, 0)]);
    assert_eq!(next_cell_value(&board, 1, 1), Cell::Alive);
    // survival on two
    assert_eq!(next_cell_value(&board, 0, 0), Cell::Alive);
    // death by overcrowding
    let crowded = board_with(3, 3, &[(0, 0), (0, 1), (0, 2), (1, 0), (1, 1)]);
    assert_eq!(next_cell_value(&crowded, 1, 1), Cell::Dead);
    // death by isolation
    let lonely = board_with(2, 2, &[(0, 0)]);
    assert_eq!(next_cell_value(&lonely, 0, 0), Cell::Dead);
}

#[test]
fn random_boards_have_requested_shape() {
    let g = Game::new(7, 3);
    assert_eq!(g.board.len(), 7);
    for row in &g.board {
        assert_eq!(row.len(), 3);
    }
    assert_eq!(g.state, GameState::New);
    assert_eq!(g.iteration, 0);

    let g = Game::new(0, 5);
    assert_eq!(g.board.len(), 0);
}
