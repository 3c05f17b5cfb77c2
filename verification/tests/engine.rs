use guessgrid::game::{Cell, Game};
use guessgrid::rules::MoveError;

#[test]
fn new_game_is_empty_and_player_zero_moves() {
    let g = Game::new(2, 3);
    assert_eq!(g.nrows, 2);
    assert_eq!(g.ncols, 3);
    assert_eq!(g.active_player, 0);
    assert!(!g.is_finished());
    assert_eq!(g.empty_cells(), 6);
    for row in 0..2 {
        for col in 0..3 {
            assert_eq!(*g.get_cell(row, col), Cell::Empty);
        }
    }
}

#[test]
fn illegal_moves_are_rejected_with_their_reason() {
    let mut g = Game::new(2, 2);
    assert_eq!(g.is_legal_move(2, 0, &Cell::CrossedOut), Err(MoveError::RowOutOfBounds));
    assert_eq!(g.is_legal_move(0, 2, &Cell::CrossedOut), Err(MoveError::ColOutOfBounds));
    assert_eq!(g.is_legal_move(0, 0, &Cell::Empty), Err(MoveError::EraseAttempt));
    assert_eq!(g.is_legal_move(0, 0, &Cell::Guess(1, 1)), Err(MoveError::WrongPlayer));
    assert_eq!(g.is_legal_move(0, 0, &Cell::Guess(0, 0)), Err(MoveError::GuessZero));
    assert_eq!(g.is_legal_move(0, 0, &Cell::Guess(0, 3)), Err(MoveError::GuessTooLarge));
    assert_eq!(g.is_legal_move(0, 0, &Cell::CrossedOut), Ok(()));
    assert_eq!(g.is_legal_move(0, 0, &Cell::Guess(0, 1)), Ok(()));
    g.place(0, 0, Cell::Guess(0, 1)).unwrap();
    assert_eq!(g.is_legal_move(0, 0, &Cell::CrossedOut), Err(MoveError::Occupied));
    assert_eq!(g.is_legal_move(0, 1, &Cell::Guess(1, 1)), Err(MoveError::DuplicateGuess));
    assert_eq!(g.is_legal_move(1, 0, &Cell::Guess(1, 1)), Err(MoveError::DuplicateGuess));
    assert_eq!(g.is_legal_move(1, 1, &Cell::Guess(1, 1)), Ok(()));
}

#[test]
fn failed_place_leaves_the_board_untouched() {
    let mut g = Game::new(2, 2);
    g.place(0, 0, Cell::Guess(0, 1)).unwrap();
    let snapshot = g.clone();
    let err = g.place(0, 1, Cell::Guess(1, 1)).unwrap_err();
    assert_eq!(err.reason, MoveError::DuplicateGuess);
    assert_eq!(err.row, 0);
    assert_eq!(err.col, 1);
    assert_eq!(err.cell, Cell::Guess(1, 1));
    assert!(err.game.same_state(&snapshot));
    assert!(g.same_state(&snapshot));
    let err2 = g.place(5, 0, Cell::CrossedOut).unwrap_err();
    assert_eq!(err2.reason, MoveError::RowOutOfBounds);
    assert!(g.same_state(&snapshot));
}

#[test]
fn error_messages_name_the_reason() {
    assert_eq!(MoveError::RowOutOfBounds.message(), "Row is out of bounds");
    assert_eq!(MoveError::GuessZero.message(), "Cannot guess 0");
    assert_eq!(
        MoveError::DuplicateGuess.message(),
        "Only one of each guess value per row/column"
    );
}

#[test]
fn enumerated_actions_all_succeed() {
    let mut g = Game::new(2, 2);
    g.place(0, 0, Cell::Guess(0, 1)).unwrap();
    let actions = g.get_legal_actions();
    assert!(!actions.is_empty());
    for a in actions {
        let mut copy = g.clone();
        assert!(copy.place(a.row, a.col, a.cell).is_ok());
    }
}

#[test]
fn one_by_one_board_has_exactly_two_actions() {
    let g = Game::new(1, 1);
    let actions = g.get_legal_actions();
    assert_eq!(actions.len(), 2);
    assert_eq!(actions[0].row, 0);
    assert_eq!(actions[0].col, 0);
    assert_eq!(actions[0].cell, Cell::CrossedOut);
    assert_eq!(actions[1].cell, Cell::Guess(0, 1));
}

#[test]
fn placement_flips_the_active_player() {
    let mut g = Game::new(2, 2);
    g.place(0, 0, Cell::CrossedOut).unwrap();
    assert_eq!(g.active_player, 1);
    g.place(1, 1, Cell::Guess(1, 1)).unwrap();
    assert_eq!(g.active_player, 0);
}

#[test]
fn diagonal_guesses_may_leave_usable_cells_empty() {
    // player 0 guesses 1 at (0,0); player 1 cannot answer 1 in row 0 or
    // column 0 but can at (1,1); afterwards guess number 2 is still legal in
    // the two remaining cells, so the cascade does not touch them
    let mut g = Game::new(2, 2);
    g.place(0, 0, Cell::Guess(0, 1)).unwrap();
    assert!(g.is_legal_move(0, 1, &Cell::Guess(1, 1)).is_err());
    assert!(g.is_legal_move(1, 0, &Cell::Guess(1, 1)).is_err());
    g.place(1, 1, Cell::Guess(1, 1)).unwrap();
    assert_eq!(*g.get_cell(0, 1), Cell::Empty);
    assert_eq!(*g.get_cell(1, 0), Cell::Empty);
    assert_eq!(g.empty_cells(), 2);
}

#[test]
fn cascade_crosses_out_unusable_cells() {
    // after 1 at (0,0) and 2 at (1,1), every guess number conflicts for the
    // two remaining cells, so both are crossed out automatically
    let mut g = Game::new(2, 2);
    g.place(0, 0, Cell::Guess(0, 1)).unwrap();
    g.place(1, 1, Cell::Guess(1, 2)).unwrap();
    assert_eq!(*g.get_cell(0, 1), Cell::CrossedOut);
    assert_eq!(*g.get_cell(1, 0), Cell::CrossedOut);
    assert!(g.is_finished());
    assert_eq!(g.get_scores(), [2, 0]);
}

#[test]
fn scores_count_matching_guesses_per_full_line() {
    let mut g = Game::new(2, 2);
    g.place(0, 0, Cell::Guess(0, 1)).unwrap();
    g.place(1, 1, Cell::Guess(1, 1)).unwrap();
    g.place(0, 1, Cell::Guess(0, 2)).unwrap();
    g.place(1, 0, Cell::Guess(1, 2)).unwrap();
    assert!(g.is_finished());
    // each full line holds two guesses; the guess reading 2 scores in it
    assert_eq!(g.get_scores(), [4, 4]);
}

#[test]
fn partially_filled_lines_score_nothing() {
    let mut g = Game::new(2, 2);
    g.place(0, 0, Cell::Guess(0, 1)).unwrap();
    assert_eq!(g.get_scores(), [0, 0]);
    g.place(0, 1, Cell::Guess(1, 2)).unwrap();
    // row 0 is full with guesses 1 and 2: the 2 scores for player 1
    assert_eq!(g.get_scores(), [0, 2]);
}

#[test]
fn scoring_is_idempotent_on_a_finished_board() {
    let mut g = Game::new(2, 2);
    g.place(0, 0, Cell::Guess(0, 1)).unwrap();
    g.place(1, 1, Cell::Guess(1, 2)).unwrap();
    assert!(g.is_finished());
    let first = g.get_scores();
    let second = g.get_scores();
    let third = g.get_scores();
    assert_eq!(first, second);
    assert_eq!(second, third);
}

#[test]
fn transposed_board_has_transposed_scores() {
    // build a 2x3 position and its 3x2 transpose cell by cell
    let mut g = Game::new(2, 3);
    let mut t = Game::new(3, 2);
    let cells = [
        (0usize, 0usize, Cell::Guess(0, 2)),
        (0, 1, Cell::Guess(1, 3)),
        (0, 2, Cell::CrossedOut),
        (1, 0, Cell::CrossedOut),
        (1, 1, Cell::Guess(0, 1)),
        (1, 2, Cell::Guess(1, 2)),
    ];
    for &(r, c, cell) in cells.iter() {
        g.set_cell(r, c, cell);
        t.set_cell(c, r, cell);
    }
    assert_eq!(g.get_scores(), t.get_scores());
}

#[test]
fn legal_placements_never_duplicate_a_number_in_a_line() {
    let mut g = Game::new(3, 3);
    // drive the game to completion with the enumerator itself
    loop {
        let actions = g.get_legal_actions();
        if actions.is_empty() {
            break;
        }
        let a = actions[0];
        g.place(a.row, a.col, a.cell).unwrap();
        // check the uniqueness invariant over the whole board
        for r1 in 0..3 {
            for c1 in 0..3 {
                for r2 in 0..3 {
                    for c2 in 0..3 {
                        if (r1, c1) == (r2, c2) || (r1 != r2 && c1 != c2) {
                            continue;
                        }
                        if let (Cell::Guess(_, n1), Cell::Guess(_, n2)) =
                            (*g.get_cell(r1, c1), *g.get_cell(r2, c2))
                        {
                            assert_ne!(n1, n2);
                        }
                    }
                }
            }
        }
    }
    assert!(g.is_finished());
}

#[test]
fn set_and_get_cell_roundtrip() {
    let mut g = Game::new(2, 2);
    g.set_cell(1, 0, Cell::Guess(1, 2));
    assert_eq!(*g.get_cell(1, 0), Cell::Guess(1, 2));
    assert_eq!(*g.get_cell(0, 0), Cell::Empty);
    assert_eq!(g.empty_cells(), 3);
}
