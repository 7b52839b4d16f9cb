use gomoku::GameEnd;
use gomoku::GameState;
use gomoku::MoveError;
use gomoku::Piece;

fn snapshot(state: &GameState) -> (Vec<Piece>, Piece) {
    let mut cells = Vec::new();
    for x in 0..15 {
        for y in 0..15 {
            cells.push(state.piece((x, y)));
        }
    }
    (cells, state.current_turn())
}

#[test]
fn new_board_is_empty_black_to_move() {
    let state = GameState::new();
    assert_eq!(state.current_turn(), Piece::Black);
    for x in 0..15 {
        for y in 0..15 {
            assert_eq!(state.piece((x, y)), Piece::Empty);
        }
    }
}

#[test]
fn move_out_of_bounds_fails_unchanged() {
    let mut state = GameState::new();
    state.make_move((3, 3)).unwrap();
    let before = snapshot(&state);
    assert_eq!(state.make_move((15, 0)), Err(MoveError::InvalidMove));
    assert_eq!(state.make_move((0, 15)), Err(MoveError::InvalidMove));
    assert_eq!(state.make_move((255, 255)), Err(MoveError::InvalidMove));
    assert_eq!(snapshot(&state), before);
}

#[test]
fn move_on_occupied_cell_fails_unchanged() {
    let mut state = GameState::new();
    assert_eq!(state.make_move((7, 7)), Ok(GameEnd::NotEnd));
    let before = snapshot(&state);
    assert_eq!(state.make_move((7, 7)), Err(MoveError::InvalidMove));
    assert_eq!(snapshot(&state), before);
}

#[test]
fn moves_alternate_turns_and_place_pieces() {
    let mut state = GameState::new();
    assert_eq!(state.make_move((0, 0)), Ok(GameEnd::NotEnd));
    assert_eq!(state.piece((0, 0)), Piece::Black);
    assert_eq!(state.current_turn(), Piece::White);
    assert_eq!(state.make_move((1, 0)), Ok(GameEnd::NotEnd));
    assert_eq!(state.piece((1, 0)), Piece::White);
    assert_eq!(state.current_turn(), Piece::Black);
}

#[test]
fn diagonal_five_wins_on_completing_move_only() {
    let mut state = GameState::new();
    // Black builds (0,0)..(3,3); White answers far away on row x=10..13.
    assert_eq!(state.make_move((0, 0)), Ok(GameEnd::NotEnd));
    assert_eq!(state.make_move((10, 0)), Ok(GameEnd::NotEnd));
    assert_eq!(state.make_move((1, 1)), Ok(GameEnd::NotEnd));
    assert_eq!(state.make_move((11, 0)), Ok(GameEnd::NotEnd));
    assert_eq!(state.make_move((2, 2)), Ok(GameEnd::NotEnd));
    assert_eq!(state.make_move((12, 0)), Ok(GameEnd::NotEnd));
    assert_eq!(state.make_move((3, 3)), Ok(GameEnd::NotEnd));
    assert_eq!(state.make_move((13, 0)), Ok(GameEnd::NotEnd));
    // The fifth diagonal piece completes the run.
    assert_eq!(state.make_move((4, 4)), Ok(GameEnd::Win));
}

#[test]
fn horizontal_five_wins_when_completed_in_the_middle() {
    let mut state = GameState::new();
    // Black: (2,7),(3,7),(5,7),(6,7), then the gap (4,7) completes five.
    assert_eq!(state.make_move((2, 7)), Ok(GameEnd::NotEnd));
    assert_eq!(state.make_move((0, 13)), Ok(GameEnd::NotEnd));
    assert_eq!(state.make_move((3, 7)), Ok(GameEnd::NotEnd));
    assert_eq!(state.make_move((13, 0)), Ok(GameEnd::NotEnd));
    assert_eq!(state.make_move((5, 7)), Ok(GameEnd::NotEnd));
    assert_eq!(state.make_move((14, 14)), Ok(GameEnd::NotEnd));
    assert_eq!(state.make_move((6, 7)), Ok(GameEnd::NotEnd));
    assert_eq!(state.make_move((7, 0)), Ok(GameEnd::NotEnd));
    assert_eq!(state.make_move((4, 7)), Ok(GameEnd::Win));
}

#[test]
fn get_max_link_count_reports_run_length() {
    let mut state = GameState::new();
    state.make_move((2, 7)).unwrap();
    state.make_move((0, 13)).unwrap();
    state.make_move((3, 7)).unwrap();
    state.make_move((13, 0)).unwrap();
    state.make_move((4, 7)).unwrap();
    assert_eq!(state.get_max_link_count((3, 7)), 3);
    assert_eq!(state.get_max_link_count((0, 13)), 1);
}

#[test]
fn filling_the_board_without_a_final_five_draws() {
    let mut state = GameState::new();
    // Fill every cell in board order except the last two, then place
    // (14,14) before (14,13): the final placement at (14,13) touches
    // runs of at most two of its own color, so the full board draws.
    for x in 0..15 {
        for y in 0..15 {
            if x == 14 && y >= 13 {
                continue;
            }
            state.make_move((x, y)).unwrap();
        }
    }
    state.make_move((14, 14)).unwrap();
    assert!(!state.board_is_full());
    assert_eq!(state.make_move((14, 13)), Ok(GameEnd::Draw));
    assert!(state.board_is_full());
}

#[test]
fn board_not_full_after_a_few_moves() {
    let mut state = GameState::new();
    state.make_move((7, 7)).unwrap();
    assert!(!state.board_is_full());
}
