use gomoku::GameState;
use gomoku::Piece;
use gomoku::generate_moves;
use gomoku::movegen::evaluate_location;

fn has_occupied_neighbor(state: &GameState, x: usize, y: usize) -> bool {
    for dx in -1i32..=1 {
        for dy in -1i32..=1 {
            if dx == 0 && dy == 0 {
                continue;
            }
            let px = x as i32 + dx;
            let py = y as i32 + dy;
            if px < 0 || py < 0 || px >= 15 || py >= 15 {
                continue;
            }
            if state.piece((px as usize, py as usize)) != Piece::Empty {
                return true;
            }
        }
    }
    false
}

#[test]
fn empty_board_yields_no_candidates() {
    let state = GameState::new();
    assert!(generate_moves(&state).is_empty());
}

#[test]
fn first_placement_yields_exactly_its_neighbors() {
    let mut state = GameState::new();
    state.make_move((7, 7)).unwrap();
    let moves = generate_moves(&state);
    let expected: Vec<(usize, usize)> = vec![
        (6, 6),
        (6, 7),
        (6, 8),
        (7, 6),
        (7, 8),
        (8, 6),
        (8, 7),
        (8, 8),
    ];
    assert_eq!(moves, expected);
}

#[test]
fn candidates_are_empty_cells_near_pieces() {
    let mut state = GameState::new();
    state.make_move((0, 0)).unwrap();
    state.make_move((10, 0)).unwrap();
    state.make_move((1, 1)).unwrap();
    state.make_move((11, 0)).unwrap();
    state.make_move((2, 2)).unwrap();
    let moves = generate_moves(&state);
    assert!(!moves.is_empty());
    for &(x, y) in &moves {
        assert_eq!(state.piece((x, y)), Piece::Empty);
        assert!(has_occupied_neighbor(&state, x, y));
    }
}

#[test]
fn candidates_are_sorted_ascending_by_location_score() {
    let mut state = GameState::new();
    state.make_move((0, 0)).unwrap();
    state.make_move((10, 0)).unwrap();
    state.make_move((1, 1)).unwrap();
    state.make_move((11, 0)).unwrap();
    state.make_move((2, 2)).unwrap();
    state.make_move((12, 0)).unwrap();
    state.make_move((3, 3)).unwrap();
    let moves = generate_moves(&state);
    for w in moves.windows(2) {
        assert!(evaluate_location(&state, w[0]) <= evaluate_location(&state, w[1]));
    }
}

#[test]
fn location_score_values_a_completing_cell() {
    let mut state = GameState::new();
    // Black diagonal (0,0)..(3,3); White row (10,0)..(12,0).
    state.make_move((0, 0)).unwrap();
    state.make_move((10, 0)).unwrap();
    state.make_move((1, 1)).unwrap();
    state.make_move((11, 0)).unwrap();
    state.make_move((2, 2)).unwrap();
    state.make_move((12, 0)).unwrap();
    state.make_move((3, 3)).unwrap();
    // (4,4) would complete a black run of five: one axis at value 100000.
    assert_eq!(evaluate_location(&state, (4, 4)), -100000);
    // (13,0) would extend the white row to four: one axis at value 1000.
    assert_eq!(evaluate_location(&state, (13, 0)), -1000);
}

#[test]
fn location_score_values_a_run_of_three() {
    let mut state = GameState::new();
    // Black diagonal (0,0),(1,1); White pair (10,0),(11,0).
    state.make_move((0, 0)).unwrap();
    state.make_move((10, 0)).unwrap();
    state.make_move((1, 1)).unwrap();
    state.make_move((11, 0)).unwrap();
    // (12,0) would make a white run of three: value 10.
    assert_eq!(evaluate_location(&state, (12, 0)), -10);
    // (2,2) would make a black run of three: value 10.
    assert_eq!(evaluate_location(&state, (2, 2)), -10);
}

#[test]
fn location_score_is_zero_far_from_everything() {
    let mut state = GameState::new();
    state.make_move((7, 7)).unwrap();
    assert_eq!(evaluate_location(&state, (0, 0)), 0);
}
