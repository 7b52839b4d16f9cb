use gomoku::GameState;
use gomoku::Piece;
use gomoku::best_move;
use gomoku::best_move_from;

/// A nearly full board: every cell with x < 14, plus (14,0)..(14,10),
/// leaving the four cells (14,11)..(14,14) empty. Win outcomes during
/// the fill are irrelevant; the rules engine keeps accepting moves.
fn dense_board() -> GameState {
    let mut state = GameState::new();
    for x in 0..14 {
        for y in 0..15 {
            state.make_move((x, y)).unwrap();
        }
    }
    for y in 0..11 {
        state.make_move((14, y)).unwrap();
    }
    state
}

#[test]
fn seeded_best_move_is_reproducible() {
    let state = dense_board();
    let first = best_move_from(&state, 42);
    let second = best_move_from(&state, 42);
    assert_eq!(first, second);
    let rebuilt = dense_board();
    let third = best_move_from(&rebuilt, 42);
    assert_eq!(first, third);
}

#[test]
fn parallel_and_sequential_search_agree_on_the_score() {
    let state = dense_board();
    let (seq_point, seq_score) = best_move_from(&state, 0);
    let (par_point, par_score) = best_move(&state);
    assert_eq!(seq_score, par_score);
    assert!(seq_point.is_some());
    assert!(par_point.is_some());
}

#[test]
fn chosen_move_targets_a_legal_cell() {
    let state = dense_board();
    let (point, _) = best_move(&state);
    let (x, y) = point.expect("candidates exist");
    assert_eq!(state.piece((x, y)), Piece::Empty);
    assert_eq!(x, 14);
    assert!((11..15).contains(&y));
}

#[test]
fn best_move_on_empty_board_returns_none() {
    let state = GameState::new();
    let (point, score) = best_move(&state);
    assert_eq!(point, None);
    assert_eq!(score, i32::MIN);
    let (point2, score2) = best_move_from(&state, 7);
    assert_eq!(point2, None);
    assert_eq!(score2, i32::MIN);
}

#[test]
fn different_ties_stay_inside_the_candidate_cells() {
    let state = dense_board();
    for tie in 0..4u64 {
        let (point, _) = best_move_from(&state, tie);
        let (x, y) = point.expect("candidates exist");
        assert_eq!(state.piece((x, y)), Piece::Empty);
    }
}