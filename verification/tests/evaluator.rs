use gomoku::EvalContext;
use gomoku::GameState;
use gomoku::evaluate;

#[test]
fn empty_board_evaluates_to_zero() {
    let state = GameState::new();
    let mut ctx = EvalContext::new();
    assert_eq!(evaluate(&mut ctx, &state), 0);
    assert_eq!(ctx.eval_count(), 1);
}

#[test]
fn evaluation_counter_counts_cache_hits_too() {
    let state = GameState::new();
    let mut ctx = EvalContext::new();
    let a = evaluate(&mut ctx, &state);
    let b = evaluate(&mut ctx, &state);
    assert_eq!(a, b);
    assert_eq!(ctx.eval_count(), 2);
}

/// Black holds a run of exactly five on row 7; four isolated white
/// pieces sit far from every line of the run. White is to move, so the
/// black five counts on the opponent side of the evaluation.
fn board_with_black_five() -> GameState {
    let mut state = GameState::new();
    state.make_move((2, 7)).unwrap();
    state.make_move((0, 13)).unwrap();
    state.make_move((3, 7)).unwrap();
    state.make_move((13, 0)).unwrap();
    state.make_move((4, 7)).unwrap();
    state.make_move((14, 14)).unwrap();
    state.make_move((5, 7)).unwrap();
    state.make_move((7, 0)).unwrap();
    state.make_move((6, 7)).unwrap();
    state
}

/// Black holds a run of six on row 7 ("Long"); five isolated white
/// pieces sit far from every line of the run. White is to move.
fn board_with_black_six() -> GameState {
    let mut state = GameState::new();
    state.make_move((1, 7)).unwrap();
    state.make_move((0, 13)).unwrap();
    state.make_move((2, 7)).unwrap();
    state.make_move((13, 0)).unwrap();
    state.make_move((3, 7)).unwrap();
    state.make_move((14, 14)).unwrap();
    state.make_move((4, 7)).unwrap();
    state.make_move((7, 0)).unwrap();
    state.make_move((5, 7)).unwrap();
    state.make_move((9, 13)).unwrap();
    state.make_move((6, 7)).unwrap();
    state
}

#[test]
fn five_in_a_row_scores_a_million_against_the_mover() {
    let state = board_with_black_five();
    let mut ctx = EvalContext::new();
    assert_eq!(evaluate(&mut ctx, &state), -1000000);
}

#[test]
fn overline_scores_identically_to_exact_five() {
    let five = board_with_black_five();
    let six = board_with_black_six();
    let mut ctx = EvalContext::new();
    let v5 = evaluate(&mut ctx, &five);
    let v6 = evaluate(&mut ctx, &six);
    assert_eq!(v5, v6);
    assert_eq!(v6, -1000000);
}

#[test]
fn live_two_scores_five_for_the_mover() {
    // Black pair (7,7),(7,8) open on both ends; one isolated white far
    // away; Black to move after two full turns.
    let mut state = GameState::new();
    state.make_move((7, 7)).unwrap();
    state.make_move((0, 0)).unwrap();
    state.make_move((7, 8)).unwrap();
    state.make_move((14, 14)).unwrap();
    // Black's pair is a live two on its column line (value 5); the pair
    // also forms sleep/live twos on no other axis, and each white is
    // isolated except for the shared main diagonal of (0,0) and
    // (14,14), which are 14 cells apart.
    let mut ctx = EvalContext::new();
    assert_eq!(evaluate(&mut ctx, &state), 5);
}
