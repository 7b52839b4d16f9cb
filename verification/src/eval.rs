//! The pattern-based evaluator: every axis-aligned line of the board is
//! turned into a token sequence, scanned greedily against a fixed
//! priority-ordered pattern catalogue, and the credited shapes are summed
//! for the side to move and subtracted for the opponent.

use vstd::prelude::*;

use crate::game::GameState;
use crate::game::Piece;
use crate::game::BoardModel;
use crate::game::cell;
use crate::game::wf;

verus! {

/// The shape categories the evaluator credits.
#[derive(Clone, Copy, Debug, PartialEq, Eq, Structural)]
pub enum PieceState {
    Long,
    Five,
    RushFour,
    LiveFour,
    LiveThree,
    SleepThree,
    LiveTwo,
    SleepTwo,
}

/// The value of one credited shape: the opponent's rush-fours and live
/// threes are weighted differently to encode tempo asymmetry.
pub open spec fn shape_value(s: PieceState, opp: bool) -> int {
    match s {
        PieceState::Long => 1000000,
        PieceState::Five => 1000000,
        PieceState::RushFour => if opp {
            5000
        } else {
            2000
        },
        PieceState::LiveFour => 10000,
        PieceState::LiveThree => if opp {
            200
        } else {
            2000
        },
        PieceState::SleepThree => 100,
        PieceState::LiveTwo => 5,
        PieceState::SleepTwo => 1,
    }
}

/// The token for one cell: 1 friendly, 0 empty, 2 enemy.
pub open spec fn token_of(c: Piece, my: Piece) -> i32 {
    if c == Piece::Empty {
        0i32
    } else if c == my {
        1i32
    } else {
        2i32
    }
}

/// A sequence reversed.
pub open spec fn rev(s: Seq<i32>) -> Seq<i32> {
    Seq::new(s.len(), |i: int| s[s.len() - 1 - i])
}

/// The base pattern catalogue, in priority order.
pub open spec fn base_patterns() -> Seq<(Seq<i32>, PieceState)> {
    seq![
        (seq![1i32, 1i32, 1i32, 1i32, 1i32, 1i32], PieceState::Long),
        (seq![1i32, 1i32, 1i32, 1i32, 1i32], PieceState::Five),
        (seq![0i32, 1i32, 1i32, 1i32, 1i32, 0i32], PieceState::LiveFour),
        (seq![0i32, 1i32, 1i32, 1i32, 0i32, 0i32], PieceState::LiveThree),
        (seq![0i32, 1i32, 0i32, 1i32, 1i32, 0i32], PieceState::LiveThree),
        (seq![0i32, 0i32, 1i32, 1i32, 0i32, 0i32], PieceState::LiveTwo),
        (seq![2i32, 1i32, 1i32, 1i32, 1i32, 0i32], PieceState::RushFour),
        (seq![1i32, 1i32, 0i32, 1i32, 1i32], PieceState::RushFour),
        (seq![1i32, 0i32, 1i32, 1i32, 1i32], PieceState::RushFour),
        (seq![1i32, 0i32, 0i32, 1i32, 1i32], PieceState::SleepThree),
        (seq![2i32, 1i32, 1i32, 1i32, 0i32, 0i32], PieceState::SleepThree),
        (seq![2i32, 1i32, 1i32, 0i32, 1i32, 0i32], PieceState::SleepThree),
        (seq![2i32, 1i32, 0i32, 1i32, 1i32, 0i32], PieceState::SleepThree),
        (seq![2i32, 1i32, 1i32, 0i32, 0i32, 0i32], PieceState::SleepTwo),
        (seq![2i32, 1i32, 0i32, 1i32, 0i32, 0i32], PieceState::SleepTwo),
        (seq![2i32, 1i32, 0i32, 0i32, 1i32, 0i32], PieceState::SleepTwo),
        (seq![2i32, 1i32, 0i32, 0i32, 0i32, 1i32], PieceState::SleepTwo),
        (seq![2i32, 0i32, 1i32, 1i32, 0i32, 0i32, 2i32], PieceState::SleepTwo),
        (seq![2i32, 0i32, 1i32, 0i32, 1i32, 0i32, 2i32], PieceState::SleepTwo),
    ]
}

/// A pattern together with its reversal, unless it is a palindrome.
pub open spec fn pattern_with_reverse(p: (Seq<i32>, PieceState)) -> Seq<(Seq<i32>, PieceState)> {
    if p.0 == rev(p.0) {
        seq![p]
    } else {
        seq![p, (rev(p.0), p.1)]
    }
}

/// The base catalogue with every non-palindromic pattern followed by its
/// reversal, keeping the priority order.
pub open spec fn expand_patterns(s: Seq<(Seq<i32>, PieceState)>) -> Seq<(Seq<i32>, PieceState)>
    decreases s.len(),
{
    if s.len() == 0 {
        Seq::empty()
    } else {
        expand_patterns(s.drop_last()) + pattern_with_reverse(s.last())
    }
}

/// The full pattern catalogue the scanner tries, in priority order.
pub open spec fn patterns() -> Seq<(Seq<i32>, PieceState)> {
    expand_patterns(base_patterns())
}

/// `pat` occurs in `line` starting at position `i`.
pub open spec fn match_at(line: Seq<i32>, i: int, pat: Seq<i32>) -> bool {
    0 <= i && i + pat.len() <= line.len() && (forall|k: int|
        0 <= k < pat.len() ==> line[i + k] == pat[k])
}

/// The first catalogue index at or after `j` whose pattern matches at
/// `i`, or the catalogue length when none does.
pub open spec fn find_from(line: Seq<i32>, i: int, j: nat) -> nat
    decreases patterns().len() - j,
{
    if j >= patterns().len() {
        j
    } else if match_at(line, i, patterns()[j as int].0) {
        j
    } else {
        find_from(line, i, (j + 1) as nat)
    }
}

/// The greedy left-to-right scan of one token line from position `i`:
/// on a match of the highest-priority pattern, credit its shape and jump
/// past the matched span; otherwise advance one token. The scan stops
/// where not even the shortest pattern (5 tokens) could fit.
pub open spec fn scan_score(line: Seq<i32>, i: nat, opp: bool) -> int
    decreases line.len() - i,
{
    if i + 5 > line.len() {
        0
    } else {
        let j = find_from(line, i as int, 0);
        if j < patterns().len() {
            let pat = patterns()[j as int].0;
            if 1 <= pat.len() && i + pat.len() <= line.len() {
                shape_value(patterns()[j as int].1, opp) + scan_score(
                    line,
                    (i + pat.len()) as nat,
                    opp,
                )
            } else {
                0
            }
        } else {
            scan_score(line, (i + 1) as nat, opp)
        }
    }
}

/// The score of one padded token line; lines shorter than 8 tokens are
/// skipped entirely.
pub open spec fn line_score(tokens: Seq<i32>, opp: bool) -> int {
    if tokens.len() >= 8 {
        scan_score(tokens, 0, opp)
    } else {
        0
    }
}

/// The token sequence of the `len` cells from (sx, sy) along (dx, dy),
/// padded with a boundary sentinel 2 at both ends.
pub open spec fn line_tokens(
    m: BoardModel,
    my: Piece,
    sx: int,
    sy: int,
    dx: int,
    dy: int,
    len: nat,
) -> Seq<i32> {
    seq![2i32] + Seq::new(len, |k: int| token_of(cell(m, sx + k * dx, sy + k * dy), my))
        + seq![2i32]
}

/// The summed line scores of the rows with index `y` and above.
pub open spec fn rows_score(m: BoardModel, my: Piece, opp: bool, y: nat) -> int
    decreases 15 - y,
{
    if y >= 15 {
        0
    } else {
        line_score(line_tokens(m, my, 0, y as int, 1, 0, 15), opp) + rows_score(m, my, opp, y + 1)
    }
}

/// The summed line scores of the columns with index `x` and above.
pub open spec fn cols_score(m: BoardModel, my: Piece, opp: bool, x: nat) -> int
    decreases 15 - x,
{
    if x >= 15 {
        0
    } else {
        line_score(line_tokens(m, my, x as int, 0, 0, 1, 15), opp) + cols_score(m, my, opp, x + 1)
    }
}

/// The tokens of the k-th down-right diagonal (direction (1, 1)).
pub open spec fn diag_down_tokens(m: BoardModel, my: Piece, k: int) -> Seq<i32> {
    if k < 15 {
        line_tokens(m, my, k, 0, 1, 1, (15 - k) as nat)
    } else {
        line_tokens(m, my, 0, k - 14, 1, 1, (29 - k) as nat)
    }
}

/// The summed line scores of the down-right diagonals with index `k` and
/// above.
pub open spec fn diag_down_score(m: BoardModel, my: Piece, opp: bool, k: nat) -> int
    decreases 29 - k,
{
    if k >= 29 {
        0
    } else {
        line_score(diag_down_tokens(m, my, k as int), opp) + diag_down_score(m, my, opp, k + 1)
    }
}

/// The tokens of the k-th up-right diagonal (direction (1, -1)).
pub open spec fn diag_up_tokens(m: BoardModel, my: Piece, k: int) -> Seq<i32> {
    if k < 15 {
        line_tokens(m, my, k, 14, 1, -1, (15 - k) as nat)
    } else {
        line_tokens(m, my, 0, k - 15, 1, -1, (k - 14) as nat)
    }
}

/// The summed line scores of the up-right diagonals with index `k` and
/// above.
pub open spec fn diag_up_score(m: BoardModel, my: Piece, opp: bool, k: nat) -> int
    decreases 29 - k,
{
    if k >= 29 {
        0
    } else {
        line_score(diag_up_tokens(m, my, k as int), opp) + diag_up_score(m, my, opp, k + 1)
    }
}

/// The credited shape values over every qualifying line of the board,
/// with the cells of `my` as friendly tokens.
pub open spec fn side_score(m: BoardModel, my: Piece, opp: bool) -> int {
    rows_score(m, my, opp, 0) + cols_score(m, my, opp, 0) + diag_down_score(m, my, opp, 0)
        + diag_up_score(m, my, opp, 0)
}

/// The evaluation of a position from the perspective of the side to
/// move: that side's credited shapes minus the opponent's, the latter
/// valued with the opponent table.
pub open spec fn eval_score(m: BoardModel) -> int {
    side_score(m, m.turn, false) - side_score(m, crate::game::opponent(m.turn), true)
}

/// The scan credits nothing negative, and at most a million per token
/// position remaining.
proof fn lemma_scan_bound(line: Seq<i32>, i: nat, opp: bool)
    ensures
        0 <= scan_score(line, i, opp),
        i <= line.len() ==> scan_score(line, i, opp) <= 1000000 * (line.len() - i),
    decreases line.len() - i,
{
    if i + 5 > line.len() {
    } else {
        let j = find_from(line, i as int, 0);
        if j < patterns().len() {
            let pat = patterns()[j as int].0;
            if 1 <= pat.len() && i + pat.len() <= line.len() {
                lemma_scan_bound(line, (i + pat.len()) as nat, opp);
            }
        } else {
            lemma_scan_bound(line, (i + 1) as nat, opp);
        }
    }
}

/// Bound on the summed row scores.
proof fn lemma_rows_bound(m: BoardModel, my: Piece, opp: bool, y: nat)
    requires
        y <= 15,
    ensures
        0 <= rows_score(m, my, opp, y) <= 17000000 * (15 - y),
    decreases 15 - y,
{
    if y < 15 {
        lemma_rows_bound(m, my, opp, y + 1);
        lemma_scan_bound(line_tokens(m, my, 0, y as int, 1, 0, 15), 0, opp);
    }
}

/// Bound on the summed column scores.
proof fn lemma_cols_bound(m: BoardModel, my: Piece, opp: bool, x: nat)
    requires
        x <= 15,
    ensures
        0 <= cols_score(m, my, opp, x) <= 17000000 * (15 - x),
    decreases 15 - x,
{
    if x < 15 {
        lemma_cols_bound(m, my, opp, x + 1);
        lemma_scan_bound(line_tokens(m, my, x as int, 0, 0, 1, 15), 0, opp);
    }
}

/// Bound on the summed down-right diagonal scores.
proof fn lemma_diag_down_bound(m: BoardModel, my: Piece, opp: bool, k: nat)
    requires
        k <= 29,
    ensures
        0 <= diag_down_score(m, my, opp, k) <= 17000000 * (29 - k),
    decreases 29 - k,
{
    if k < 29 {
        lemma_diag_down_bound(m, my, opp, k + 1);
        lemma_scan_bound(diag_down_tokens(m, my, k as int), 0, opp);
    }
}

/// Bound on the summed up-right diagonal scores.
proof fn lemma_diag_up_bound(m: BoardModel, my: Piece, opp: bool, k: nat)
    requires
        k <= 29,
    ensures
        0 <= diag_up_score(m, my, opp, k) <= 17000000 * (29 - k),
    decreases 29 - k,
{
    if k < 29 {
        lemma_diag_up_bound(m, my, opp, k + 1);
        lemma_scan_bound(diag_up_tokens(m, my, k as int), 0, opp);
    }
}

/// The same position with the two sides' labels swapped, turn included.
pub open spec fn flip_model(m: BoardModel) -> BoardModel {
    BoardModel {
        cells: Seq::new(m.cells.len(), |i: int| crate::game::opponent(m.cells[i])),
        turn: crate::game::opponent(m.turn),
    }
}

/// The k-th cell of a line lies inside the linear cell range.
pub open spec fn line_idx_ok(sx: int, sy: int, dx: int, dy: int, k: int) -> bool {
    0 <= (sx + k * dx) * 15 + (sy + k * dy) < 225
}

/// Swapping both the cell and the friendly side leaves the token alone.
proof fn lemma_token_flip(c: Piece, my: Piece)
    requires
        crate::game::is_side(my),
    ensures
        token_of(crate::game::opponent(c), crate::game::opponent(my)) == token_of(c, my),
{
}

/// One line of the flipped board reads the same tokens.
proof fn lemma_line_flip(m: BoardModel, my: Piece, sx: int, sy: int, dx: int, dy: int, len: nat)
    requires
        wf(m),
        crate::game::is_side(my),
        forall|k: int| 0 <= k < len ==> #[trigger] line_idx_ok(sx, sy, dx, dy, k),
    ensures
        line_tokens(flip_model(m), crate::game::opponent(my), sx, sy, dx, dy, len) == line_tokens(
            m,
            my,
            sx,
            sy,
            dx,
            dy,
            len,
        ),
{
    let a = line_tokens(flip_model(m), crate::game::opponent(my), sx, sy, dx, dy, len);
    let b = line_tokens(m, my, sx, sy, dx, dy, len);
    assert forall|j: int| 0 <= j < b.len() implies a[j] == b[j] by {
        if 1 <= j <= len {
            let k = j - 1;
            assert(line_idx_ok(sx, sy, dx, dy, k));
            assert(cell(flip_model(m), sx + k * dx, sy + k * dy) == crate::game::opponent(
                cell(m, sx + k * dx, sy + k * dy),
            ));
            lemma_token_flip(cell(m, sx + k * dx, sy + k * dy), my);
        }
    }
    assert(a =~= b);
}

/// Row scores are invariant under side inversion.
proof fn lemma_rows_flip(m: BoardModel, my: Piece, opp: bool, y: nat)
    requires
        wf(m),
        crate::game::is_side(my),
    ensures
        rows_score(flip_model(m), crate::game::opponent(my), opp, y) == rows_score(m, my, opp, y),
    decreases 15 - y,
{
    if y < 15 {
        lemma_rows_flip(m, my, opp, y + 1);
        lemma_line_flip(m, my, 0, y as int, 1, 0, 15);
    }
}

/// Column scores are invariant under side inversion.
proof fn lemma_cols_flip(m: BoardModel, my: Piece, opp: bool, x: nat)
    requires
        wf(m),
        crate::game::is_side(my),
    ensures
        cols_score(flip_model(m), crate::game::opponent(my), opp, x) == cols_score(m, my, opp, x),
    decreases 15 - x,
{
    if x < 15 {
        lemma_cols_flip(m, my, opp, x + 1);
        lemma_line_flip(m, my, x as int, 0, 0, 1, 15);
    }
}

/// Down-right diagonal scores are invariant under side inversion.
proof fn lemma_diag_down_flip(m: BoardModel, my: Piece, opp: bool, k: nat)
    requires
        wf(m),
        crate::game::is_side(my),
    ensures
        diag_down_score(flip_model(m), crate::game::opponent(my), opp, k) == diag_down_score(
            m,
            my,
            opp,
            k,
        ),
    decreases 29 - k,
{
    if k < 29 {
        lemma_diag_down_flip(m, my, opp, k + 1);
        if k < 15 {
            lemma_line_flip(m, my, k as int, 0, 1, 1, (15 - k) as nat);
        } else {
            lemma_line_flip(m, my, 0, k - 14, 1, 1, (29 - k) as nat);
        }
    }
}

/// Up-right diagonal scores are invariant under side inversion.
proof fn lemma_diag_up_flip(m: BoardModel, my: Piece, opp: bool, k: nat)
    requires
        wf(m),
        crate::game::is_side(my),
    ensures
        diag_up_score(flip_model(m), crate::game::opponent(my), opp, k) == diag_up_score(
            m,
            my,
            opp,
            k,
        ),
    decreases 29 - k,
{
    if k < 29 {
        lemma_diag_up_flip(m, my, opp, k + 1);
        if k < 15 {
            lemma_line_flip(m, my, k as int, 14, 1, -1, (15 - k) as nat);
        } else {
            lemma_line_flip(m, my, 0, k - 15, 1, -1, (k - 14) as nat);
        }
    }
}

/// A side's score on the flipped board equals the other side's score on
/// the original.
proof fn lemma_side_flip(m: BoardModel, my: Piece, opp: bool)
    requires
        wf(m),
        crate::game::is_side(my),
    ensures
        side_score(flip_model(m), crate::game::opponent(my), opp) == side_score(m, my, opp),
{
    lemma_rows_flip(m, my, opp, 0);
    lemma_cols_flip(m, my, opp, 0);
    lemma_diag_down_flip(m, my, opp, 0);
    lemma_diag_up_flip(m, my, opp, 0);
}

/// The evaluation is symmetric under side inversion: swapping every
/// piece's side label together with the turn marker yields an equal
/// score.
pub proof fn lemma_evaluate_symmetric(m: BoardModel)
    requires
        wf(m),
    ensures
        eval_score(flip_model(m)) == eval_score(m),
{
    let t = m.turn;
    lemma_side_flip(m, t, false);
    lemma_side_flip(m, crate::game::opponent(t), true);
    assert(crate::game::opponent(crate::game::opponent(t)) == t);
}

/// The abstraction of an executable pattern list.
pub open spec fn abs_pats(v: Seq<(Vec<i32>, PieceState)>) -> Seq<(Seq<i32>, PieceState)> {
    Seq::new(v.len(), |i: int| (v[i].0@, v[i].1))
}

/// An executable pattern list that realises the catalogue.
pub open spec fn pats_ok(v: Seq<(Vec<i32>, PieceState)>) -> bool {
    abs_pats(v) == patterns() && (forall|i: int| 0 <= i < v.len() ==> v[i].0@.len() >= 1)
}

/// When a pattern matches at the result of `find_from`, that result is a
/// real catalogue index and its pattern matches.
proof fn lemma_find_from_match(line: Seq<i32>, i: int, j: nat)
    requires
        find_from(line, i, j) < patterns().len(),
    ensures
        j <= find_from(line, i, j),
        match_at(line, i, patterns()[find_from(line, i, j) as int].0),
    decreases patterns().len() - j,
{
    if j >= patterns().len() {
    } else if match_at(line, i, patterns()[j as int].0) {
    } else {
        lemma_find_from_match(line, i, (j + 1) as nat);
    }
}

/// Skipping a prefix of non-matching patterns leaves the result alone.
proof fn lemma_find_skip(line: Seq<i32>, i: int, j: nat)
    requires
        j <= patterns().len(),
        forall|k: int| 0 <= k < j ==> !match_at(line, i, patterns()[k].0),
    ensures
        find_from(line, i, 0) == find_from(line, i, j),
    decreases j,
{
    if j > 0 {
        lemma_find_skip(line, i, (j - 1) as nat);
        assert(find_from(line, i, (j - 1) as nat) == find_from(line, i, j));
    }
}

/// A vector with exactly the five given tokens.
fn mk5(a: i32, b: i32, c: i32, d: i32, e: i32) -> (r: Vec<i32>)
    ensures
        r@ == seq![a, b, c, d, e],
{
    let mut v: Vec<i32> = Vec::new();
    v.push(a);
    v.push(b);
    v.push(c);
    v.push(d);
    v.push(e);
    proof {
        assert(v@ =~= seq![a, b, c, d, e]);
    }
    v
}

/// A vector with exactly the six given tokens.
fn mk6(a: i32, b: i32, c: i32, d: i32, e: i32, f: i32) -> (r: Vec<i32>)
    ensures
        r@ == seq![a, b, c, d, e, f],
{
    let mut v = mk5(a, b, c, d, e);
    v.push(f);
    proof {
        assert(v@ =~= seq![a, b, c, d, e, f]);
    }
    v
}

/// A vector with exactly the seven given tokens.
fn mk7(a: i32, b: i32, c: i32, d: i32, e: i32, f: i32, g: i32) -> (r: Vec<i32>)
    ensures
        r@ == seq![a, b, c, d, e, f, g],
{
    let mut v = mk6(a, b, c, d, e, f);
    v.push(g);
    proof {
        assert(v@ =~= seq![a, b, c, d, e, f, g]);
    }
    v
}

/// The base catalogue as an executable list.
fn make_base() -> (r: Vec<(Vec<i32>, PieceState)>)
    ensures
        abs_pats(r@) == base_patterns(),
        forall|i: int| 0 <= i < r@.len() ==> r@[i].0@.len() >= 1,
{
    let mut v: Vec<(Vec<i32>, PieceState)> = Vec::new();
    v.push((mk6(1, 1, 1, 1, 1, 1), PieceState::Long));
    v.push((mk5(1, 1, 1, 1, 1), PieceState::Five));
    v.push((mk6(0, 1, 1, 1, 1, 0), PieceState::LiveFour));
    v.push((mk6(0, 1, 1, 1, 0, 0), PieceState::LiveThree));
    v.push((mk6(0, 1, 0, 1, 1, 0), PieceState::LiveThree));
    v.push((mk6(0, 0, 1, 1, 0, 0), PieceState::LiveTwo));
    v.push((mk6(2, 1, 1, 1, 1, 0), PieceState::RushFour));
    v.push((mk5(1, 1, 0, 1, 1), PieceState::RushFour));
    v.push((mk5(1, 0, 1, 1, 1), PieceState::RushFour));
    v.push((mk5(1, 0, 0, 1, 1), PieceState::SleepThree));
    v.push((mk6(2, 1, 1, 1, 0, 0), PieceState::SleepThree));
    v.push((mk6(2, 1, 1, 0, 1, 0), PieceState::SleepThree));
    v.push((mk6(2, 1, 0, 1, 1, 0), PieceState::SleepThree));
    v.push((mk6(2, 1, 1, 0, 0, 0), PieceState::SleepTwo));
    v.push((mk6(2, 1, 0, 1, 0, 0), PieceState::SleepTwo));
    v.push((mk6(2, 1, 0, 0, 1, 0), PieceState::SleepTwo));
    v.push((mk6(2, 1, 0, 0, 0, 1), PieceState::SleepTwo));
    v.push((mk7(2, 0, 1, 1, 0, 0, 2), PieceState::SleepTwo));
    v.push((mk7(2, 0, 1, 0, 1, 0, 2), PieceState::SleepTwo));
    proof {
        assert(abs_pats(v@) =~= base_patterns());
    }
    v
}

/// An exact copy of a token vector.
fn copy_vec(v: &Vec<i32>) -> (r: Vec<i32>)
    ensures
        r@ == v@,
{
    let mut out: Vec<i32> = Vec::new();
    let mut i: usize = 0;
    while i < v.len()
        invariant
            i <= v@.len(),
            out@.len() == i,
            forall|j: int| 0 <= j < i ==> out@[j] == v@[j],
        decreases v@.len() - i,
    {
        out.push(v[i]);
        i = i + 1;
    }
    proof {
        assert(out@ =~= v@);
    }
    out
}

/// The tokens of `sequence` in reverse order.
fn inv(sequence: &Vec<i32>) -> (r: Vec<i32>)
    ensures
        r@ == rev(sequence@),
{
    let mut out: Vec<i32> = Vec::new();
    let mut i: usize = sequence.len();
    while i > 0
        invariant
            i <= sequence@.len(),
            out@.len() == sequence@.len() - i,
            forall|j: int| 0 <= j < out@.len() ==> out@[j] == sequence@[sequence@.len() - 1 - j],
        decreases i,
    {
        i = i - 1;
        out.push(sequence[i]);
    }
    proof {
        assert(out@ =~= rev(sequence@));
    }
    out
}

/// Whether `sequence` reads the same in both directions.
fn loopback(sequence: &Vec<i32>) -> (r: bool)
    requires
        sequence@.len() >= 1,
    ensures
        r == (sequence@ == rev(sequence@)),
{
    let mut left: usize = 0;
    let mut right: usize = sequence.len() - 1;
    while left < right
        invariant
            left + right == sequence@.len() - 1,
            left <= sequence@.len(),
            right < sequence@.len(),
            forall|t: int|
                0 <= t < left ==> #[trigger] sequence@[t] == sequence@[sequence@.len() - 1 - t],
        decreases right + 1 - left,
    {
        if sequence[left] != sequence[right] {
            proof {
                assert(rev(sequence@)[left as int] == sequence@[right as int]);
                assert(sequence@ != rev(sequence@));
            }
            return false;
        }
        left = left + 1;
        right = right - 1;
    }
    proof {
        assert forall|t: int| 0 <= t < sequence@.len() implies sequence@[t] == rev(sequence@)[t] by {
            let n = sequence@.len() as int;
            if t < left {
            } else if n - 1 - t < left {
                assert(sequence@[n - 1 - t] == sequence@[n - 1 - (n - 1 - t)]);
            } else {
                assert(t == n - 1 - t);
            }
        }
        assert(sequence@ =~= rev(sequence@));
    }
    true
}

/// The catalogue with each non-palindromic pattern followed by its
/// reversal.
fn with_inv(base: Vec<(Vec<i32>, PieceState)>) -> (r: Vec<(Vec<i32>, PieceState)>)
    requires
        forall|i: int| 0 <= i < base@.len() ==> base@[i].0@.len() >= 1,
    ensures
        abs_pats(r@) == expand_patterns(abs_pats(base@)),
        forall|i: int| 0 <= i < r@.len() ==> r@[i].0@.len() >= 1,
{
    let mut out: Vec<(Vec<i32>, PieceState)> = Vec::new();
    let mut i: usize = 0;
    while i < base.len()
        invariant
            i <= base@.len(),
            forall|t: int| 0 <= t < base@.len() ==> base@[t].0@.len() >= 1,
            abs_pats(out@) == expand_patterns(abs_pats(base@).subrange(0, i as int)),
            forall|t: int| 0 <= t < out@.len() ==> out@[t].0@.len() >= 1,
        decreases base@.len() - i,
    {
        let entry = &base[i];
        let st = entry.1;
        let pal = loopback(&entry.0);
        let copied = copy_vec(&entry.0);
        out.push((copied, st));
        if !pal {
            let reversed = inv(&entry.0);
            out.push((reversed, st));
        }
        proof {
            let whole = abs_pats(base@);
            assert(whole.subrange(0, i + 1).drop_last() =~= whole.subrange(0, i as int));
            assert(whole.subrange(0, i + 1).last() == whole[i as int]);
            assert(abs_pats(out@) =~= expand_patterns(whole.subrange(0, i + 1)));
        }
        i = i + 1;
    }
    proof {
        assert(abs_pats(base@).subrange(0, base@.len() as int) =~= abs_pats(base@));
    }
    out
}

/// The full executable pattern catalogue.
fn make_patterns() -> (r: Vec<(Vec<i32>, PieceState)>)
    ensures
        pats_ok(r@),
{
    let base = make_base();
    with_inv(base)
}

/// The value of one credited shape.
fn shape_value_exec(s: PieceState, opp: bool) -> (r: i32)
    ensures
        r as int == shape_value(s, opp),
        1 <= r <= 1000000,
{
    match s {
        PieceState::Long => 1000000,
        PieceState::Five => 1000000,
        PieceState::RushFour => if opp {
            5000
        } else {
            2000
        },
        PieceState::LiveFour => 10000,
        PieceState::LiveThree => if opp {
            200
        } else {
            2000
        },
        PieceState::SleepThree => 100,
        PieceState::LiveTwo => 5,
        PieceState::SleepTwo => 1,
    }
}

/// Whether `pat` occurs in `line` at position `i`.
fn match_at_exec(line: &Vec<i32>, i: usize, pat: &Vec<i32>) -> (r: bool)
    requires
        i <= line@.len(),
    ensures
        r == match_at(line@, i as int, pat@),
{
    if pat.len() > line.len() - i {
        return false;
    }
    let n = line.len();
    let mut k: usize = 0;
    while k < pat.len()
        invariant
            n == line@.len(),
            i + pat@.len() <= n,
            k <= pat@.len(),
            forall|j: int| 0 <= j < k ==> line@[i + j] == pat@[j],
        decreases pat@.len() - k,
    {
        if line[i + k] != pat[k] {
            proof {
                assert(line@[i + k] != pat@[k as int]);
            }
            return false;
        }
        k = k + 1;
    }
    true
}

/// The first catalogue index whose pattern matches at `i`, or the
/// catalogue length.
fn find_first(line: &Vec<i32>, i: usize, pats: &Vec<(Vec<i32>, PieceState)>) -> (res: usize)
    requires
        pats_ok(pats@),
        i <= line@.len(),
    ensures
        res as int == find_from(line@, i as int, 0),
{
    let mut j: usize = 0;
    while j < pats.len()
        invariant
            pats_ok(pats@),
            i <= line@.len(),
            j <= pats@.len(),
            forall|k: int| 0 <= k < j ==> !match_at(line@, i as int, patterns()[k].0),
        decreases pats@.len() - j,
    {
        let entry = &pats[j];
        if match_at_exec(line, i, &entry.0) {
            proof {
                assert(abs_pats(pats@)[j as int].0 == pats@[j as int].0@);
                lemma_find_skip(line@, i as int, j as nat);
            }
            return j;
        }
        proof {
            assert(abs_pats(pats@)[j as int].0 == pats@[j as int].0@);
        }
        j = j + 1;
    }
    proof {
        lemma_find_skip(line@, i as int, pats@.len() as nat);
    }
    pats.len()
}

/// The greedy scan of one padded token line, crediting shape values.
fn scan_line(line: &Vec<i32>, pats: &Vec<(Vec<i32>, PieceState)>, opp: bool) -> (r: i64)
    requires
        pats_ok(pats@),
        line@.len() <= 17,
    ensures
        r == scan_score(line@, 0, opp),
        0 <= r <= 17000000,
{
    proof {
        lemma_scan_bound(line@, 0, opp);
    }
    let mut score: i64 = 0;
    let mut i: usize = 0;
    while i + 5 <= line.len()
        invariant
            pats_ok(pats@),
            line@.len() <= 17,
            i <= line@.len(),
            score + scan_score(line@, i as nat, opp) == scan_score(line@, 0, opp),
            0 <= score <= 17000000,
        decreases line@.len() - i,
    {
        proof {
            lemma_scan_bound(line@, 0, opp);
        }
        let f = find_first(line, i, pats);
        if f < pats.len() {
            let entry = &pats[f];
            let plen = entry.0.len();
            let val = shape_value_exec(entry.1, opp);
            proof {
                lemma_find_from_match(line@, i as int, 0);
                assert(abs_pats(pats@)[f as int] == patterns()[f as int]);
                assert(entry.0@ == patterns()[f as int].0);
                assert(entry.1 == patterns()[f as int].1);
                assert(match_at(line@, i as int, patterns()[f as int].0));
                lemma_scan_bound(line@, (i + plen) as nat, opp);
            }
            score = score + val as i64;
            i = i + plen;
        } else {
            proof {
                assert(scan_score(line@, i as nat, opp) == scan_score(line@, (i + 1) as nat, opp));
            }
            i = i + 1;
        }
    }
    score
}

/// The tokens of row `y`, padded.
fn build_row(state: &GameState, my: Piece, y: usize) -> (r: Vec<i32>)
    requires
        wf(state@),
        y < 15,
    ensures
        r@ == line_tokens(state@, my, 0, y as int, 1, 0, 15),
{
    let mut v: Vec<i32> = Vec::new();
    v.push(2);
    let mut x: usize = 0;
    while x < 15
        invariant
            wf(state@),
            y < 15,
            x <= 15,
            v@.len() == x + 1,
            v@[0] == 2i32,
            forall|j: int| 0 <= j < x ==> v@[j + 1] == token_of(cell(state@, j, y as int), my),
        decreases 15 - x,
    {
        v.push(token_exec(state.piece((x, y)), my));
        x = x + 1;
    }
    v.push(2);
    proof {
        assert(v@ =~= line_tokens(state@, my, 0, y as int, 1, 0, 15));
    }
    v
}

/// The tokens of column `x`, padded.
fn build_col(state: &GameState, my: Piece, x: usize) -> (r: Vec<i32>)
    requires
        wf(state@),
        x < 15,
    ensures
        r@ == line_tokens(state@, my, x as int, 0, 0, 1, 15),
{
    let mut v: Vec<i32> = Vec::new();
    v.push(2);
    let mut y: usize = 0;
    while y < 15
        invariant
            wf(state@),
            x < 15,
            y <= 15,
            v@.len() == y + 1,
            v@[0] == 2i32,
            forall|j: int| 0 <= j < y ==> v@[j + 1] == token_of(cell(state@, x as int, j), my),
        decreases 15 - y,
    {
        v.push(token_exec(state.piece((x, y)), my));
        y = y + 1;
    }
    v.push(2);
    proof {
        assert(v@ =~= line_tokens(state@, my, x as int, 0, 0, 1, 15));
    }
    v
}

/// The tokens of the down-right diagonal starting at (sx, sy), padded.
fn build_diag_down(state: &GameState, my: Piece, sx: usize, sy: usize, len: usize) -> (r: Vec<i32>)
    requires
        wf(state@),
        sx + len <= 15,
        sy + len <= 15,
    ensures
        r@ == line_tokens(state@, my, sx as int, sy as int, 1, 1, len as nat),
{
    let mut v: Vec<i32> = Vec::new();
    v.push(2);
    let mut j: usize = 0;
    while j < len
        invariant
            wf(state@),
            sx + len <= 15,
            sy + len <= 15,
            j <= len,
            v@.len() == j + 1,
            v@[0] == 2i32,
            forall|t: int|
                1 <= t <= j ==> #[trigger] v@[t] == token_of(
                    cell(state@, sx + (t - 1), sy + (t - 1)),
                    my,
                ),
        decreases len - j,
    {
        v.push(token_exec(state.piece((sx + j, sy + j)), my));
        j = j + 1;
    }
    v.push(2);
    proof {
        assert(v@ =~= line_tokens(state@, my, sx as int, sy as int, 1, 1, len as nat));
    }
    v
}

/// The tokens of the up-right diagonal starting at (sx, sy), padded.
fn build_diag_up(state: &GameState, my: Piece, sx: usize, sy: usize, len: usize) -> (r: Vec<i32>)
    requires
        wf(state@),
        sx + len <= 15,
        len <= sy + 1,
        sy < 15,
    ensures
        r@ == line_tokens(state@, my, sx as int, sy as int, 1, -1, len as nat),
{
    let mut v: Vec<i32> = Vec::new();
    v.push(2);
    let mut j: usize = 0;
    while j < len
        invariant
            wf(state@),
            sx + len <= 15,
            len <= sy + 1,
            sy < 15,
            j <= len,
            v@.len() == j + 1,
            v@[0] == 2i32,
            forall|t: int|
                1 <= t <= j ==> #[trigger] v@[t] == token_of(
                    cell(state@, sx + (t - 1), sy - (t - 1)),
                    my,
                ),
        decreases len - j,
    {
        v.push(token_exec(state.piece((sx + j, sy - j)), my));
        j = j + 1;
    }
    v.push(2);
    proof {
        assert(v@ =~= line_tokens(state@, my, sx as int, sy as int, 1, -1, len as nat));
    }
    v
}

/// The token for one cell.
fn token_exec(c: Piece, my: Piece) -> (r: i32)
    ensures
        r == token_of(c, my),
{
    if c == Piece::Empty {
        0
    } else if c == my {
        1
    } else {
        2
    }
}

/// The credited shape values over every line of the board for one side.
fn eval_side(state: &GameState, my: Piece, opp: bool, pats: &Vec<(Vec<i32>, PieceState)>) -> (r:
    i64)
    requires
        wf(state@),
        pats_ok(pats@),
    ensures
        r == side_score(state@, my, opp),
        0 <= r <= 1496000000,
{
    proof {
        lemma_rows_bound(state@, my, opp, 0);
        lemma_cols_bound(state@, my, opp, 0);
        lemma_diag_down_bound(state@, my, opp, 0);
        lemma_diag_up_bound(state@, my, opp, 0);
    }
    let mut rows: i64 = 0;
    let mut y: usize = 0;
    while y < 15
        invariant
            wf(state@),
            pats_ok(pats@),
            y <= 15,
            rows + rows_score(state@, my, opp, y as nat) == rows_score(state@, my, opp, 0),
            0 <= rows_score(state@, my, opp, 0) <= 17000000 * 15,
            0 <= rows <= 17000000 * 15,
        decreases 15 - y,
    {
        let line = build_row(state, my, y);
        let s = scan_line(&line, pats, opp);
        proof {
            lemma_rows_bound(state@, my, opp, (y + 1) as nat);
        }
        rows = rows + s;
        y = y + 1;
    }
    let mut cols: i64 = 0;
    let mut x: usize = 0;
    while x < 15
        invariant
            wf(state@),
            pats_ok(pats@),
            x <= 15,
            cols + cols_score(state@, my, opp, x as nat) == cols_score(state@, my, opp, 0),
            0 <= cols_score(state@, my, opp, 0) <= 17000000 * 15,
            0 <= cols <= 17000000 * 15,
        decreases 15 - x,
    {
        let line = build_col(state, my, x);
        let s = scan_line(&line, pats, opp);
        proof {
            lemma_cols_bound(state@, my, opp, (x + 1) as nat);
        }
        cols = cols + s;
        x = x + 1;
    }
    let mut dd: i64 = 0;
    let mut k: usize = 0;
    while k < 29
        invariant
            wf(state@),
            pats_ok(pats@),
            k <= 29,
            dd + diag_down_score(state@, my, opp, k as nat) == diag_down_score(state@, my, opp, 0),
            0 <= diag_down_score(state@, my, opp, 0) <= 17000000 * 29,
            0 <= dd <= 17000000 * 29,
        decreases 29 - k,
    {
        let line = if k < 15 {
            build_diag_down(state, my, k, 0, 15 - k)
        } else {
            build_diag_down(state, my, 0, k - 14, 29 - k)
        };
        proof {
            assert(line@ == diag_down_tokens(state@, my, k as int));
        }
        let s = if line.len() >= 8 {
            scan_line(&line, pats, opp)
        } else {
            0
        };
        proof {
            assert(s == line_score(diag_down_tokens(state@, my, k as int), opp));
            lemma_diag_down_bound(state@, my, opp, (k + 1) as nat);
        }
        dd = dd + s;
        k = k + 1;
    }
    let mut du: i64 = 0;
    let mut t: usize = 0;
    while t < 29
        invariant
            wf(state@),
            pats_ok(pats@),
            t <= 29,
            du + diag_up_score(state@, my, opp, t as nat) == diag_up_score(state@, my, opp, 0),
            0 <= diag_up_score(state@, my, opp, 0) <= 17000000 * 29,
            0 <= du <= 17000000 * 29,
        decreases 29 - t,
    {
        let line = if t < 15 {
            build_diag_up(state, my, t, 14, 15 - t)
        } else {
            build_diag_up(state, my, 0, t - 15, t - 14)
        };
        proof {
            assert(line@ == diag_up_tokens(state@, my, t as int));
        }
        let s = if line.len() >= 8 {
            scan_line(&line, pats, opp)
        } else {
            0
        };
        proof {
            assert(s == line_score(diag_up_tokens(state@, my, t as int), opp));
            lemma_diag_up_bound(state@, my, opp, (t + 1) as nat);
        }
        du = du + s;
        t = t + 1;
    }
    rows + cols + dd + du
}

/// The evaluation of a position, computed afresh.
fn compute_eval(state: &GameState) -> (r: i32)
    requires
        wf(state@),
    ensures
        r as int == eval_score(state@),
{
    let pats = make_patterns();
    let me = state.current_turn();
    let opp_piece = match me {
        Piece::White => Piece::Black,
        Piece::Black => Piece::White,
        Piece::Empty => Piece::Empty,
    };
    let a = eval_side(state, me, false, &pats);
    let b = eval_side(state, opp_piece, true, &pats);
    let d = a - b;
    proof {
        assert(opp_piece == crate::game::opponent(state@.turn));
    }
    d as i32
}

/// The evaluator's memo and diagnostic counter, constructed fresh for
/// each top-level search and shared down the tree it explores.
pub struct EvalContext {
    cache: Vec<(GameState, i32)>,
    evals: u64,
}

impl EvalContext {
    /// Every cached entry holds the true evaluation of its position.
    pub closed spec fn inv(&self) -> bool {
        forall|i: int|
            0 <= i < self.cache@.len() ==> wf((#[trigger] self.cache@[i]).0@)
                && self.cache@[i].1 as int == eval_score(self.cache@[i].0@)
    }

    /// How many evaluations have been requested through this context.
    pub closed spec fn count(&self) -> u64 {
        self.evals
    }

    /// An empty context: no memo entries, counter at zero.
    pub fn new() -> (r: Self)
        ensures
            r.inv(),
            r.count() == 0,
    {
        EvalContext { cache: Vec::new(), evals: 0 }
    }

    /// The diagnostic evaluation counter, purely for reporting.
    pub fn eval_count(&self) -> (r: u64)
        ensures
            r == self.count(),
    {
        self.evals
    }
}

/// The memoized evaluation of `state` from the perspective of its side
/// to move: positive favors that side. Bumps the diagnostic counter and
/// reuses or extends the memo.
pub fn evaluate(ctx: &mut EvalContext, state: &GameState) -> (r: i32)
    requires
        old(ctx).inv(),
        wf(state@),
    ensures
        final(ctx).inv(),
        r as int == eval_score(state@),
        final(ctx).count() == if old(ctx).count() == u64::MAX {
            u64::MAX
        } else {
            (old(ctx).count() + 1) as u64
        },
{
    if ctx.evals < u64::MAX {
        ctx.evals = ctx.evals + 1;
    }
    let mut i: usize = 0;
    while i < ctx.cache.len()
        invariant
            ctx.inv(),
            wf(state@),
            i <= ctx.cache@.len(),
            ctx.count() == (if old(ctx).count() == u64::MAX {
                u64::MAX
            } else {
                (old(ctx).count() + 1) as u64
            }),
        decreases ctx.cache@.len() - i,
    {
        let entry = &ctx.cache[i];
        if state.same_state(&entry.0) {
            proof {
                assert(state@ == entry.0@);
            }
            return entry.1;
        }
        i = i + 1;
    }
    let v = compute_eval(state);
    let copy = state.duplicate();
    ctx.cache.push((copy, v));
    v
}

} // verus!
