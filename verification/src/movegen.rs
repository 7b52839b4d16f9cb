//! The move generator: candidate placements near existing pieces,
//! pre-ordered by a cheap static location score.

use vstd::prelude::*;

use crate::game::GameState;
use crate::game::Piece;
use crate::game::Point;
use crate::game::BoardModel;
use crate::game::axis_run;
use crate::game::cell;
use crate::game::in_bounds;
use crate::game::wf;

verus! {

/// Some cell within Chebyshev distance 1 of (x, y) is occupied.
pub open spec fn has_adjacent(m: BoardModel, x: int, y: int) -> bool {
    (in_bounds(x - 1, y - 1) && cell(m, x - 1, y - 1) != Piece::Empty) || (in_bounds(x - 1, y)
        && cell(m, x - 1, y) != Piece::Empty) || (in_bounds(x - 1, y + 1) && cell(m, x - 1, y + 1)
        != Piece::Empty) || (in_bounds(x, y - 1) && cell(m, x, y - 1) != Piece::Empty) || (
    in_bounds(x, y + 1) && cell(m, x, y + 1) != Piece::Empty) || (in_bounds(x + 1, y - 1) && cell(
        m,
        x + 1,
        y - 1,
    ) != Piece::Empty) || (in_bounds(x + 1, y) && cell(m, x + 1, y) != Piece::Empty) || (in_bounds(
        x + 1,
        y + 1,
    ) && cell(m, x + 1, y + 1) != Piece::Empty)
}

/// A candidate placement: an empty on-board cell next to at least one piece.
pub open spec fn is_candidate(m: BoardModel, x: int, y: int) -> bool {
    in_bounds(x, y) && cell(m, x, y) == Piece::Empty && has_adjacent(m, x, y)
}

/// The value of a contiguous run of length `c` through a prospective
/// placement: runs of five or more dominate, four and three count less.
pub open spec fn count_value(c: nat) -> int {
    if c >= 5 {
        100000
    } else if c == 4 {
        1000
    } else if c == 3 {
        10
    } else {
        0
    }
}

/// The run values for one side over the four axes through (x, y).
pub open spec fn side_location_value(m: BoardModel, p: Piece, x: int, y: int) -> int {
    count_value(axis_run(m, p, x, y, 1, 0)) + count_value(axis_run(m, p, x, y, 0, 1))
        + count_value(axis_run(m, p, x, y, 1, 1)) + count_value(axis_run(m, p, x, y, 1, -1))
}

/// The static pre-ordering score of a prospective placement at (x, y):
/// the run values of both sides, negated, so that ascending order puts
/// the strongest placements first.
pub open spec fn loc_score(m: BoardModel, x: int, y: int) -> int {
    -(side_location_value(m, Piece::White, x, y) + side_location_value(m, Piece::Black, x, y))
}

/// The candidates among the cells with linear index below `i`, in board
/// order, each paired with its location score.
pub open spec fn scored_upto(m: BoardModel, i: nat) -> Seq<(Point, i32)>
    decreases i,
{
    if i == 0 {
        Seq::empty()
    } else {
        let j = i - 1;
        let x = j / 15;
        let y = j % 15;
        scored_upto(m, (i - 1) as nat) + (if is_candidate(m, x, y) {
            seq![((x as usize, y as usize), loc_score(m, x, y) as i32)]
        } else {
            Seq::empty()
        })
    }
}

/// Stable ascending insertion by score: `p` goes after every element
/// whose score is at most its own.
pub open spec fn insert_pt(s: Seq<(Point, i32)>, p: (Point, i32)) -> Seq<(Point, i32)>
    decreases s.len(),
{
    if s.len() > 0 && s[0].1 <= p.1 {
        seq![s[0]] + insert_pt(s.drop_first(), p)
    } else {
        seq![p] + s
    }
}

/// Stable insertion sort of the scored candidates, ascending by score.
pub open spec fn sort_fold(s: Seq<(Point, i32)>) -> Seq<(Point, i32)>
    decreases s.len(),
{
    if s.len() == 0 {
        Seq::empty()
    } else {
        insert_pt(sort_fold(s.drop_last()), s.last())
    }
}

/// The points of a scored sequence, scores stripped.
pub open spec fn map_pts(s: Seq<(Point, i32)>) -> Seq<Point> {
    Seq::new(s.len(), |k: int| s[k].0)
}

/// The generator's result: all candidates of the board, sorted ascending
/// by location score (stable, so equal scores keep board order).
pub open spec fn spec_gen_moves(m: BoardModel) -> Seq<Point> {
    map_pts(sort_fold(scored_upto(m, 225)))
}

/// Inserting at the boundary index reproduces the recursive insertion.
proof fn lemma_insert_at(s: Seq<(Point, i32)>, p: (Point, i32), pos: int)
    requires
        0 <= pos <= s.len(),
        forall|k: int| 0 <= k < pos ==> s[k].1 <= p.1,
        pos < s.len() ==> s[pos].1 > p.1,
    ensures
        insert_pt(s, p) =~= s.insert(pos, p),
    decreases s.len(),
{
    if pos == 0 {
        if s.len() > 0 {
            assert(s[0].1 > p.1);
        }
        assert(insert_pt(s, p) =~= s.insert(0, p));
    } else {
        assert(s[0].1 <= p.1);
        lemma_insert_at(s.drop_first(), p, pos - 1);
        assert(insert_pt(s, p) =~= seq![s[0]] + s.drop_first().insert(pos - 1, p));
        assert(seq![s[0]] + s.drop_first().insert(pos - 1, p) =~= s.insert(pos, p));
    }
}

/// Every element of an insertion is the inserted pair or an element of
/// the original sequence.
proof fn lemma_insert_pt_elems(s: Seq<(Point, i32)>, p: (Point, i32), e: (Point, i32))
    requires
        insert_pt(s, p).contains(e),
    ensures
        e == p || s.contains(e),
    decreases s.len(),
{
    if s.len() > 0 && s[0].1 <= p.1 {
        if e != s[0] {
            let r = seq![s[0]] + insert_pt(s.drop_first(), p);
            let k = choose|k: int| 0 <= k < r.len() && r[k] == e;
            assert(insert_pt(s.drop_first(), p)[k - 1] == e);
            lemma_insert_pt_elems(s.drop_first(), p, e);
            if s.drop_first().contains(e) {
                let j = choose|j: int| 0 <= j < s.drop_first().len() && s.drop_first()[j] == e;
                assert(s[j + 1] == e);
            }
        }
    } else {
        if e != p {
            let r = seq![p] + s;
            let k = choose|k: int| 0 <= k < r.len() && r[k] == e;
            assert(s[k - 1] == e);
        }
    }
}

/// Every element of the sorted sequence comes from the unsorted one.
proof fn lemma_sort_fold_elems(s: Seq<(Point, i32)>, e: (Point, i32))
    requires
        sort_fold(s).contains(e),
    ensures
        s.contains(e),
    decreases s.len(),
{
    if s.len() > 0 {
        lemma_insert_pt_elems(sort_fold(s.drop_last()), s.last(), e);
        if e == s.last() {
            assert(s[s.len() - 1] == e);
        } else {
            lemma_sort_fold_elems(s.drop_last(), e);
            let j = choose|j: int| 0 <= j < s.drop_last().len() && s.drop_last()[j] == e;
            assert(s[j] == e);
        }
    }
}

/// Every scored candidate really is a candidate with its score.
proof fn lemma_scored_upto_elems(m: BoardModel, i: nat, e: (Point, i32))
    requires
        scored_upto(m, i).contains(e),
        i <= 225,
    ensures
        is_candidate(m, e.0.0 as int, e.0.1 as int),
        e.1 as int == loc_score(m, e.0.0 as int, e.0.1 as int),
    decreases i,
{
    if i > 0 {
        let prev = scored_upto(m, (i - 1) as nat);
        let k = choose|k: int| 0 <= k < scored_upto(m, i).len() && scored_upto(m, i)[k] == e;
        if k < prev.len() {
            assert(prev[k] == e);
            lemma_scored_upto_elems(m, (i - 1) as nat, e);
        } else {
            let x = (i - 1) / 15;
            let y = (i - 1) % 15;
            assert(loc_score(m, x, y) as i32 as int == loc_score(m, x, y)) by {
                lemma_loc_score_bounds(m, x, y);
            }
        }
    }
}

/// Scored pairs in ascending score order.
pub open spec fn sorted_by_score(s: Seq<(Point, i32)>) -> bool {
    forall|a: int, b: int| 0 <= a <= b < s.len() ==> (#[trigger] s[a]).1 <= (#[trigger] s[b]).1
}

/// Insertion keeps a sorted sequence sorted.
proof fn lemma_insert_pt_sorted(s: Seq<(Point, i32)>, p: (Point, i32))
    requires
        sorted_by_score(s),
    ensures
        sorted_by_score(insert_pt(s, p)),
    decreases s.len(),
{
    if s.len() > 0 && s[0].1 <= p.1 {
        assert(sorted_by_score(s.drop_first()));
        lemma_insert_pt_sorted(s.drop_first(), p);
        let r = seq![s[0]] + insert_pt(s.drop_first(), p);
        assert forall|a: int, b: int| 0 <= a <= b < r.len() implies (#[trigger] r[a]).1 <= (
        #[trigger] r[b]).1 by {
            if a == 0 && b > 0 {
                let e = insert_pt(s.drop_first(), p)[b - 1];
                assert(insert_pt(s.drop_first(), p).contains(e));
                lemma_insert_pt_elems(s.drop_first(), p, e);
                if s.drop_first().contains(e) {
                    let j = choose|j: int|
                        0 <= j < s.drop_first().len() && s.drop_first()[j] == e;
                    assert(s[0].1 <= s[j + 1].1);
                }
            }
        }
    }
}

/// The insertion sort produces an ascending sequence.
proof fn lemma_sort_fold_sorted(s: Seq<(Point, i32)>)
    ensures
        sorted_by_score(sort_fold(s)),
    decreases s.len(),
{
    if s.len() > 0 {
        lemma_sort_fold_sorted(s.drop_last());
        lemma_insert_pt_sorted(sort_fold(s.drop_last()), s.last());
    }
}

/// The generator's sequence is ascending in the location score, so the
/// statically strongest placements come first.
pub proof fn lemma_gen_moves_sorted(m: BoardModel)
    ensures
        forall|a: int, b: int|
            #![trigger spec_gen_moves(m)[a], spec_gen_moves(m)[b]]
            0 <= a <= b < spec_gen_moves(m).len() ==> loc_score(
                m,
                spec_gen_moves(m)[a].0 as int,
                spec_gen_moves(m)[a].1 as int,
            ) <= loc_score(m, spec_gen_moves(m)[b].0 as int, spec_gen_moves(m)[b].1 as int),
{
    let scored = scored_upto(m, 225);
    let sorted = sort_fold(scored);
    lemma_sort_fold_sorted(scored);
    assert forall|a: int, b: int|
        0 <= a <= b < spec_gen_moves(m).len() implies loc_score(
        m,
        (#[trigger] spec_gen_moves(m)[a]).0 as int,
        spec_gen_moves(m)[a].1 as int,
    ) <= loc_score(m, (#[trigger] spec_gen_moves(m)[b]).0 as int, spec_gen_moves(m)[b].1 as int) by {
        let ea = sorted[a];
        let eb = sorted[b];
        assert(sorted.contains(ea));
        assert(sorted.contains(eb));
        lemma_sort_fold_elems(scored, ea);
        lemma_sort_fold_elems(scored, eb);
        lemma_scored_upto_elems(m, 225, ea);
        lemma_scored_upto_elems(m, 225, eb);
        assert(ea.1 <= eb.1);
        assert(spec_gen_moves(m)[a] == ea.0);
        assert(spec_gen_moves(m)[b] == eb.0);
    }
}

/// The location score is small: each of the eight run values is at most
/// 100000, so the negated sum lies within a million of zero.
proof fn lemma_loc_score_bounds(m: BoardModel, x: int, y: int)
    ensures
        -800000 <= loc_score(m, x, y) <= 0,
{
}

/// Every move the generator returns targets an empty cell within
/// Chebyshev distance 1 of an occupied cell, and the generator's order
/// is ascending in the location score.
pub proof fn lemma_gen_moves_are_candidates(m: BoardModel)
    ensures
        forall|k: int|
            0 <= k < spec_gen_moves(m).len() ==> #[trigger] is_candidate(
                m,
                spec_gen_moves(m)[k].0 as int,
                spec_gen_moves(m)[k].1 as int,
            ),
{
    let sorted = sort_fold(scored_upto(m, 225));
    assert forall|k: int| 0 <= k < spec_gen_moves(m).len() implies #[trigger] is_candidate(
        m,
        spec_gen_moves(m)[k].0 as int,
        spec_gen_moves(m)[k].1 as int,
    ) by {
        assert(spec_gen_moves(m).len() == sorted.len());
        let e = sorted[k];
        assert(sorted.contains(e));
        lemma_sort_fold_elems(scored_upto(m, 225), e);
        lemma_scored_upto_elems(m, 225, e);
        assert(spec_gen_moves(m)[k] == e.0);
    }
}

/// Whether some neighbor of (x, y) holds a piece.
fn has_adjacent_exec(state: &GameState, x: usize, y: usize) -> (r: bool)
    requires
        wf(state@),
        in_bounds(x as int, y as int),
    ensures
        r == has_adjacent(state@, x as int, y as int),
{
    if x > 0 {
        if y > 0 && state.piece((x - 1, y - 1)) != Piece::Empty {
            return true;
        }
        if state.piece((x - 1, y)) != Piece::Empty {
            return true;
        }
        if y < 14 && state.piece((x - 1, y + 1)) != Piece::Empty {
            return true;
        }
    }
    if y > 0 && state.piece((x, y - 1)) != Piece::Empty {
        return true;
    }
    if y < 14 && state.piece((x, y + 1)) != Piece::Empty {
        return true;
    }
    if x < 14 {
        if y > 0 && state.piece((x + 1, y - 1)) != Piece::Empty {
            return true;
        }
        if state.piece((x + 1, y)) != Piece::Empty {
            return true;
        }
        if y < 14 && state.piece((x + 1, y + 1)) != Piece::Empty {
            return true;
        }
    }
    false
}

/// The run values through `point` for one side over the four axes.
fn side_location_exec(state: &GameState, p: Piece, point: Point) -> (r: u32)
    requires
        wf(state@),
        in_bounds(point.0 as int, point.1 as int),
    ensures
        r as int == side_location_value(state@, p, point.0 as int, point.1 as int),
        r <= 400000,
{
    let a = count_value_exec(state.run_count(p, point, 1, 0));
    let b = count_value_exec(state.run_count(p, point, 0, 1));
    let c = count_value_exec(state.run_count(p, point, 1, 1));
    let d = count_value_exec(state.run_count(p, point, 1, -1));
    a + b + c + d
}

/// The value of a run of length `c` through a prospective placement.
fn count_value_exec(c: u32) -> (r: u32)
    ensures
        r as int == count_value(c as nat),
        r <= 100000,
{
    if c >= 5 {
        100000
    } else if c == 4 {
        1000
    } else if c == 3 {
        10
    } else {
        0
    }
}

/// The static pre-ordering score of placing at `point`: run values of
/// both sides summed over the four axes and negated, so lower is better.
pub fn evaluate_location(state: &GameState, point: Point) -> (r: i32)
    requires
        wf(state@),
        in_bounds(point.0 as int, point.1 as int),
    ensures
        r as int == loc_score(state@, point.0 as int, point.1 as int),
{
    let w = side_location_exec(state, Piece::White, point);
    let b = side_location_exec(state, Piece::Black, point);
    -((w + b) as i32)
}

/// All candidate placements of `state`, sorted ascending by location
/// score; equal scores keep board order (x-major, then y).
pub fn generate_moves(state: &GameState) -> (r: Vec<Point>)
    requires
        wf(state@),
    ensures
        r@ == spec_gen_moves(state@),
{
    let mut cands: Vec<(Point, i32)> = Vec::new();
    let mut i: usize = 0;
    while i < 225
        invariant
            wf(state@),
            i <= 225,
            cands@ == scored_upto(state@, i as nat),
        decreases 225 - i,
    {
        let x = i / 15;
        let y = i % 15;
        if state.piece((x, y)) == Piece::Empty && has_adjacent_exec(state, x, y) {
            let score = evaluate_location(state, (x, y));
            cands.push(((x, y), score));
        }
        proof {
            assert(cands@ =~= scored_upto(state@, (i + 1) as nat));
        }
        i = i + 1;
    }
    let ghost all = scored_upto(state@, 225);
    let mut sorted: Vec<(Point, i32)> = Vec::new();
    let mut j: usize = 0;
    while j < cands.len()
        invariant
            j <= cands@.len(),
            cands@ == all,
            sorted@ == sort_fold(all.subrange(0, j as int)),
            forall|a: int, b: int| 0 <= a <= b < sorted@.len() ==> sorted@[a].1 <= sorted@[b].1,
        decreases cands@.len() - j,
    {
        let p = cands[j];
        let mut k = sorted.len();
        while k > 0
            invariant
                k <= sorted@.len(),
                forall|a: int, b: int| 0 <= a <= b < sorted@.len() ==> sorted@[a].1 <= sorted@[b].1,
                forall|a: int| k <= a < sorted@.len() ==> sorted@[a].1 > p.1,
            ensures
                k <= sorted@.len(),
                forall|a: int| k <= a < sorted@.len() ==> sorted@[a].1 > p.1,
                k > 0 ==> sorted@[k - 1].1 <= p.1,
                forall|a: int, b: int| 0 <= a <= b < sorted@.len() ==> sorted@[a].1 <= sorted@[b].1,
            decreases k,
        {
            if sorted[k - 1].1 <= p.1 {
                break;
            }
            k = k - 1;
        }
        proof {
            assert forall|a: int| 0 <= a < k implies sorted@[a].1 <= p.1 by {
                assert(sorted@[a].1 <= sorted@[k - 1].1);
            }
            lemma_insert_at(sorted@, p, k as int);
        }
        sorted.insert(k, p);
        proof {
            assert(all.subrange(0, j + 1).drop_last() =~= all.subrange(0, j as int));
            assert(all.subrange(0, j + 1).last() == p);
        }
        j = j + 1;
    }
    proof {
        assert(all.subrange(0, all.len() as int) =~= all);
    }
    let mut r: Vec<Point> = Vec::new();
    let mut t: usize = 0;
    while t < sorted.len()
        invariant
            t <= sorted@.len(),
            sorted@ == sort_fold(all),
            r@.len() == t,
            forall|a: int| 0 <= a < t ==> r@[a] == sorted@[a].0,
        decreases sorted@.len() - t,
    {
        r.push(sorted[t].0);
        t = t + 1;
    }
    proof {
        assert(r@ =~= spec_gen_moves(state@));
    }
    r
}

} // verus!
