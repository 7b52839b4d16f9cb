//! Fixed-depth minimax search with alpha-beta pruning, parallel across
//! the root candidates only, with a seedable tie-break among equal-best
//! root moves.

use vstd::prelude::*;

use rayon::iter::IntoParallelRefIterator;
use rayon::iter::ParallelIterator;
use rand::Rng;

use crate::eval::EvalContext;
use crate::eval::eval_score;
use crate::eval::evaluate;
use crate::game::GameEnd;
use crate::game::GameState;
use crate::game::BoardModel;
use crate::game::Point;
use crate::game::apply_move;
use crate::game::move_outcome;
use crate::game::move_valid;
use crate::game::wf;
use crate::movegen::generate_moves;
use crate::movegen::is_candidate;
use crate::movegen::lemma_gen_moves_are_candidates;
use crate::movegen::spec_gen_moves;

verus! {

/// Plies of recursive lookahead below the root placement.
pub const MAX_DEPTH: u32 = 3;

/// The alpha-beta minimax value of a node: at depth 0 the evaluation of
/// the position; otherwise the fold over the generator's ordered
/// candidates, starting from the extreme value for the side at this ply.
pub open spec fn spec_minimax(m: BoardModel, depth: nat, alpha: int, beta: int, maxing: bool) -> int
    decreases depth + 1, 0int,
{
    if depth == 0 {
        eval_score(m)
    } else {
        mm_fold(
            m,
            depth,
            0,
            alpha,
            beta,
            maxing,
            if maxing {
                i32::MIN as int
            } else {
                i32::MAX as int
            },
        )
    }
}

/// One step of the alpha-beta fold over the candidate list from index
/// `i`: apply the candidate, resolve a winning placement to the extreme
/// value and a drawing one to the evaluation, otherwise recurse one ply
/// deeper; update the running best and bound, and stop early once the
/// upper bound is no greater than the lower.
pub open spec fn mm_fold(
    m: BoardModel,
    depth: nat,
    i: nat,
    alpha: int,
    beta: int,
    maxing: bool,
    best: int,
) -> int
    decreases depth, spec_gen_moves(m).len() - i,
{
    let moves = spec_gen_moves(m);
    if depth == 0 || i >= moves.len() {
        best
    } else {
        let p = moves[i as int];
        let m2 = apply_move(m, p.0 as int, p.1 as int);
        let outcome = move_outcome(m, p.0 as int, p.1 as int);
        let ev = if outcome == GameEnd::Win {
            if maxing {
                i32::MAX as int
            } else {
                i32::MIN as int
            }
        } else if outcome == GameEnd::Draw {
            eval_score(m2)
        } else {
            spec_minimax(m2, (depth - 1) as nat, alpha, beta, !maxing)
        };
        if maxing {
            let best2 = if ev > best {
                ev
            } else {
                best
            };
            let alpha2 = if ev > alpha {
                ev
            } else {
                alpha
            };
            if beta <= alpha2 {
                best2
            } else {
                mm_fold(m, depth, i + 1, alpha2, beta, maxing, best2)
            }
        } else {
            let best2 = if ev < best {
                ev
            } else {
                best
            };
            let beta2 = if ev < beta {
                ev
            } else {
                beta
            };
            if beta2 <= alpha {
                best2
            } else {
                mm_fold(m, depth, i + 1, alpha, beta2, maxing, best2)
            }
        }
    }
}

/// The value a root candidate earns: a winning placement is the extreme
/// value for the mover, a drawing one is evaluated, and otherwise the
/// opponent answers with a full-window search of fixed depth.
pub open spec fn spec_root_eval(m: BoardModel, p: Point) -> int {
    let m2 = apply_move(m, p.0 as int, p.1 as int);
    let outcome = move_outcome(m, p.0 as int, p.1 as int);
    if outcome == GameEnd::Win {
        i32::MAX as int
    } else if outcome == GameEnd::Draw {
        eval_score(m2)
    } else {
        spec_minimax(m2, MAX_DEPTH as nat, i32::MIN as int, i32::MAX as int, false)
    }
}

/// Every root candidate paired with its value, in generator order.
pub open spec fn root_evals(m: BoardModel) -> Seq<(Point, int)> {
    Seq::new(
        spec_gen_moves(m).len(),
        |i: int| (spec_gen_moves(m)[i], spec_root_eval(m, spec_gen_moves(m)[i])),
    )
}

/// The running maximum of the root values from index `i`.
pub open spec fn best_from(evs: Seq<(Point, int)>, i: nat, cur: int) -> int
    decreases evs.len() - i,
{
    if i >= evs.len() {
        cur
    } else {
        best_from(
            evs,
            i + 1,
            if evs[i as int].1 > cur {
                evs[i as int].1
            } else {
                cur
            },
        )
    }
}

/// The strictly greatest root value, or the most negative value when no
/// candidate exists.
pub open spec fn spec_best_eval(m: BoardModel) -> int {
    best_from(root_evals(m), 0, i32::MIN as int)
}

/// The candidates among the first `j` whose value equals `b`, in order.
pub open spec fn tied_upto(evs: Seq<(Point, int)>, j: nat, b: int) -> Seq<Point>
    decreases j,
{
    if j == 0 {
        Seq::empty()
    } else {
        tied_upto(evs, (j - 1) as nat, b) + (if evs[j - 1].1 == b {
            seq![evs[j - 1].0]
        } else {
            Seq::empty()
        })
    }
}

/// All root candidates that attain the best value, in generator order.
pub open spec fn spec_tied(m: BoardModel) -> Seq<Point> {
    tied_upto(root_evals(m), root_evals(m).len(), spec_best_eval(m))
}

/// When every earlier value is strictly below `b`, no earlier candidate
/// is tied at `b`.
proof fn lemma_tied_empty(evs: Seq<(Point, int)>, j: nat, b: int)
    requires
        j <= evs.len(),
        forall|t: int| 0 <= t < j ==> evs[t].1 < b,
    ensures
        tied_upto(evs, j, b) =~= Seq::<Point>::empty(),
    decreases j,
{
    if j > 0 {
        lemma_tied_empty(evs, (j - 1) as nat, b);
    }
}

/// The sequential alpha-beta search below one applied move.
fn minimax(
    ctx: &mut EvalContext,
    state: &GameState,
    depth: u32,
    alpha: i32,
    beta: i32,
    maxing: bool,
) -> (r: i32)
    requires
        old(ctx).inv(),
        wf(state@),
    ensures
        final(ctx).inv(),
        r as int == spec_minimax(state@, depth as nat, alpha as int, beta as int, maxing),
    decreases depth,
{
    if depth == 0 {
        return evaluate(ctx, state);
    }
    let moves = generate_moves(state);
    proof {
        lemma_gen_moves_are_candidates(state@);
    }
    let mut j: usize = 0;
    let mut cut = false;
    if maxing {
        let mut best: i32 = i32::MIN;
        let mut a: i32 = alpha;
        while j < moves.len() && !cut
            invariant
                ctx.inv(),
                wf(state@),
                depth >= 1,
                moves@ == spec_gen_moves(state@),
                j <= moves@.len(),
                forall|k: int|
                    0 <= k < moves@.len() ==> is_candidate(
                        state@,
                        (#[trigger] moves@[k]).0 as int,
                        moves@[k].1 as int,
                    ),
                !cut ==> mm_fold(
                    state@,
                    depth as nat,
                    j as nat,
                    a as int,
                    beta as int,
                    true,
                    best as int,
                ) == spec_minimax(state@, depth as nat, alpha as int, beta as int, true),
                cut ==> best as int == spec_minimax(
                    state@,
                    depth as nat,
                    alpha as int,
                    beta as int,
                    true,
                ),
            decreases moves@.len() - j + (if cut {
                0int
            } else {
                1int
            }),
        {
            let p = moves[j];
            let mut ns = state.duplicate();
            let res = ns.make_move(p);
            let ghost a0 = a;
            let ghost best0 = best;
            let ev: i32 = match res {
                Ok(GameEnd::NotEnd) => minimax(ctx, &ns, depth - 1, a, beta, false),
                Ok(GameEnd::Win) => i32::MAX,
                Ok(GameEnd::Draw) => evaluate(ctx, &ns),
                Err(_) => {
                    proof {
                        assert(move_valid(state@, p.0 as int, p.1 as int));
                        assert(false);
                    }
                    0
                },
            };
            if ev > best {
                best = ev;
            }
            if ev > a {
                a = ev;
            }
            proof {
                assert(spec_gen_moves(state@)[j as int] == p);
                assert(ns@ == apply_move(state@, p.0 as int, p.1 as int));
            }
            if beta <= a {
                cut = true;
            } else {
                j = j + 1;
            }
        }
        best
    } else {
        let mut best: i32 = i32::MAX;
        let mut b: i32 = beta;
        while j < moves.len() && !cut
            invariant
                ctx.inv(),
                wf(state@),
                depth >= 1,
                moves@ == spec_gen_moves(state@),
                j <= moves@.len(),
                forall|k: int|
                    0 <= k < moves@.len() ==> is_candidate(
                        state@,
                        (#[trigger] moves@[k]).0 as int,
                        moves@[k].1 as int,
                    ),
                !cut ==> mm_fold(
                    state@,
                    depth as nat,
                    j as nat,
                    alpha as int,
                    b as int,
                    false,
                    best as int,
                ) == spec_minimax(state@, depth as nat, alpha as int, beta as int, false),
                cut ==> best as int == spec_minimax(
                    state@,
                    depth as nat,
                    alpha as int,
                    beta as int,
                    false,
                ),
            decreases moves@.len() - j + (if cut {
                0int
            } else {
                1int
            }),
        {
            let p = moves[j];
            let mut ns = state.duplicate();
            let res = ns.make_move(p);
            let ghost b0 = b;
            let ghost best0 = best;
            let ev: i32 = match res {
                Ok(GameEnd::NotEnd) => minimax(ctx, &ns, depth - 1, alpha, b, true),
                Ok(GameEnd::Win) => i32::MIN,
                Ok(GameEnd::Draw) => evaluate(ctx, &ns),
                Err(_) => {
                    proof {
                        assert(move_valid(state@, p.0 as int, p.1 as int));
                        assert(false);
                    }
                    0
                },
            };
            if ev < best {
                best = ev;
            }
            if ev < b {
                b = ev;
            }
            proof {
                assert(spec_gen_moves(state@)[j as int] == p);
                assert(ns@ == apply_move(state@, p.0 as int, p.1 as int));
            }
            if b <= alpha {
                cut = true;
            } else {
                j = j + 1;
            }
        }
        best
    }
}

/// One root task: apply the candidate to a private copy and value it,
/// with a fresh evaluation context of its own.
fn root_eval_task(state: &GameState, p: Point) -> (r: i32)
    requires
        wf(state@),
        move_valid(state@, p.0 as int, p.1 as int),
    ensures
        r as int == spec_root_eval(state@, p),
{
    let mut ns = state.duplicate();
    let res = ns.make_move(p);
    let mut ctx = EvalContext::new();
    match res {
        Ok(GameEnd::NotEnd) => minimax(&mut ctx, &ns, MAX_DEPTH, i32::MIN, i32::MAX, false),
        Ok(GameEnd::Win) => i32::MAX,
        Ok(GameEnd::Draw) => evaluate(&mut ctx, &ns),
        Err(_) => {
            proof {
                assert(false);
            }
            0
        },
    }
}

/// Relies on rayon's `par_iter().map(..).collect::<Vec<_>>()`: an
/// indexed parallel iterator collects one output per input in input
/// order, each produced by the verified `root_eval_task`, whose
/// precondition follows from this function's own.
#[verifier::external_body]
fn par_root_evals(state: &GameState, moves: &Vec<Point>) -> (r: Vec<(Point, i32)>)
    requires
        wf(state@),
        forall|k: int|
            0 <= k < moves@.len() ==> move_valid(
                state@,
                (#[trigger] moves@[k]).0 as int,
                moves@[k].1 as int,
            ),
    ensures
        r@.len() == moves@.len(),
        forall|k: int|
            0 <= k < r@.len() ==> (#[trigger] r@[k]).0 == moves@[k] && r@[k].1 as int
                == spec_root_eval(state@, moves@[k]),
{
    moves.par_iter().map(|p| (*p, root_eval_task(state, *p))).collect()
}

/// Relies on rand's `thread_rng().gen_range(0..len)`: a uniformly drawn
/// index strictly below `len`; nothing more is assumed of the draw.
#[verifier::external_body]
fn pick_index(len: usize) -> (r: usize)
    requires
        len >= 1,
    ensures
        r < len,
{
    rand::thread_rng().gen_range(0..len)
}

/// Aggregate the root values: the greatest value and, in generator
/// order, every candidate that attains it.
fn select_best(Ghost(m): Ghost<BoardModel>, evals: &Vec<(Point, i32)>) -> (r: (i32, Vec<Point>))
    requires
        evals@.len() == root_evals(m).len(),
        forall|k: int|
            0 <= k < evals@.len() ==> (#[trigger] evals@[k]).0 == root_evals(m)[k].0
                && evals@[k].1 as int == root_evals(m)[k].1,
    ensures
        r.0 as int == spec_best_eval(m),
        r.1@ == spec_tied(m),
        root_evals(m).len() > 0 ==> r.1@.len() > 0,
        root_evals(m).len() == 0 ==> r.1@.len() == 0,
{
    let ghost evs = root_evals(m);
    let mut best: i32 = i32::MIN;
    let mut tied: Vec<Point> = Vec::new();
    let mut k: usize = 0;
    while k < evals.len()
        invariant
            evals@.len() == evs.len(),
            evs == root_evals(m),
            forall|t: int|
                0 <= t < evals@.len() ==> (#[trigger] evals@[t]).0 == evs[t].0 && evals@[t].1 as int
                    == evs[t].1,
            k <= evals@.len(),
            best_from(evs, k as nat, best as int) == best_from(evs, 0, i32::MIN as int),
            forall|t: int| 0 <= t < k ==> (#[trigger] evs[t]).1 <= best as int,
            tied@ == tied_upto(evs, k as nat, best as int),
            k > 0 ==> tied@.len() > 0,
            k == 0 ==> best == i32::MIN && tied@.len() == 0,
        decreases evals@.len() - k,
    {
        let pair = evals[k];
        let p = pair.0;
        let e = pair.1;
        if e > best {
            proof {
                lemma_tied_empty(evs, k as nat, e as int);
            }
            best = e;
            let mut fresh: Vec<Point> = Vec::new();
            fresh.push(p);
            tied = fresh;
        } else if e == best {
            tied.push(p);
        }
        proof {
            assert(tied@ =~= tied_upto(evs, (k + 1) as nat, best as int));
        }
        k = k + 1;
    }
    (best, tied)
}

/// The move chosen for the automated side with the tie among equal-best
/// candidates broken by the caller's `tie` value, so that the result is
/// exactly reproducible: the chosen move is the tied candidate at index
/// `tie` modulo the number of tied candidates. Root candidates are
/// valued sequentially.
pub fn best_move_from(state: &GameState, tie: u64) -> (r: (Option<Point>, i32))
    requires
        wf(state@),
    ensures
        r.1 as int == spec_best_eval(state@),
        root_evals(state@).len() == 0 ==> r.0 is None,
        root_evals(state@).len() > 0 ==> spec_tied(state@).len() > 0 && r.0 == Some(
            spec_tied(state@)[(tie as int) % (spec_tied(state@).len() as int)],
        ),
{
    let moves = generate_moves(state);
    proof {
        lemma_gen_moves_are_candidates(state@);
    }
    let mut evals: Vec<(Point, i32)> = Vec::new();
    let mut j: usize = 0;
    while j < moves.len()
        invariant
            wf(state@),
            moves@ == spec_gen_moves(state@),
            forall|k: int|
                0 <= k < moves@.len() ==> is_candidate(
                    state@,
                    (#[trigger] moves@[k]).0 as int,
                    moves@[k].1 as int,
                ),
            j <= moves@.len(),
            evals@.len() == j,
            forall|k: int|
                0 <= k < j ==> (#[trigger] evals@[k]).0 == root_evals(state@)[k].0
                    && evals@[k].1 as int == root_evals(state@)[k].1,
        decreases moves@.len() - j,
    {
        let p = moves[j];
        let e = root_eval_task(state, p);
        evals.push((p, e));
        j = j + 1;
    }
    let (best, tied) = select_best(Ghost(state@), &evals);
    if tied.len() == 0 {
        (None, best)
    } else {
        let len64 = tied.len() as u64;
        let idx = (tie % len64) as usize;
        (Some(tied[idx]), best)
    }
}

/// The move chosen for the automated side: the candidate with the
/// strictly greatest search value, ties broken uniformly at random.
/// Root candidates are valued in parallel, one task each.
pub fn best_move(state: &GameState) -> (r: (Option<Point>, i32))
    requires
        wf(state@),
    ensures
        r.1 as int == spec_best_eval(state@),
        (root_evals(state@).len() == 0) <==> (r.0 is None),
        r.0 is Some ==> spec_tied(state@).contains(r.0.unwrap()),
{
    let moves = generate_moves(state);
    proof {
        lemma_gen_moves_are_candidates(state@);
        assert forall|k: int| 0 <= k < moves@.len() implies move_valid(
            state@,
            (#[trigger] moves@[k]).0 as int,
            moves@[k].1 as int,
        ) by {
            assert(is_candidate(
                state@,
                spec_gen_moves(state@)[k].0 as int,
                spec_gen_moves(state@)[k].1 as int,
            ));
        }
    }
    let evals = par_root_evals(state, &moves);
    let (best, tied) = select_best(Ghost(state@), &evals);
    if tied.len() == 0 {
        (None, best)
    } else {
        let idx = pick_index(tied.len());
        proof {
            assert(spec_tied(state@)[idx as int] == tied@[idx as int]);
        }
        (Some(tied[idx]), best)
    }
}

} // verus!
