//! Expectiminimax search with branch-and-bound pruning over the rolls.
//!
//! A lower bound, where one is given, is the best value a sibling move has
//! reached. Once the rolls still to come cannot lift this move's value up to
//! it, whatever their replies, the evaluation stops and returns the partial
//! sum, which is then below the bound too: the caller's maximum, and so the
//! selected move, are exactly those of the full search.
use vstd::prelude::*;
use crate::game::{
    Board,
    ci, color_index, ints, lemma_legal_list_members, opposite, opposite_color, Color, GameState,
    SKIP_MOVE,
};
use crate::search::{
    after, best_reply, chosen_move, lemma_step_bounds, lemma_after, lemma_roll_sum_range, head_weight, lemma_finished_range, 
    lemma_pow16_pos, lemma_signed_replies, max_value, move_value,
    next_mover, pick, playable, pow16, roll_sum, roll_weight, scale_of, tail_weight, turn_sign,
};

verus! {

/// Best value among the moves listed in `moves`, each evaluated by `minmax_eval_move`.
fn minmax_eval_best(
    state: &GameState,
    color: Color,
    roll: i32,
    moves: &Vec<i32>,
    ply_depth: usize,
    max_depth: usize,
) -> (r: i64)
    requires
        state@.wf(),
        0 <= roll <= 4,
        moves.len() > 0,
        ints(moves@) == state@.legal_list(color, roll as int),
        ply_depth <= max_depth <= 14,
    ensures
        r == max_value(
            state@,
            color,
            roll as int,
            ints(moves@),
            (max_depth - ply_depth) as nat,
        ),
    decreases max_depth - ply_depth, 1int,
{
    let ghost ms = ints(moves@);
    let ghost rem = (max_depth - ply_depth) as nat;
    proof {
        lemma_legal_list_members(state@, color, roll as int);
        assert(ms.contains(ms[0]));
        assert(ms.take(1) =~= seq![ms[0]]);
    }
    let mut best: i64 = minmax_eval_move(state, color, roll, moves[0], ply_depth, max_depth, None);
    let mut i: usize = 1;
    while i < moves.len()
        invariant
            1 <= i <= moves.len(),
            state@.wf(),
            0 <= roll <= 4,
            ply_depth <= max_depth <= 14,
            ms == ints(moves@),
            rem == max_depth - ply_depth,
            forall|m: int| #[trigger] ms.contains(m) ==> state@.is_legal(color, roll as int, m),
            best == max_value(state@, color, roll as int, ms.take(i as int), rem),
        decreases moves.len() - i,
    {
        proof {
            assert(ms.contains(ms[i as int]));
        }
        let v = minmax_eval_move(state, color, roll, moves[i], ply_depth, max_depth, Some(best));
        proof {
            let pre = ms.take(i as int + 1);
            assert(pre.drop_last() =~= ms.take(i as int));
            assert(pre.last() == ms[i as int]);
        }
        if v > best {
            best = v;
        }
        i = i + 1;
    }
    proof {
        assert(ms.take(moves.len() as int) =~= ms);
    }
    best
}

#[verifier::rlimit(60)]
/// Expected score of `color` after it plays `to_eval` with `roll`, searched
/// from ply `ply_depth` down to `max_depth`, in units of
/// `16^-(max_depth - ply_depth)`; exact wherever it reaches `lower_bound`,
/// and below the bound where the exact value is.
fn minmax_eval_move(
    state: &GameState,
    color: Color,
    roll: i32,
    to_eval: i32,
    ply_depth: usize,
    max_depth: usize,
    lower_bound: Option<i64>,
) -> (r: i64)
    requires
        state@.wf(),
        0 <= roll <= 4,
        playable(state@, color, roll as int, to_eval as int),
        ply_depth <= max_depth <= 14,
    ensures
        lower_bound is None ==> r == move_value(
            state@,
            color,
            roll as int,
            to_eval as int,
            (max_depth - ply_depth) as nat,
        ),
        lower_bound is Some ==> {
            let v = move_value(
                state@,
                color,
                roll as int,
                to_eval as int,
                (max_depth - ply_depth) as nat,
            );
            let lb = lower_bound->0;
            &&& v >= lb ==> r == v
            &&& v < lb ==> r < lb
        },
    decreases max_depth - ply_depth, 0int,
{
    let ghost b = state@;
    let mut new_state = *state;
    let second_turn = if to_eval == SKIP_MOVE {
        false
    } else {
        new_state.exec_move(color, roll, to_eval)
    };
    let ghost t = new_state@;
    proof {
        lemma_after(b, color, roll as int, to_eval as int);
        assert(t == after(b, color, roll as int, to_eval as int));
        lemma_finished_range(t, color);
        lemma_finished_range(t, opposite(color));
    }
    let k = color_index(color);
    let o = color_index(opposite_color(color));
    if ply_depth == max_depth {
        new_state.finished[k] as i64 - new_state.finished[o] as i64
    } else {
        let next_color = if second_turn {
            color
        } else {
            opposite_color(color)
        };
        let sign: i64 = if second_turn {
            1
        } else {
            -1
        };
        let ghost sub = (max_depth - ply_depth - 1) as nat;
        let ghost lo = t.finished[ci(color)] - 5;
        let ghost hi = 5 - t.finished[ci(opposite(color))];
        proof {
            assert(next_color == next_mover(b, color, roll as int, to_eval as int));
            assert(sign == turn_sign(b, color, roll as int, to_eval as int));
            lemma_signed_replies(b, color, roll as int, to_eval as int, sub);
            lemma_pow16_pos(sub);
            lemma_pow16_pos((sub + 1) as nat);
            assert(pow16((sub + 1) as nat) == 16 * pow16(sub));
        }
        proof {
            assert(move_value(b, color, roll as int, to_eval as int, (sub + 1) as nat) == roll_sum(
                t,
                next_color,
                sign as int,
                5,
                sub,
            ));
        }
        let unit = scale_of(max_depth - ply_depth - 1);
        let max_reward: i64 = 5 - new_state.finished[o] as i64;
        let mut ret: i64 = 0;
        let mut r: i32 = 0;
        while r < 5
            invariant
                0 <= r <= 5,
                t.wf(),
                new_state@ == t,
                ply_depth < max_depth <= 14,
                sub == max_depth - ply_depth - 1,
                -5 <= lo <= 0,
                0 <= hi <= 5,
                1 <= pow16(sub) <= 0x10000000000000int,
                sign == 1 || sign == -1,
                forall|x: int|
                    0 <= x <= 4 ==> lo * pow16(sub) <= sign * #[trigger] best_reply(
                        t,
                        next_color,
                        x,
                        sub,
                    ) <= hi * pow16(sub),
                ret == roll_sum(t, next_color, sign as int, r as int, sub),
                -5 * 0x100000000000000int <= ret <= 5 * 0x100000000000000int,
                unit == pow16(sub),
                max_reward == hi,
                b == state@,
                move_value(b, color, roll as int, to_eval as int, (max_depth - ply_depth) as nat)
                    == roll_sum(t, next_color, sign as int, 5, sub),
            decreases 5 - r,
        {
            match lower_bound {
                Some(lb) => {
                    proof {
                        lemma_prune_sound(t, next_color, sign as int, r as int, sub, lo, hi);
                    }
                    if ret + max_reward * unit * tail_weight(r) < lb {
                        proof {
                            let v = roll_sum(t, next_color, sign as int, 5, sub);
                            assert(v < lb);
                            assert(ret < lb);
                        }
                        return ret;
                    }
                },
                None => {},
            }
            let legal_moves = new_state.get_legal_moves(next_color, r);
            let best: i64 = if legal_moves.len() == 0 {
                minmax_eval_move(&new_state, next_color, r, SKIP_MOVE, ply_depth + 1, max_depth, None)
            } else {
                minmax_eval_best(&new_state, next_color, r, &legal_moves, ply_depth + 1, max_depth)
            };
            let w = roll_weight(r);
            proof {
                assert(best == best_reply(t, next_color, r as int, sub));
                lemma_step_bounds(t, next_color, sign as int, r as int, sub, lo, hi, w as int, best as int);
            }
            ret = ret + sign * w * best;
            r = r + 1;
        }
        ret
    }
}

/// What the rolls from `r` up can still add to `c`'s value is at most the
/// best outcome still possible times their weight.
proof fn lemma_prune_sound(t: Board, nc: Color, sign: int, r: int, sub: nat, lo: int, hi: int)
    requires
        0 <= r <= 4,
        0 <= hi <= 5,
        1 <= pow16(sub) <= 0x10000000000000int,
        forall|x: int|
            0 <= x <= 4 ==> lo * pow16(sub) <= sign * #[trigger] best_reply(t, nc, x, sub) <= hi
                * pow16(sub),
    ensures
        roll_sum(t, nc, sign, 5, sub) <= roll_sum(t, nc, sign, r, sub) + hi * pow16(sub) * (16
            - head_weight(r)),
        0 <= hi * pow16(sub) * (16 - head_weight(r)) <= 5 * 0x100000000000000int,
{
    lemma_roll_sum_range(t, nc, sign, r, 5, sub, lo, hi);
    let p = pow16(sub);
    let h = 16 - head_weight(r);
    assert(0 <= hi * p * h <= 5 * 0x100000000000000int) by (nonlinear_arith)
        requires
            0 <= hi <= 5,
            1 <= p <= 0x10000000000000int,
            0 <= h <= 16,
    ;
}

/// Picks, for `color` and `roll`, the first legal move of greatest expected
/// score searched `max_depth` plies deep; 0 where there is no legal move.
/// Pruning changes nothing: the move is the one the full search selects.
pub fn minmax_select_move(state: &GameState, color: Color, roll: i32, max_depth: usize) -> (r: i32)
    requires
        state@.wf(),
        0 <= roll <= 4,
        max_depth <= 14,
    ensures
        r == chosen_move(state@, color, roll as int, max_depth as nat),
{
    let legal_moves = state.get_legal_moves(color, roll);
    if legal_moves.len() == 0 {
        return 0;
    }
    let ghost ms = ints(legal_moves@);
    let ghost rem = max_depth as nat;
    proof {
        lemma_legal_list_members(state@, color, roll as int);
        assert(ms.contains(ms[0]));
        assert(ms.take(1) =~= seq![ms[0]]);
    }
    let mut best_move = legal_moves[0];
    let mut best_score = minmax_eval_move(state, color, roll, legal_moves[0], 0, max_depth, None);
    let mut i: usize = 1;
    while i < legal_moves.len()
        invariant
            1 <= i <= legal_moves.len(),
            state@.wf(),
            0 <= roll <= 4,
            max_depth <= 14,
            ms == ints(legal_moves@),
            ms == state@.legal_list(color, roll as int),
            rem == max_depth,
            forall|m: int| #[trigger] ms.contains(m) ==> state@.is_legal(color, roll as int, m),
            best_score == max_value(state@, color, roll as int, ms.take(i as int), rem),
            best_move == pick(state@, color, roll as int, ms.take(i as int), rem),
        decreases legal_moves.len() - i,
    {
        proof {
            assert(ms.contains(ms[i as int]));
        }
        let score = minmax_eval_move(
            state,
            color,
            roll,
            legal_moves[i],
            0,
            max_depth,
            Some(best_score),
        );
        proof {
            let pre = ms.take(i as int + 1);
            assert(pre.drop_last() =~= ms.take(i as int));
            assert(pre.last() == ms[i as int]);
        }
        if score > best_score {
            best_score = score;
            best_move = legal_moves[i];
        }
        i = i + 1;
    }
    proof {
        assert(ms.take(legal_moves.len() as int) =~= ms);
    }
    best_move
}

} // verus!
