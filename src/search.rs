//! The value that the search engines compute, as a mathematical definition.
//!
//! Roll probabilities are multiples of 1/16 (`[1, 4, 6, 4, 1] / 16`), so an
//! expected score `rem` plies deep is an exact integer once multiplied by
//! `16^rem`; the engines work in those scaled units and never round.
use vstd::prelude::*;
use crate::game::{
    Board, Color, ci, opposite, lemma_apply_preserves_pieces, lemma_count_true_nonneg,
    lemma_finished_monotone, lemma_legal_list_members, MAX_PIECES, SKIP_MOVE,
};

verus! {

/// Weight of each roll of four coins, in sixteenths.
pub open spec fn weight(r: int) -> int {
    if r == 0 || r == 4 {
        1
    } else if r == 1 || r == 3 {
        4
    } else if r == 2 {
        6
    } else {
        0
    }
}

/// Total weight of the rolls below `k`, in sixteenths.
pub open spec fn head_weight(k: int) -> int {
    if k <= 0 {
        0
    } else if k == 1 {
        1
    } else if k == 2 {
        5
    } else if k == 3 {
        11
    } else if k == 4 {
        15
    } else {
        16
    }
}

pub open spec fn pow16(n: nat) -> int
    decreases n,
{
    if n == 0 {
        1
    } else {
        16 * pow16((n - 1) as nat)
    }
}

/// The position after `c` plays `m`; the skip sentinel leaves it unchanged.
pub open spec fn after(b: Board, c: Color, roll: int, m: int) -> Board {
    if m == SKIP_MOVE {
        b
    } else {
        b.apply(c, roll, m)
    }
}

/// Whether `c` moves again after playing `m`.
pub open spec fn again(b: Board, c: Color, roll: int, m: int) -> bool {
    m != SKIP_MOVE && b.bonus(c, roll, m)
}

/// The score of `c`: its finished pieces less its opponent's.
pub open spec fn score(b: Board, c: Color) -> int {
    b.finished[ci(c)] - b.finished[ci(opposite(c))]
}

/// Who moves after `c` plays `m`.
pub open spec fn next_mover(b: Board, c: Color, roll: int, m: int) -> Color {
    if again(b, c, roll, m) {
        c
    } else {
        opposite(c)
    }
}

/// `1` where `c` moves again after `m`, `-1` where the turn passes: the next
/// mover's values count for `c` with this sign.
pub open spec fn turn_sign(b: Board, c: Color, roll: int, m: int) -> int {
    if again(b, c, roll, m) {
        1
    } else {
        -1
    }
}

/// Expected score of `c` after it plays `m` with `roll`, looking `rem` plies
/// ahead, in units of `16^-rem`. Each player picks its best move and the
/// rolls are weighted by their probabilities.
pub open spec fn move_value(b: Board, c: Color, roll: int, m: int, rem: nat) -> int
    decreases rem, 0int, 0int,
{
    let t = after(b, c, roll, m);
    if rem == 0 {
        score(t, c)
    } else {
        roll_sum(t, next_mover(b, c, roll, m), turn_sign(b, c, roll, m), 5, (rem - 1) as nat)
    }
}

/// Weighted sum over the rolls below `k` of `nc`'s best reply, signed.
pub open spec fn roll_sum(t: Board, nc: Color, sign: int, k: int, rem: nat) -> int
    decreases rem, 3int, k,
{
    if k <= 0 {
        0
    } else {
        roll_sum(t, nc, sign, k - 1, rem) + sign * weight(k - 1) * best_reply(t, nc, k - 1, rem)
    }
}

/// The value of `nc`'s best move for roll `r`, or of skipping where it has none.
pub open spec fn best_reply(t: Board, nc: Color, r: int, rem: nat) -> int
    decreases rem, 2int, 0int,
{
    let ms = t.legal_list(nc, r);
    if ms.len() == 0 {
        move_value(t, nc, r, SKIP_MOVE as int, rem)
    } else {
        max_value(t, nc, r, ms, rem)
    }
}

/// The greatest value among the moves `ms`.
pub open spec fn max_value(t: Board, c: Color, r: int, ms: Seq<int>, rem: nat) -> int
    decreases rem, 1int, ms.len(),
{
    if ms.len() == 0 {
        0
    } else if ms.len() == 1 {
        move_value(t, c, r, ms[0], rem)
    } else {
        let a = max_value(t, c, r, ms.drop_last(), rem);
        let v = move_value(t, c, r, ms.last(), rem);
        if v > a {
            v
        } else {
            a
        }
    }
}

/// The first of the moves `ms` whose value is the greatest.
pub open spec fn pick(b: Board, c: Color, roll: int, ms: Seq<int>, rem: nat) -> int
    decreases ms.len(),
{
    if ms.len() <= 1 {
        ms[0]
    } else if move_value(b, c, roll, ms.last(), rem) > max_value(b, c, roll, ms.drop_last(), rem) {
        ms.last()
    } else {
        pick(b, c, roll, ms.drop_last(), rem)
    }
}

/// The move that a search `depth` plies deep selects: the first legal move of
/// greatest expected score, or 0 where there is none.
pub open spec fn chosen_move(b: Board, c: Color, roll: int, depth: nat) -> int {
    let ms = b.legal_list(c, roll);
    if ms.len() == 0 {
        0
    } else {
        pick(b, c, roll, ms, depth)
    }
}

/// Whether `m` may be handed to the evaluation: a legal move or the skip.
pub open spec fn playable(b: Board, c: Color, roll: int, m: int) -> bool {
    m == SKIP_MOVE || b.is_legal(c, roll, m)
}

pub proof fn lemma_pow16_pos(n: nat)
    ensures
        pow16(n) >= 1,
        n <= 14 ==> pow16(n) <= 0x100000000000000,
    decreases n,
{
    if n > 0 {
        lemma_pow16_pos((n - 1) as nat);
    }
    if n <= 14 {
        lemma_pow16_mono(n, 14);
        reveal_with_fuel(pow16, 15);
        assert(pow16(14) == 0x100000000000000);
    }
}

pub proof fn lemma_pow16_mono(n: nat, m: nat)
    requires
        n <= m,
    ensures
        1 <= pow16(n) <= pow16(m),
    decreases m,
{
    if n < m {
        lemma_pow16_mono(n, (m - 1) as nat);
    } else if n > 0 {
        lemma_pow16_mono((n - 1) as nat, (n - 1) as nat);
    }
}

pub proof fn lemma_finished_range(b: Board, c: Color)
    requires
        b.wf(),
    ensures
        0 <= b.finished[ci(c)] <= MAX_PIECES,
        0 <= b.pending[ci(c)] <= MAX_PIECES,
{
    assert(0 <= b.pending[ci(c)]);
    lemma_count_true_nonneg(b.tracks[ci(c)]);
}

/// After a playable move the position is still well formed, no finished count
/// went down, and the opponent's stayed as it was.
pub proof fn lemma_after(b: Board, c: Color, roll: int, m: int)
    requires
        b.wf(),
        playable(b, c, roll, m),
    ensures
        after(b, c, roll, m).wf(),
        after(b, c, roll, m).finished[ci(c)] >= b.finished[ci(c)],
        after(b, c, roll, m).finished[ci(opposite(c))] == b.finished[ci(opposite(c))],
{
    if m != SKIP_MOVE {
        lemma_apply_preserves_pieces(b, c, roll, m);
        lemma_finished_monotone(b, c, roll, m);
    }
}

/// The value of a move lies between the worst and the best outcome still
/// possible: `c` cannot lose more than five minus its finished pieces, nor win
/// more than five minus its opponent's.
pub proof fn lemma_value_bounds(b: Board, c: Color, roll: int, m: int, rem: nat)
    requires
        b.wf(),
        playable(b, c, roll, m),
    ensures
        (after(b, c, roll, m).finished[ci(c)] - 5) * pow16(rem) <= move_value(b, c, roll, m, rem)
            <= (5 - after(b, c, roll, m).finished[ci(opposite(c))]) * pow16(rem),
    decreases rem, 0int, 0int,
{
    let t = after(b, c, roll, m);
    lemma_after(b, c, roll, m);
    lemma_finished_range(t, c);
    lemma_finished_range(t, opposite(c));
    if rem > 0 {
        let nc = next_mover(b, c, roll, m);
        let sign = turn_sign(b, c, roll, m);
        let p = pow16((rem - 1) as nat);
        let lo = t.finished[ci(c)] - 5;
        let hi = 5 - t.finished[ci(opposite(c))];
        lemma_signed_replies(b, c, roll, m, (rem - 1) as nat);
        lemma_roll_sum_range(t, nc, sign, 0, 5, (rem - 1) as nat, lo, hi);
        assert(roll_sum(t, nc, sign, 0, (rem - 1) as nat) == 0);
        assert(pow16(rem) == 16 * p);
        assert(lo * p * 16 == lo * pow16(rem)) by (nonlinear_arith)
            requires
                pow16(rem) == 16 * p,
        ;
        assert(hi * p * 16 == hi * pow16(rem)) by (nonlinear_arith)
            requires
                pow16(rem) == 16 * p,
        ;
    } else {
        assert(pow16(rem) == 1);
    }
}

/// Each best reply of the next mover, counted for `c`, lies between `c`'s
/// worst and best outcome still possible.
pub proof fn lemma_signed_replies(b: Board, c: Color, roll: int, m: int, sub: nat)
    requires
        b.wf(),
        playable(b, c, roll, m),
    ensures
        forall|r: int|
            0 <= r <= 4 ==> (after(b, c, roll, m).finished[ci(c)] - 5) * pow16(sub) <= turn_sign(
                b,
                c,
                roll,
                m,
            ) * #[trigger] best_reply(after(b, c, roll, m), next_mover(b, c, roll, m), r, sub) <= (5
                - after(b, c, roll, m).finished[ci(opposite(c))]) * pow16(sub),
    decreases sub, 3int, 0int,
{
    let t = after(b, c, roll, m);
    let nc = next_mover(b, c, roll, m);
    let sign = turn_sign(b, c, roll, m);
    let p = pow16(sub);
    lemma_after(b, c, roll, m);
    assert forall|r: int| 0 <= r <= 4 implies (t.finished[ci(c)] - 5) * p <= sign
        * #[trigger] best_reply(t, nc, r, sub) <= (5 - t.finished[ci(opposite(c))]) * p by {
        lemma_best_reply_bounds(t, nc, r, sub);
        if again(b, c, roll, m) {
            assert(nc == c && sign == 1);
        } else {
            assert(nc == opposite(c) && sign == -1);
            assert(opposite(nc) == c);
            let fc = t.finished[ci(c)];
            let fo = t.finished[ci(opposite(c))];
            assert((fc - 5) * p == -((5 - fc) * p)) by (nonlinear_arith);
            assert(-((fo - 5) * p) == (5 - fo) * p) by (nonlinear_arith);
        }
    }
}

/// `nc`'s best reply is worth at least its finished pieces less five and at
/// most five less its opponent's, in its own view.
pub proof fn lemma_best_reply_bounds(t: Board, nc: Color, r: int, rem: nat)
    requires
        t.wf(),
        0 <= r <= 4,
    ensures
        (t.finished[ci(nc)] - 5) * pow16(rem) <= best_reply(t, nc, r, rem) <= (5 - t.finished[ci(
            opposite(nc),
        )]) * pow16(rem),
    decreases rem, 2int, 0int,
{
    let ms = t.legal_list(nc, r);
    if ms.len() == 0 {
        lemma_value_bounds(t, nc, r, SKIP_MOVE as int, rem);
    } else {
        lemma_legal_list_members(t, nc, r);
        assert forall|i: int| 0 <= i < ms.len() implies t.is_legal(nc, r, #[trigger] ms[i]) by {
            assert(ms.contains(ms[i]));
        }
        lemma_max_bounds(t, nc, r, ms, rem);
    }
}

pub proof fn lemma_max_bounds(t: Board, c: Color, r: int, ms: Seq<int>, rem: nat)
    requires
        t.wf(),
        ms.len() > 0,
        forall|i: int| 0 <= i < ms.len() ==> t.is_legal(c, r, #[trigger] ms[i]),
    ensures
        (t.finished[ci(c)] - 5) * pow16(rem) <= max_value(t, c, r, ms, rem) <= (5 - t.finished[ci(
            opposite(c),
        )]) * pow16(rem),
    decreases rem, 1int, ms.len(),
{
    lemma_pow16_pos(rem);
    let m = ms.last();
    assert(t.is_legal(c, r, ms[ms.len() - 1]));
    lemma_value_bounds(t, c, r, m, rem);
    lemma_after(t, c, r, m);
    let u = after(t, c, r, m);
    assert((u.finished[ci(c)] - 5) * pow16(rem) >= (t.finished[ci(c)] - 5) * pow16(rem))
        by (nonlinear_arith)
        requires
            u.finished[ci(c)] >= t.finished[ci(c)],
            pow16(rem) >= 1,
    ;
    if ms.len() > 1 {
        let rest = ms.drop_last();
        assert forall|i: int| 0 <= i < rest.len() implies t.is_legal(c, r, #[trigger] rest[i]) by {
            assert(rest[i] == ms[i]);
        }
        lemma_max_bounds(t, c, r, rest, rem);
    } else {
        assert(ms[0] == m);
    }
}

/// The rolls from `j` up to `k` contribute between `lo` and `hi` per unit of
/// weight, where every signed best reply lies between `lo` and `hi`.
pub proof fn lemma_roll_sum_range(
    t: Board,
    nc: Color,
    sign: int,
    j: int,
    k: int,
    rem: nat,
    lo: int,
    hi: int,
)
    requires
        0 <= j <= k <= 5,
        forall|r: int|
            0 <= r <= 4 ==> lo * pow16(rem) <= sign * #[trigger] best_reply(t, nc, r, rem) <= hi
                * pow16(rem),
    ensures
        lo * pow16(rem) * (head_weight(k) - head_weight(j)) <= roll_sum(t, nc, sign, k, rem)
            - roll_sum(t, nc, sign, j, rem) <= hi * pow16(rem) * (head_weight(k) - head_weight(j)),
    decreases k - j,
{
    if k > j {
        lemma_roll_sum_range(t, nc, sign, j, k - 1, rem, lo, hi);
        let p = pow16(rem);
        let w = weight(k - 1);
        let bb = best_reply(t, nc, k - 1, rem);
        let x = sign * bb;
        assert(head_weight(k) == head_weight(k - 1) + w);
        assert(sign * w * bb == w * (sign * bb)) by (nonlinear_arith);
        assert(lo * p * w <= w * x <= hi * p * w) by (nonlinear_arith)
            requires
                lo * p <= x <= hi * p,
                w >= 0,
        ;
        assert(lo * p * (head_weight(k) - head_weight(j)) == lo * p * (head_weight(k - 1)
            - head_weight(j)) + lo * p * w) by (nonlinear_arith)
            requires
                head_weight(k) == head_weight(k - 1) + w,
        ;
        assert(hi * p * (head_weight(k) - head_weight(j)) == hi * p * (head_weight(k - 1)
            - head_weight(j)) + hi * p * w) by (nonlinear_arith)
            requires
                head_weight(k) == head_weight(k - 1) + w,
        ;
    }
}

/// Bounds on the next term of the weighted sum and on the sum after it, so
/// that neither overflows.
pub proof fn lemma_step_bounds(
    t: Board,
    nc: Color,
    sign: int,
    r: int,
    sub: nat,
    lo: int,
    hi: int,
    w: int,
    best: int,
)
    requires
        0 <= r <= 4,
        -5 <= lo <= 0,
        0 <= hi <= 5,
        1 <= pow16(sub) <= 0x10000000000000int,
        sign == 1 || sign == -1,
        w == weight(r),
        best == best_reply(t, nc, r, sub),
        forall|x: int|
            0 <= x <= 4 ==> lo * pow16(sub) <= sign * #[trigger] best_reply(t, nc, x, sub) <= hi
                * pow16(sub),
    ensures
        -6 * 0x50000000000000int <= sign * w * best <= 6 * 0x50000000000000int,
        -5 * 0x100000000000000int <= roll_sum(t, nc, sign, r + 1, sub) <= 5 * 0x100000000000000int,
        roll_sum(t, nc, sign, r + 1, sub) == roll_sum(t, nc, sign, r, sub) + sign * w * best,
{
    let p = pow16(sub);
    assert(lo * sign * best == lo * (sign * best)) by (nonlinear_arith);
    assert(-5 * p <= lo * p) by (nonlinear_arith)
        requires
            lo >= -5,
            p >= 1,
    ;
    assert(hi * p <= 5 * p) by (nonlinear_arith)
        requires
            hi <= 5,
            p >= 1,
    ;
    let x = sign * best;
    assert(sign * w * best == w * x) by (nonlinear_arith)
        requires
            x == sign * best,
    ;
    assert(-6 * 0x50000000000000int <= w * x <= 6 * 0x50000000000000int) by (nonlinear_arith)
        requires
            -5 * p <= x <= 5 * p,
            p <= 0x10000000000000int,
            0 <= w <= 6,
    ;
    lemma_roll_sum_range(t, nc, sign, 0, r + 1, sub, lo, hi);
    let h = head_weight(r + 1);
    let v = roll_sum(t, nc, sign, r + 1, sub);
    assert(roll_sum(t, nc, sign, 0, sub) == 0);
    assert(-5 * 0x100000000000000int <= v <= 5 * 0x100000000000000int) by (nonlinear_arith)
        requires
            lo * p * h <= v <= hi * p * h,
            -5 <= lo <= 0,
            0 <= hi <= 5,
            1 <= p <= 0x10000000000000int,
            0 <= h <= 16,
    ;
}

/// The weight of roll `r` in sixteenths.
pub fn roll_weight(r: i32) -> (w: i64)
    requires
        0 <= r <= 4,
    ensures
        w == weight(r as int),
{
    if r == 0 || r == 4 {
        1
    } else if r == 1 || r == 3 {
        4
    } else {
        6
    }
}

/// The weight of the rolls from `r` up, in sixteenths.
pub fn tail_weight(r: i32) -> (w: i64)
    requires
        0 <= r <= 4,
    ensures
        w == 16 - head_weight(r as int),
{
    if r == 0 {
        16
    } else if r == 1 {
        15
    } else if r == 2 {
        11
    } else if r == 3 {
        5
    } else {
        1
    }
}

/// `16^n`, the unit of a value `n` plies deep.
pub fn scale_of(n: usize) -> (p: i64)
    requires
        n <= 14,
    ensures
        p == pow16(n as nat),
{
    let mut p: i64 = 1;
    let mut i: usize = 0;
    while i < n
        invariant
            i <= n <= 14,
            p == pow16(i as nat),
        decreases n - i,
    {
        proof {
            lemma_pow16_pos((i + 1) as nat);
        }
        p = p * 16;
        i = i + 1;
    }
    p
}

} // verus!
