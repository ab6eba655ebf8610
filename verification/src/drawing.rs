//! What a draw comes to: in exact arithmetic, a score is drawn as often as its
//! weight says, and its weight falls off with its distance to the largest score,
//! measured in temperatures.

use crate::arith::Num;
use crate::bits::NEG_INFINITY;
use crate::exact::products_associate;
use crate::kernels::largest_of;
use crate::sampling::{drawn, inverse_temperature, not_above_zero, score_weight, state_after, target_left, walk, weight_sum, WideNum, WideOp, GOLDEN};
use vstd::arithmetic::div_mod::*;
use vstd::prelude::*;

verus! {

/// Products are exact, and the temperature `t` can be divided by. It is not below
/// the lowest, one millionth.
pub open spec fn divides(n: Num<u32>, t: u32) -> bool {
    &&& n.larger(t, 0x3586_37BD) == t
    &&& n.times(n.over(n.one, t), t) == n.one
    &&& n.times(t, n.over(n.one, t)) == n.one
    &&& forall|a: u32| #[trigger] n.times(a, n.one) == a
    &&& products_associate(n)
}

proof fn lemma_times_inverse(n: Num<u32>, a: u32, t: u32)
    requires
        divides(n, t),
    ensures
        n.times(n.times(a, n.over(n.one, t)), t) == a,
        n.times(n.times(a, t), n.over(n.one, t)) == a,
{
    reveal(products_associate);
    let inv = n.over(n.one, t);
    assert(n.times(n.times(a, inv), t) == n.times(a, n.times(inv, t)));
    assert(n.times(n.times(a, t), inv) == n.times(a, n.times(t, inv)));
}

/// The logarithm of the weight of a score, times the temperature, is the distance of
/// the score to the largest one.
pub proof fn law_log_weights_times_the_temperature_are_distances(
    n: Num<u32>,
    w: WideNum,
    scores: Seq<u32>,
    t: u32,
    i: int,
)
    requires
        divides(n, t),
        forall|a: u32| #[trigger] n.logarithm(n.exponential(a)) == a,
        0 <= i < scores.len(),
    ensures
        exists|e: u32|
            score_weight(n, w, scores[i], largest_of(n, scores), inverse_temperature(n, t))
                == #[trigger] (w.widen)(e) && n.times(n.logarithm(e), t) == n.minus(
                scores[i],
                largest_of(n, scores),
            ),
{
    let d = n.minus(scores[i], largest_of(n, scores));
    let e = n.exponential(n.times(d, n.over(n.one, t)));
    lemma_times_inverse(n, d, t);
    assert(score_weight(n, w, scores[i], largest_of(n, scores), inverse_temperature(n, t))
        == (w.widen)(e));
}

/// Wide sums and differences are exact.
pub open spec fn is_wide_exact(w: WideNum) -> bool {
    &&& forall|a: u64| #[trigger] (w.op)(WideOp::Sub, a, 0) == a
    &&& forall|a: u64, b: u64, c: u64|
        (w.op)(WideOp::Sub, #[trigger] (w.op)(WideOp::Sub, a, b), c) == (w.op)(
            WideOp::Sub,
            a,
            #[trigger] (w.op)(WideOp::Add, b, c),
        )
}

/// `sums` are the running sums of the weights of scores whose distances to the
/// largest, over the temperature, are `d`.
pub open spec fn are_running_weights(n: Num<u32>, w: WideNum, d: Seq<u32>, sums: Seq<u64>) -> bool {
    &&& sums.len() == d.len() + 1
    &&& sums[0] == 0
    &&& forall|i: int|
        0 <= i < d.len() ==> #[trigger] sums[i + 1] == (w.op)(
            WideOp::Add,
            sums[i],
            (w.widen)(n.exponential(d[i])),
        )
}

proof fn lemma_running(
    n: Num<u32>,
    w: WideNum,
    scores: Seq<u32>,
    t: u32,
    d: Seq<u32>,
    sums: Seq<u64>,
    target: u64,
    k: int,
)
    requires
        divides(n, t),
        is_wide_exact(w),
        d.len() == scores.len(),
        forall|i: int|
            0 <= i < d.len() ==> n.times(#[trigger] d[i], t) == n.minus(
                scores[i],
                largest_of(n, scores),
            ),
        are_running_weights(n, w, d, sums),
        0 <= k <= d.len(),
    ensures
        weight_sum(n, w, scores, inverse_temperature(n, t), k) == sums[k],
        target_left(n, w, scores, inverse_temperature(n, t), target, k) == (w.op)(
            WideOp::Sub,
            target,
            sums[k],
        ),
    decreases k,
{
    if k > 0 {
        lemma_running(n, w, scores, t, d, sums, target, k - 1);
        let top = largest_of(n, scores);
        lemma_times_inverse(n, d[k - 1], t);
        assert(n.times(d[k - 1], t) == n.minus(scores[k - 1], top));
        let e = (w.widen)(n.exponential(d[k - 1]));
        assert(score_weight(n, w, scores[k - 1], top, inverse_temperature(n, t)) == e);
        assert(sums[(k - 1) + 1] == (w.op)(WideOp::Add, sums[k - 1], e));
        assert((w.op)(WideOp::Sub, (w.op)(WideOp::Sub, target, sums[k - 1]), e) == (w.op)(
            WideOp::Sub,
            target,
            (w.op)(WideOp::Add, sums[k - 1], e),
        ));
    }
}

proof fn lemma_walk(
    n: Num<u32>,
    w: WideNum,
    scores: Seq<u32>,
    inv_t: u32,
    target: u64,
    k: int,
)
    requires
        0 <= k < scores.len(),
    ensures
        ({
            let r = walk(n, w, scores, inv_t, target, k);
            &&& k <= r < scores.len()
            &&& forall|j: int|
                k <= j < r ==> !not_above_zero(
                    #[trigger] target_left(n, w, scores, inv_t, target, j + 1),
                )
            &&& r + 1 < scores.len() ==> not_above_zero(
                target_left(n, w, scores, inv_t, target, r + 1),
            )
        }),
    decreases scores.len() - k,
{
    if not_above_zero(target_left(n, w, scores, inv_t, target, k + 1)) {
    } else if k + 1 < scores.len() {
        lemma_walk(n, w, scores, inv_t, target, k + 1);
    } else {
        assert(walk(n, w, scores, inv_t, target, k + 1) == k);
    }
}

/// A draw is where the running weights reach the drawn share of all of them: at the
/// first score up to which the weights add up to as much, or at the last. The
/// weight of a score is the exponential of its distance to the largest over the
/// temperature.
pub proof fn law_draws_are_where_the_weights_reach_the_number(
    n: Num<u32>,
    w: WideNum,
    scores: Seq<u32>,
    t: u32,
    number: u64,
    d: Seq<u32>,
    sums: Seq<u64>,
)
    requires
        scores.len() > 0,
        divides(n, t),
        is_wide_exact(w),
        d.len() == scores.len(),
        forall|i: int|
            0 <= i < d.len() ==> n.times(#[trigger] d[i], t) == n.minus(
                scores[i],
                largest_of(n, scores),
            ),
        are_running_weights(n, w, d, sums),
    ensures
        ({
            let k = drawn(n, w, scores, t, number);
            let target = (w.op)(WideOp::Mul, (w.unit)(number), sums.last());
            &&& 0 <= k < scores.len()
            &&& forall|j: int|
                0 <= j < k ==> !not_above_zero(
                    (w.op)(WideOp::Sub, target, #[trigger] sums[j + 1]),
                )
            &&& k + 1 < scores.len() ==> not_above_zero((w.op)(WideOp::Sub, target, sums[k + 1]))
        }),
{
    let inv_t = inverse_temperature(n, t);
    let len = scores.len() as int;
    let target = (w.op)(WideOp::Mul, (w.unit)(number), sums.last());
    lemma_running(n, w, scores, t, d, sums, target, len);
    lemma_walk(n, w, scores, inv_t, target, 0);
    let k = drawn(n, w, scores, t, number);
    assert forall|j: int| 0 <= j < k implies !not_above_zero(
        (w.op)(WideOp::Sub, target, #[trigger] sums[j + 1]),
    ) by {
        lemma_running(n, w, scores, t, d, sums, target, j + 1);
        assert(!not_above_zero(target_left(n, w, scores, inv_t, target, j + 1)));
    }
    if k + 1 < len {
        lemma_running(n, w, scores, t, d, sums, target, k + 1);
    }
}

/// Division by `t` keeps differences and the order.
pub open spec fn scales_by(n: Num<u32>, t: u32) -> bool {
    &&& n.larger(t, 0x3586_37BD) == t
    &&& n.larger(n.one, 0x3586_37BD) == n.one
    &&& forall|a: u32| #[trigger] n.times(a, n.over(n.one, t)) == n.over(a, t)
    &&& forall|a: u32| #[trigger] n.times(a, n.over(n.one, n.one)) == a
    &&& forall|a: u32, b: u32|
        #[trigger] n.minus(n.over(a, t), n.over(b, t)) == n.over(n.minus(a, b), t)
    &&& forall|a: u32, b: u32|
        #[trigger] n.larger(n.over(a, t), n.over(b, t)) == n.over(n.larger(a, b), t)
    &&& n.over(NEG_INFINITY, t) == NEG_INFINITY
}

proof fn lemma_scaled_largest(n: Num<u32>, s: Seq<u32>, t: u32)
    requires
        scales_by(n, t),
    ensures
        largest_of(n, s.map_values(|v: u32| n.over(v, t))) == n.over(largest_of(n, s), t),
    decreases s.len(),
{
    let f = |v: u32| n.over(v, t);
    if s.len() > 0 {
        lemma_scaled_largest(n, s.drop_last(), t);
        assert(s.map_values(f).drop_last() =~= s.drop_last().map_values(f));
        assert(n.larger(n.over(largest_of(n, s.drop_last()), t), n.over(s.last(), t)) == n.over(
            n.larger(largest_of(n, s.drop_last()), s.last()),
            t,
        ));
    }
}

proof fn lemma_scaled_weights(
    n: Num<u32>,
    w: WideNum,
    s: Seq<u32>,
    t: u32,
    target: u64,
    k: int,
)
    requires
        scales_by(n, t),
        0 <= k <= s.len(),
    ensures
        ({
            let r = s.map_values(|v: u32| n.over(v, t));
            let (a, b) = (inverse_temperature(n, t), inverse_temperature(n, n.one));
            &&& weight_sum(n, w, s, a, k) == weight_sum(n, w, r, b, k)
            &&& target_left(n, w, s, a, target, k) == target_left(n, w, r, b, target, k)
        }),
    decreases k,
{
    if k > 0 {
        let r = s.map_values(|v: u32| n.over(v, t));
        lemma_scaled_weights(n, w, s, t, target, k - 1);
        lemma_scaled_largest(n, s, t);
        let top = largest_of(n, s);
        assert(n.minus(n.over(s[k - 1], t), n.over(top, t)) == n.over(n.minus(s[k - 1], top), t));
        assert(n.times(n.minus(s[k - 1], top), n.over(n.one, t)) == n.over(
            n.minus(s[k - 1], top),
            t,
        ));
    }
}

proof fn lemma_scaled_walk(
    n: Num<u32>,
    w: WideNum,
    s: Seq<u32>,
    t: u32,
    target: u64,
    k: int,
)
    requires
        scales_by(n, t),
        0 <= k <= s.len(),
    ensures
        walk(n, w, s, inverse_temperature(n, t), target, k) == walk(
            n,
            w,
            s.map_values(|v: u32| n.over(v, t)),
            inverse_temperature(n, n.one),
            target,
            k,
        ),
    decreases s.len() - k,
{
    if k < s.len() {
        lemma_scaled_weights(n, w, s, t, target, k + 1);
        lemma_scaled_walk(n, w, s, t, target, k + 1);
    }
}

/// To draw at a temperature is to draw from the scores divided by it at temperature
/// one, with the same number.
pub proof fn law_a_temperature_divides_the_scores(
    n: Num<u32>,
    w: WideNum,
    scores: Seq<u32>,
    t: u32,
    number: u64,
)
    requires
        scales_by(n, t),
    ensures
        drawn(n, w, scores, t, number) == drawn(
            n,
            w,
            scores.map_values(|v: u32| n.over(v, t)),
            n.one,
            number,
        ),
{
    let a = inverse_temperature(n, t);
    let total = weight_sum(n, w, scores, a, scores.len() as int);
    let target = (w.op)(WideOp::Mul, (w.unit)(number), total);
    lemma_scaled_weights(n, w, scores, t, target, scores.len() as int);
    lemma_scaled_walk(n, w, scores, t, target, 0);
}

/// The states of a generator go up in equal steps: behind `n` numbers it has gone
/// from its seed by one step more than that, in words of 64 bits.
pub proof fn law_generators_go_in_equal_steps(seed: u64, n: nat)
    ensures
        state_after(seed, n) as int == (seed + (n + 1) * 0x9E37_79B9_7F4A_7C15)
            % 0x1_0000_0000_0000_0000,
    decreases n,
{
    let m = 0x1_0000_0000_0000_0000int;
    let g = 0x9E37_79B9_7F4A_7C15int;
    if n > 0 {
        law_generators_go_in_equal_steps(seed, (n - 1) as nat);
        let before = state_after(seed, (n - 1) as nat);
        assert(before.wrapping_add(GOLDEN) as int == (before + g) % m);
        lemma_add_mod_noop(seed + n * g, g, m);
        lemma_small_mod(g as nat, m as nat);
        lemma_mod_twice(seed + n * g, m);
        assert(seed + n * g + g == seed + (n + 1) * g) by (nonlinear_arith);
    } else {
        assert(seed.wrapping_add(GOLDEN) as int == (seed + g) % m);
    }
}

} // verus!
