//! Choosing the next token: the largest score, and the random numbers behind
//! sampling.

use crate::arith::{Arith, Binary, Num, Unary, ONE};
use crate::bits::{f32_greater, f32_gt, f32_nan, NEG_INFINITY};
use crate::kernels::{largest_of, max_of};
use vstd::arithmetic::div_mod::*;
use vstd::prelude::*;

verus! {

/// `r` is the position of the largest score, the first of several. Scores that
/// are no number are passed over. Where no score is above negative infinity,
/// it is the first position.
pub open spec fn is_argmax(scores: Seq<u32>, r: int) -> bool {
    if exists|i: int| 0 <= i < scores.len() && f32_greater(#[trigger] scores[i], NEG_INFINITY) {
        &&& 0 <= r < scores.len()
        &&& f32_greater(scores[r], NEG_INFINITY)
        &&& forall|j: int| 0 <= j < scores.len() ==> !f32_greater(#[trigger] scores[j], scores[r])
        &&& forall|j: int|
            0 <= j < r ==> f32_nan(#[trigger] scores[j]) || f32_greater(scores[r], scores[j])
    } else {
        r == 0
    }
}

/// The largest score has one position.
pub proof fn law_argmax_is_unique(scores: Seq<u32>, a: int, b: int)
    requires
        is_argmax(scores, a),
        is_argmax(scores, b),
    ensures
        a == b,
{
    if a < b {
        assert(!f32_greater(scores[b], scores[a]));
        assert(!f32_nan(scores[a]));
    } else if b < a {
        assert(!f32_greater(scores[a], scores[b]));
        assert(!f32_nan(scores[b]));
    }
}

/// The position of the largest score, given in float bits.
pub fn argmax(scores: &[u32]) -> (r: u32)
    requires
        scores@.len() <= u32::MAX,
    ensures
        is_argmax(scores@, r as int),
{
    let n: usize = scores.len();
    let mut best: usize = 0;
    let mut best_v: u32 = NEG_INFINITY;
    let mut found: bool = false;
    let mut i: usize = 0;
    while i < n
        invariant
            i <= n,
            n == scores@.len(),
            !f32_nan(best_v),
            !found ==> best == 0 && best_v == NEG_INFINITY,
            found ==> best < i && scores@[best as int] == best_v && f32_greater(
                best_v,
                NEG_INFINITY,
            ),
            forall|j: int| 0 <= j < i ==> !f32_greater(#[trigger] scores@[j], best_v),
            forall|j: int|
                0 <= j < best ==> f32_nan(#[trigger] scores@[j]) || f32_greater(
                    best_v,
                    scores@[j],
                ),
        decreases n - i,
    {
        let v: u32 = scores[i];
        if f32_gt(v, best_v) {
            best_v = v;
            best = i;
            found = true;
        }
        i = i + 1;
    }
    proof {
        if found {
            assert(f32_greater(scores@[best as int], NEG_INFINITY));
        }
    }
    best as u32
}

/// Step of the generator.
pub const GOLDEN: u64 = 0x9E37_79B9_7F4A_7C15;

/// The number that a generator state gives.
pub open spec fn mixed(state: u64) -> u64 {
    let a = (state ^ (state >> 30)).wrapping_mul(0xBF58_476D_1CE4_E5B9);
    let b = (a ^ (a >> 27)).wrapping_mul(0x94D0_49BB_1331_11EB);
    b ^ (b >> 31)
}

/// SplitMix64, a small generator.
pub struct SplitMix64 {
    pub state: u64,
}

impl SplitMix64 {
    /// A generator for a seed.
    pub fn new(seed: u64) -> (r: SplitMix64)
        ensures
            r.state == seed.wrapping_add(GOLDEN),
    {
        SplitMix64 { state: seed.wrapping_add(GOLDEN) }
    }

    /// The next number.
    pub fn next_u64(&mut self) -> (r: u64)
        ensures
            final(self).state == old(self).state.wrapping_add(GOLDEN),
            r == mixed(final(self).state),
    {
        self.state = self.state.wrapping_add(GOLDEN);
        let z0: u64 = self.state;
        let z1: u64 = (z0 ^ (z0 >> 30)).wrapping_mul(0xBF58_476D_1CE4_E5B9);
        let z2: u64 = (z1 ^ (z1 >> 27)).wrapping_mul(0x94D0_49BB_1331_11EB);
        z2 ^ (z2 >> 31)
    }

    /// The next number, cut to 53 bits: divided by two to the 53 it is uniform
    /// from zero up to, and without, one.
    pub fn next_unit(&mut self) -> (r: u64)
        ensures
            final(self).state == old(self).state.wrapping_add(GOLDEN),
            r == mixed(final(self).state) >> 11,
            r < 0x20_0000_0000_0000,
    {
        let z: u64 = self.next_u64();
        assert(z >> 11 < 0x20_0000_0000_0000u64) by (bit_vector);
        z >> 11
    }
}

/// The state after `n` numbers.
pub open spec fn state_after(seed: u64, n: nat) -> u64
    decreases n,
{
    if n == 0 {
        seed.wrapping_add(GOLDEN)
    } else {
        state_after(seed, (n - 1) as nat).wrapping_add(GOLDEN)
    }
}

/// Number `n` of the stream of a seed, from zero.
pub open spec fn stream(seed: u64, n: nat) -> u64 {
    mixed(state_after(seed, n + 1))
}

/// A factor with an inverse keeps numbers apart.
proof fn lemma_product_keeps_apart(x: u64, y: u64, c: u64, d: int, q: int)
    requires
        c * d == 1 + q * 0x1_0000_0000_0000_0000,
        x.wrapping_mul(c) == y.wrapping_mul(c),
    ensures
        x == y,
{
    let m = 0x1_0000_0000_0000_0000int;
    lemma_undo_product(x, c, d, q);
    lemma_undo_product(y, c, d, q);
    assert(x as int == (x.wrapping_mul(c) * d) % m);
}

proof fn lemma_undo_product(x: u64, c: u64, d: int, q: int)
    requires
        c * d == 1 + q * 0x1_0000_0000_0000_0000,
    ensures
        x as int == (x.wrapping_mul(c) * d) % 0x1_0000_0000_0000_0000,
{
    let m = 0x1_0000_0000_0000_0000int;
    let p = x * c;
    lemma_mul_mod_noop_left(p, d, m);
    assert((p % m) * d % m == (p * d) % m);
    assert(p * d == m * (x * q) + x) by (nonlinear_arith)
        requires
            p == x * c,
            c * d == 1 + q * m,
    ;
    lemma_mod_multiples_vanish(x * q, x as int, m);
    lemma_small_mod(x as nat, m as nat);
}

/// States that differ give numbers that differ.
proof fn lemma_mixed_keeps_apart(x: u64, y: u64)
    requires
        mixed(x) == mixed(y),
    ensures
        x == y,
{
    let a1 = x ^ (x >> 30);
    let a2 = y ^ (y >> 30);
    let b1 = a1.wrapping_mul(0xBF58476D1CE4E5B9);
    let b2 = a2.wrapping_mul(0xBF58476D1CE4E5B9);
    let c1 = b1 ^ (b1 >> 27);
    let c2 = b2 ^ (b2 >> 27);
    let d1 = c1.wrapping_mul(0x94D049BB133111EB);
    let d2 = c2.wrapping_mul(0x94D049BB133111EB);
    assert(d1 ^ (d1 >> 31) == d2 ^ (d2 >> 31));
    assert(d1 == d2) by (bit_vector)
        requires
            d1 ^ (d1 >> 31) == d2 ^ (d2 >> 31),
    ;
    lemma_product_keeps_apart(c1, c2, 0x94D049BB133111EB, 0x319642B2D24D8EC3, 0x1CD336EDA85F1453);
    assert(b1 == b2) by (bit_vector)
        requires
            b1 ^ (b1 >> 27) == b2 ^ (b2 >> 27),
    ;
    lemma_product_keeps_apart(a1, a2, 0xBF58476D1CE4E5B9, 0x96DE1B173F119089, 0x70C3BCA78F27F46C);
    assert(x == y) by (bit_vector)
        requires
            x ^ (x >> 30) == y ^ (y >> 30),
    ;
}

proof fn lemma_states_apart(a: u64, b: u64, n: nat)
    requires
        a != b,
    ensures
        state_after(a, n) != state_after(b, n),
    decreases n,
{
    if n > 0 {
        lemma_states_apart(a, b, (n - 1) as nat);
    }
}

/// Seeds that differ give streams that differ at every step.
pub proof fn law_seeds_keep_their_streams_apart(a: u64, b: u64, n: nat)
    requires
        a != b,
    ensures
        stream(a, n) != stream(b, n),
{
    lemma_states_apart(a, b, n + 1);
    if stream(a, n) == stream(b, n) {
        lemma_mixed_keeps_apart(state_after(a, n + 1), state_after(b, n + 1));
    }
}

/// Bits of the float 1e-6, the lowest temperature.
pub const MIN_TEMPERATURE: u32 = 0x3586_37BD;

/// An operation on two wide numbers.
#[derive(Debug, Clone, Copy, PartialEq, Eq)]
pub enum WideOp {
    Add,
    Sub,
    Mul,
}

/// Wide arithmetic as mathematics, on 64-bit words that stand for floats.
pub struct WideNum {
    /// A number made wide.
    pub widen: spec_fn(u32) -> u64,
    /// A number of 53 bits divided by two to the 53.
    pub unit: spec_fn(u64) -> u64,
    pub op: spec_fn(WideOp, u64, u64) -> u64,
}

/// The wide operations that a caller supplies.
pub struct Wide<W: Fn(u32) -> u64, I: Fn(u64) -> u64, D: Fn(WideOp, u64, u64) -> u64> {
    pub widen: W,
    pub unit: I,
    pub op: D,
}

impl<W: Fn(u32) -> u64, I: Fn(u64) -> u64, D: Fn(WideOp, u64, u64) -> u64> View for Wide<W, I, D> {
    type V = WideNum;

    open spec fn view(&self) -> WideNum {
        WideNum {
            widen: |v: u32| choose|r: u64| call_ensures(self.widen, (v,), r),
            unit: |v: u64| choose|r: u64| call_ensures(self.unit, (v,), r),
            op: |o: WideOp, a: u64, b: u64| choose|r: u64| call_ensures(self.op, (o, a, b), r),
        }
    }
}

impl<W: Fn(u32) -> u64, I: Fn(u64) -> u64, D: Fn(WideOp, u64, u64) -> u64> Wide<W, I, D> {
    /// The operations are functions: each can be applied to all numbers, and
    /// gives one result.
    pub open spec fn wf(&self) -> bool {
        &&& forall|v: u32| #[trigger] call_requires(self.widen, (v,))
        &&& forall|v: u32, r: u64, s: u64|
            #[trigger] call_ensures(self.widen, (v,), r) && #[trigger] call_ensures(
                self.widen,
                (v,),
                s,
            ) ==> r == s
        &&& forall|v: u64| #[trigger] call_requires(self.unit, (v,))
        &&& forall|v: u64, r: u64, s: u64|
            #[trigger] call_ensures(self.unit, (v,), r) && #[trigger] call_ensures(
                self.unit,
                (v,),
                s,
            ) ==> r == s
        &&& forall|o: WideOp, a: u64, b: u64| #[trigger] call_requires(self.op, (o, a, b))
        &&& forall|o: WideOp, a: u64, b: u64, r: u64, s: u64|
            #[trigger] call_ensures(self.op, (o, a, b), r) && #[trigger] call_ensures(
                self.op,
                (o, a, b),
                s,
            ) ==> r == s
    }

    fn widened(&self, v: u32) -> (r: u64)
        requires
            self.wf(),
        ensures
            r == (self@.widen)(v),
    {
        (self.widen)(v)
    }

    fn unit_of(&self, v: u64) -> (r: u64)
        requires
            self.wf(),
        ensures
            r == (self@.unit)(v),
    {
        (self.unit)(v)
    }

    fn apply(&self, o: WideOp, a: u64, b: u64) -> (r: u64)
        requires
            self.wf(),
        ensures
            r == (self@.op)(o, a, b),
    {
        (self.op)(o, a, b)
    }
}

/// The wide float is a number and not above zero.
pub open spec fn not_above_zero(bits: u64) -> bool {
    let magnitude = bits as int % 0x8000_0000_0000_0000;
    magnitude <= 0x7FF0_0000_0000_0000 && (bits >= 0x8000_0000_0000_0000 || magnitude == 0)
}

fn is_not_above_zero(bits: u64) -> (r: bool)
    ensures
        r == not_above_zero(bits),
{
    let magnitude: u64 = bits % 0x8000_0000_0000_0000;
    magnitude <= 0x7FF0_0000_0000_0000 && (bits >= 0x8000_0000_0000_0000 || magnitude == 0)
}

/// The weight of a score: the exponential of its distance to the largest, at a
/// temperature.
pub open spec fn score_weight(n: Num<u32>, w: WideNum, v: u32, top: u32, inv_t: u32) -> u64 {
    (w.widen)(n.exponential(n.times(n.minus(v, top), inv_t)))
}

/// One over the temperature, which is at least the lowest.
pub open spec fn inverse_temperature(n: Num<u32>, temperature: u32) -> u32 {
    n.over(n.one, n.larger(temperature, MIN_TEMPERATURE))
}

/// The sum of the weights of the first `k` scores.
pub open spec fn weight_sum(
    n: Num<u32>,
    w: WideNum,
    scores: Seq<u32>,
    inv_t: u32,
    k: int,
) -> u64
    decreases k,
{
    if k <= 0 {
        0
    } else {
        (w.op)(
            WideOp::Add,
            weight_sum(n, w, scores, inv_t, k - 1),
            score_weight(n, w, scores[k - 1], largest_of(n, scores), inv_t),
        )
    }
}

/// What is left of the target after the first `k` scores.
pub open spec fn target_left(
    n: Num<u32>,
    w: WideNum,
    scores: Seq<u32>,
    inv_t: u32,
    target: u64,
    k: int,
) -> u64
    decreases k,
{
    if k <= 0 {
        target
    } else {
        (w.op)(
            WideOp::Sub,
            target_left(n, w, scores, inv_t, target, k - 1),
            score_weight(n, w, scores[k - 1], largest_of(n, scores), inv_t),
        )
    }
}

/// The first score from `k` on at which nothing is left of the target, or the
/// last.
pub open spec fn walk(
    n: Num<u32>,
    w: WideNum,
    scores: Seq<u32>,
    inv_t: u32,
    target: u64,
    k: int,
) -> int
    decreases scores.len() - k,
{
    if k >= scores.len() {
        scores.len() - 1
    } else if not_above_zero(target_left(n, w, scores, inv_t, target, k + 1)) {
        k
    } else {
        walk(n, w, scores, inv_t, target, k + 1)
    }
}

/// The score that a random number of 53 bits draws at a temperature.
pub open spec fn drawn(
    n: Num<u32>,
    w: WideNum,
    scores: Seq<u32>,
    temperature: u32,
    number: u64,
) -> int {
    let inv_t = inverse_temperature(n, temperature);
    let total = weight_sum(n, w, scores, inv_t, scores.len() as int);
    walk(n, w, scores, inv_t, (w.op)(WideOp::Mul, (w.unit)(number), total), 0)
}

/// A draw is always one of the scores.
pub proof fn law_draws_stay_in_range(
    n: Num<u32>,
    w: WideNum,
    scores: Seq<u32>,
    temperature: u32,
    number: u64,
)
    requires
        scores.len() > 0,
    ensures
        0 <= drawn(n, w, scores, temperature, number) < scores.len(),
{
    let inv_t = inverse_temperature(n, temperature);
    let total = weight_sum(n, w, scores, inv_t, scores.len() as int);
    lemma_walk_in_range(
        n,
        w,
        scores,
        inv_t,
        (w.op)(WideOp::Mul, (w.unit)(number), total),
        0,
    );
}

proof fn lemma_walk_in_range(
    n: Num<u32>,
    w: WideNum,
    scores: Seq<u32>,
    inv_t: u32,
    target: u64,
    k: int,
)
    requires
        scores.len() > 0,
        0 <= k,
    ensures
        0 <= walk(n, w, scores, inv_t, target, k) < scores.len(),
    decreases scores.len() - k,
{
    if k < scores.len() {
        lemma_walk_in_range(n, w, scores, inv_t, target, k + 1);
    }
}

/// Draw a score at a temperature.
pub fn sample<
    U: Fn(Unary, u32) -> u32 + Sync,
    B: Fn(Binary, u32, u32) -> u32 + Sync,
    C: Fn(usize) -> u32 + Sync,
    W: Fn(u32) -> u64,
    I: Fn(u64) -> u64,
    D: Fn(WideOp, u64, u64) -> u64,
>(
    ar: &Arith<U, B, C>,
    wd: &Wide<W, I, D>,
    scores: &[u32],
    temperature: u32,
    rng: &mut SplitMix64,
) -> (r: u32)
    requires
        ar.wf(),
        wd.wf(),
        0 < scores@.len() <= u32::MAX,
    ensures
        final(rng).state == old(rng).state.wrapping_add(GOLDEN),
        r == drawn(ar@, wd@, scores@, temperature, mixed(final(rng).state) >> 11),
        r < scores@.len(),
{
    let len: usize = scores.len();
    let inv_t: u32 = ar.div(ONE, ar.max(temperature, MIN_TEMPERATURE));
    let top: u32 = max_of(ar, scores);
    let mut total: u64 = 0;
    let mut i: usize = 0;
    while i < len
        invariant
            i <= len,
            len == scores@.len(),
            ar.wf(),
            wd.wf(),
            top == largest_of(ar@, scores@),
            total == weight_sum(ar@, wd@, scores@, inv_t, i as int),
        decreases len - i,
    {
        let w: u64 = wd.widened(ar.exp(ar.mul(ar.sub(scores[i], top), inv_t)));
        total = wd.apply(WideOp::Add, total, w);
        i = i + 1;
    }
    let number: u64 = rng.next_unit();
    let mut left: u64 = wd.apply(WideOp::Mul, wd.unit_of(number), total);
    let ghost target = left;
    proof {
        lemma_walk_in_range(ar@, wd@, scores@, inv_t, target, 0);
    }
    let mut i: usize = 0;
    while i < len
        invariant
            i <= len,
            len == scores@.len(),
            len <= u32::MAX,
            ar.wf(),
            wd.wf(),
            top == largest_of(ar@, scores@),
            inv_t == inverse_temperature(ar@, temperature),
            left == target_left(ar@, wd@, scores@, inv_t, target, i as int),
            target == (wd@.op)(
                WideOp::Mul,
                (wd@.unit)(number),
                weight_sum(ar@, wd@, scores@, inv_t, len as int),
            ),
            walk(ar@, wd@, scores@, inv_t, target, 0) == walk(
                ar@,
                wd@,
                scores@,
                inv_t,
                target,
                i as int,
            ),
            number == mixed(rng.state) >> 11,
            rng.state == old(rng).state.wrapping_add(GOLDEN),
        decreases len - i,
    {
        let w: u64 = wd.widened(ar.exp(ar.mul(ar.sub(scores[i], top), inv_t)));
        left = wd.apply(WideOp::Sub, left, w);
        if is_not_above_zero(left) {
            return i as u32;
        }
        i = i + 1;
    }
    (len - 1) as u32
}

/// The state that a number comes from: mixing, taken back step by step.
pub open spec fn unmixed(number: u64) -> u64 {
    let d = number ^ (number >> 31) ^ (number >> 62);
    let c = d.wrapping_mul(0x3196_42B2_D24D_8EC3);
    let b = c ^ (c >> 27) ^ (c >> 54);
    let a = b.wrapping_mul(0x96DE_1B17_3F11_9089);
    a ^ (a >> 30) ^ (a >> 60)
}

/// Mixing can be undone: every number tells the state that it comes from.
pub proof fn law_numbers_tell_their_states(state: u64)
    ensures
        unmixed(mixed(state)) == state,
{
    let a = state ^ (state >> 30);
    let b = a.wrapping_mul(0xBF58476D1CE4E5B9);
    let c = b ^ (b >> 27);
    let d = c.wrapping_mul(0x94D049BB133111EB);
    let r = d ^ (d >> 31);
    assert(r == mixed(state));
    assert(r ^ (r >> 31) ^ (r >> 62) == d) by (bit_vector)
        requires
            r == d ^ (d >> 31),
    ;
    lemma_product_undone(c, 0x94D049BB133111EB, 0x319642B2D24D8EC3, 0x1CD336EDA85F1453);
    assert(c ^ (c >> 27) ^ (c >> 54) == b) by (bit_vector)
        requires
            c == b ^ (b >> 27),
    ;
    lemma_product_undone(a, 0xBF58476D1CE4E5B9, 0x96DE1B173F119089, 0x70C3BCA78F27F46C);
    assert(a ^ (a >> 30) ^ (a >> 60) == state) by (bit_vector)
        requires
            a == state ^ (state >> 30),
    ;
}

proof fn lemma_product_undone(x: u64, c: u64, d: u64, q: int)
    requires
        c * d == 1 + q * 0x1_0000_0000_0000_0000,
    ensures
        x.wrapping_mul(c).wrapping_mul(d) == x,
{
    lemma_undo_product(x, c, d as int, q);
    let m = 0x1_0000_0000_0000_0000int;
    let y = x.wrapping_mul(c);
    assert(y.wrapping_mul(d) as int == (y * d) % m);
}

/// The place of the largest score is the first such place: no score is above the one
/// there, and a place with a score that none is above does not stand before it.
pub proof fn law_argmax_is_the_first_of_the_largest(scores: Seq<u32>, r: int, k: int)
    requires
        is_argmax(scores, r),
        0 <= k < scores.len(),
        f32_greater(scores[k], NEG_INFINITY),
    ensures
        0 <= r < scores.len(),
        !f32_greater(scores[k], scores[r]),
        (forall|j: int| 0 <= j < scores.len() ==> !f32_greater(#[trigger] scores[j], scores[k]))
            ==> r <= k,
{
}

} // verus!
