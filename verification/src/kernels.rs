//! Kernels of the model: norms, the lane normalisation, the Hadamard block, and
//! the hash that finds n-gram memory entries.

use crate::arith::{Arith, Binary, Num, Unary, ONE};
use crate::bits::{f32_finite, NEG_INFINITY, SIGN_BIT};
use crate::cq::copy_words;
use crate::dot::sum;
use crate::hadamard::{fwht_normalized, transform_scaled};
use crate::pow2::is_pow2;
use vstd::arithmetic::div_mod::*;
use vstd::prelude::*;

verus! {

/// Seed of the hash.
pub const ENGRAM_SEED: u32 = 0x9E37_79B9;

/// Multiplier of the hash.
pub const ENGRAM_PRIME: u32 = 0x0100_0193;

/// The state of the hash after the tokens, most recent first.
pub open spec fn engram_state(table: u32, tokens: Seq<u32>) -> u32
    decreases tokens.len(),
{
    if tokens.len() == 0 {
        ENGRAM_SEED.wrapping_mul((table + 1) as u32)
    } else {
        (engram_state(table, tokens.drop_last()) ^ tokens.last()).wrapping_mul(ENGRAM_PRIME)
    }
}

/// The row of a table with `slots` rows that the tokens select.
pub open spec fn engram_hash(table: u32, slots: u32, tokens: Seq<u32>) -> u32 {
    let acc = engram_state(table, tokens);
    (acc ^ (acc >> 15)) % slots
}

/// The row of a table for one position.
///
/// `token_at(k)` gives the token `k` steps back from the position, and 0 where
/// that is before the first token. `order` tokens are asked for. Table number
/// and row count are cut to 32 bits.
pub fn engram_index<F: Fn(usize) -> u32>(
    table: usize,
    order: usize,
    slots: usize,
    token_at: F,
) -> (r: usize)
    requires
        (table as u32) < u32::MAX,
        (slots as u32) > 0,
        forall|k: usize| k < order ==> call_requires(token_at, (k,)),
    ensures
        r < (slots as u32),
        exists|tokens: Seq<u32>|
            #![trigger engram_hash(table as u32, slots as u32, tokens)]
            tokens.len() == order && (forall|k: int|
                0 <= k < order ==> call_ensures(token_at, (k as usize,), #[trigger] tokens[k]))
                && r == engram_hash(table as u32, slots as u32, tokens),
{
    let seed: u32 = ENGRAM_SEED.wrapping_mul(table as u32 + 1);
    let mut acc: u32 = seed;
    let mut j: usize = 0;
    let ghost mut tokens: Seq<u32> = Seq::empty();
    while j < order
        invariant
            j <= order,
            (table as u32) < u32::MAX,
            forall|k: usize| k < order ==> call_requires(token_at, (k,)),
            tokens.len() == j,
            forall|k: int|
                0 <= k < j ==> call_ensures(token_at, (k as usize,), #[trigger] tokens[k]),
            acc == engram_state(table as u32, tokens),
        decreases order - j,
    {
        let t: u32 = token_at(j);
        proof {
            let next = tokens.push(t);
            assert(next.drop_last() =~= tokens);
            tokens = next;
        }
        acc = (acc ^ t).wrapping_mul(ENGRAM_PRIME);
        j = j + 1;
    }
    let mixed: u32 = acc ^ (acc >> 15);
    assert(mixed % (slots as u32) == engram_hash(table as u32, slots as u32, tokens));
    (mixed % (slots as u32)) as usize
}

/// The order group of a table: tables are numbered order by order.
pub fn engram_table_order(table: usize, heads: usize) -> (r: usize)
    requires
        heads > 0,
    ensures
        r == table as int / heads as int,
{
    table / heads
}

/// Bits of the float 1e-6, which keeps norms finite.
pub const EPS: u32 = 0x3586_37BD;

/// Rounds of the lane normalisation.
pub const SINKHORN_ITERS: usize = 20;

/// The squares of the numbers.
pub open spec fn squares(n: Num<u32>, x: Seq<u32>) -> Seq<u32> {
    x.map_values(|v: u32| n.times(v, v))
}

/// One over the root of the mean square.
pub open spec fn rms_scale(n: Num<u32>, x: Seq<u32>) -> u32 {
    let mean = n.over(sum(n, squares(n, x)), n.number(x.len() as int));
    n.over(n.one, n.root(n.plus(mean, EPS)))
}

/// A vector scaled to unit mean square.
pub open spec fn unit_rms(n: Num<u32>, x: Seq<u32>) -> Seq<u32> {
    x.map_values(|v: u32| n.times(v, rms_scale(n, x)))
}

/// One over the root of the mean square.
pub fn rms_inv<
    U: Fn(Unary, u32) -> u32 + Sync,
    B: Fn(Binary, u32, u32) -> u32 + Sync,
    C: Fn(usize) -> u32 + Sync,
>(ar: &Arith<U, B, C>, x: &[u32]) -> (r: u32)
    requires
        ar.wf(),
    ensures
        r == rms_scale(ar@, x@),
{
    let n: usize = x.len();
    let mut s: u32 = 0;
    let mut i: usize = 0;
    assert(squares(ar@, x@).take(0) =~= Seq::<u32>::empty());
    while i < n
        invariant
            i <= n,
            ar.wf(),
            n == x@.len(),
            s == sum(ar@, squares(ar@, x@).take(i as int)),
        decreases n - i,
    {
        proof {
            let t = squares(ar@, x@).take(i + 1);
            assert(t.drop_last() =~= squares(ar@, x@).take(i as int));
            assert(t.last() == ar@.times(x@[i as int], x@[i as int]));
        }
        s = ar.add(s, ar.mul(x[i], x[i]));
        i = i + 1;
    }
    assert(squares(ar@, x@).take(n as int) =~= squares(ar@, x@));
    let mean: u32 = ar.div(s, ar.number(n));
    ar.div(ONE, ar.sqrt(ar.add(mean, EPS)))
}

/// A vector scaled to unit mean square.
pub fn rms_unit_to<
    U: Fn(Unary, u32) -> u32 + Sync,
    B: Fn(Binary, u32, u32) -> u32 + Sync,
    C: Fn(usize) -> u32 + Sync,
>(ar: &Arith<U, B, C>, x: &[u32]) -> (out: Vec<u32>)
    requires
        ar.wf(),
    ensures
        out@ == unit_rms(ar@, x@),
{
    let inv: u32 = rms_inv(ar, x);
    let n: usize = x.len();
    let mut out: Vec<u32> = Vec::new();
    let mut i: usize = 0;
    while i < n
        invariant
            i <= n,
            ar.wf(),
            n == x@.len(),
            out@.len() == i,
            forall|j: int| 0 <= j < i ==> #[trigger] out@[j] == ar@.times(x@[j], inv),
        decreases n - i,
    {
        out.push(ar.mul(x[i], inv));
        i = i + 1;
    }
    assert(out@ =~= unit_rms(ar@, x@));
    out
}

/// Scale a vector to unit mean square.
pub fn rms_unit<
    U: Fn(Unary, u32) -> u32 + Sync,
    B: Fn(Binary, u32, u32) -> u32 + Sync,
    C: Fn(usize) -> u32 + Sync,
>(ar: &Arith<U, B, C>, x: &mut Vec<u32>)
    requires
        ar.wf(),
    ensures
        final(x)@ == unit_rms(ar@, old(x)@),
{
    let out = rms_unit_to(ar, x.as_slice());
    *x = out;
}

/// The largest of the numbers, starting from negative infinity.
pub open spec fn largest_of(n: Num<u32>, s: Seq<u32>) -> u32
    decreases s.len(),
{
    if s.len() == 0 {
        NEG_INFINITY
    } else {
        n.larger(largest_of(n, s.drop_last()), s.last())
    }
}

/// The exponentials of the differences to `m`.
pub open spec fn exponentials(n: Num<u32>, s: Seq<u32>, m: u32) -> Seq<u32> {
    s.map_values(|v: u32| n.exponential(n.minus(v, m)))
}

/// The logarithm of the sum of the exponentials, computed from the largest.
pub open spec fn log_sum(n: Num<u32>, s: Seq<u32>) -> u32 {
    let m = largest_of(n, s);
    n.plus(m, n.logarithm(sum(n, exponentials(n, s, m))))
}

/// The same, with the largest as it is where it is not finite.
pub open spec fn log_sum_guarded(n: Num<u32>, s: Seq<u32>) -> u32 {
    let m = largest_of(n, s);
    if f32_finite(m) {
        log_sum(n, s)
    } else {
        m
    }
}

fn is_finite(v: u32) -> (r: bool)
    ensures
        r == f32_finite(v),
{
    let magnitude: u32 = if v >= SIGN_BIT {
        v - SIGN_BIT
    } else {
        v
    };
    magnitude < 0x7F80_0000
}

/// The largest of the numbers, starting from negative infinity.
pub fn max_of<
    U: Fn(Unary, u32) -> u32 + Sync,
    B: Fn(Binary, u32, u32) -> u32 + Sync,
    C: Fn(usize) -> u32 + Sync,
>(ar: &Arith<U, B, C>, s: &[u32]) -> (m: u32)
    requires
        ar.wf(),
    ensures
        m == largest_of(ar@, s@),
{
    let n: usize = s.len();
    let mut m: u32 = NEG_INFINITY;
    let mut i: usize = 0;
    assert(s@.take(0) =~= Seq::<u32>::empty());
    while i < n
        invariant
            i <= n,
            ar.wf(),
            n == s@.len(),
            m == largest_of(ar@, s@.take(i as int)),
        decreases n - i,
    {
        proof {
            assert(s@.take(i + 1).drop_last() =~= s@.take(i as int));
            assert(s@.take(i + 1).last() == s@[i as int]);
        }
        m = ar.max(m, s[i]);
        i = i + 1;
    }
    assert(s@.take(n as int) =~= s@);
    m
}

fn log_sum_of<
    U: Fn(Unary, u32) -> u32 + Sync,
    B: Fn(Binary, u32, u32) -> u32 + Sync,
    C: Fn(usize) -> u32 + Sync,
>(ar: &Arith<U, B, C>, s: &[u32]) -> (r: u32)
    requires
        ar.wf(),
    ensures
        r == log_sum(ar@, s@),
{
    let n: usize = s.len();
    let m: u32 = max_of(ar, s);
    let ghost e = exponentials(ar@, s@, m);
    let mut total: u32 = 0;
    let mut i: usize = 0;
    assert(e.take(0) =~= Seq::<u32>::empty());
    while i < n
        invariant
            i <= n,
            ar.wf(),
            n == s@.len(),
            e == exponentials(ar@, s@, m),
            total == sum(ar@, e.take(i as int)),
        decreases n - i,
    {
        proof {
            assert(e.take(i + 1).drop_last() =~= e.take(i as int));
            assert(e.take(i + 1).last() == e[i as int]);
        }
        total = ar.add(total, ar.exp(ar.sub(s[i], m)));
        i = i + 1;
    }
    assert(e.take(n as int) =~= e);
    ar.add(m, ar.ln(total))
}

/// The logarithm of the sum of the exponentials.
pub fn logsumexp<
    U: Fn(Unary, u32) -> u32 + Sync,
    B: Fn(Binary, u32, u32) -> u32 + Sync,
    C: Fn(usize) -> u32 + Sync,
>(ar: &Arith<U, B, C>, s: &[u32]) -> (r: u32)
    requires
        ar.wf(),
    ensures
        r == log_sum_guarded(ar@, s@),
{
    let m: u32 = max_of(ar, s);
    if !is_finite(m) {
        return m;
    }
    log_sum_of(ar, s)
}

/// Row `i` of a matrix of width `d`.
pub open spec fn matrix_row(m: Seq<u32>, i: int, d: int) -> Seq<u32> {
    Seq::new(d as nat, |j: int| m[i * d + j])
}

/// Column `j` of a square matrix of width `d`.
pub open spec fn matrix_column(m: Seq<u32>, j: int, d: int) -> Seq<u32> {
    Seq::new(d as nat, |i: int| m[i * d + j])
}

/// Every row with its logarithmic sum taken off.
pub open spec fn rows_normalised(n: Num<u32>, m: Seq<u32>, d: int) -> Seq<u32> {
    Seq::new(m.len(), |k: int| n.minus(m[k], log_sum_guarded(n, matrix_row(m, k / d, d))))
}

/// Every column with its logarithmic sum taken off.
pub open spec fn columns_normalised(n: Num<u32>, m: Seq<u32>, d: int) -> Seq<u32> {
    Seq::new(m.len(), |k: int| n.minus(m[k], log_sum(n, matrix_column(m, k % d, d))))
}

/// The matrix after `k` rounds of rows, then columns.
pub open spec fn normalised(n: Num<u32>, m: Seq<u32>, d: int, k: int) -> Seq<u32>
    decreases k,
{
    if k <= 0 {
        m
    } else {
        columns_normalised(n, rows_normalised(n, normalised(n, m, d, k - 1), d), d)
    }
}

/// The lane normalisation: a fixed number of rounds, then exponentials.
pub open spec fn balanced(n: Num<u32>, m: Seq<u32>, d: int) -> Seq<u32> {
    normalised(n, m, d, SINKHORN_ITERS as int).map_values(|v: u32| n.exponential(v))
}

proof fn lemma_matrix_cell(i: int, j: int, d: int)
    requires
        0 <= i < d,
        0 <= j < d,
    ensures
        0 <= i * d,
        i * d + j < d * d,
        i * d + d <= d * d,
        (i * d + j) / d == i,
        (i * d + j) % d == j,
{
    assert(0 <= i * d && i * d + d <= d * d) by (nonlinear_arith)
        requires
            0 <= i,
            i + 1 <= d,
    ;
    assert(i * d + j == d * i + j) by (nonlinear_arith);
    lemma_fundamental_div_mod_converse(i * d + j, d, i, j);
}

proof fn lemma_matrix_index(k: int, d: int)
    requires
        0 < d,
        0 <= k < d * d,
    ensures
        0 <= k / d < d,
        0 <= k % d < d,
        k == (k / d) * d + k % d,
{
    lemma_fundamental_div_mod(k, d);
    lemma_mod_bound(k, d);
    lemma_div_pos_is_pos(k, d);
    let q = k / d;
    assert(d * q == q * d) by (nonlinear_arith);
    assert(q < d) by (nonlinear_arith)
        requires
            d * q <= k,
            k < d * d,
            d > 0,
    ;
}

fn row_of<T: Copy>(m: &Vec<T>, i: usize, d: usize) -> (r: Vec<T>)
    requires
        i < d,
        m@.len() == d * d,
    ensures
        r@ == Seq::new(d as nat, |j: int| m@[i * d + j]),
{
    let total: usize = m.len();
    let mut r: Vec<T> = Vec::new();
    let mut j: usize = 0;
    while j < d
        invariant
            j <= d,
            i < d,
            m@.len() == d * d,
            total == m@.len(),
            r@ == Seq::new(j as nat, |k: int| m@[i * d + k]),
        decreases d - j,
    {
        proof {
            lemma_matrix_cell(i as int, j as int, d as int);
        }
        r.push(m[i * d + j]);
        j = j + 1;
        assert(r@ =~= Seq::new(j as nat, |k: int| m@[i * d + k]));
    }
    r
}

fn column_of<T: Copy>(m: &Vec<T>, j: usize, d: usize) -> (r: Vec<T>)
    requires
        j < d,
        m@.len() == d * d,
    ensures
        r@ == Seq::new(d as nat, |i: int| m@[i * d + j]),
{
    let total: usize = m.len();
    let mut r: Vec<T> = Vec::new();
    let mut i: usize = 0;
    while i < d
        invariant
            i <= d,
            j < d,
            m@.len() == d * d,
            total == m@.len(),
            r@ == Seq::new(i as nat, |k: int| m@[k * d + j]),
        decreases d - i,
    {
        proof {
            lemma_matrix_cell(i as int, j as int, d as int);
        }
        r.push(m[i * d + j]);
        i = i + 1;
        assert(r@ =~= Seq::new(i as nat, |k: int| m@[k * d + j]));
    }
    r
}

/// The logarithmic sums of all rows, or of all columns.
fn line_sums<
    U: Fn(Unary, u32) -> u32 + Sync,
    B: Fn(Binary, u32, u32) -> u32 + Sync,
    C: Fn(usize) -> u32 + Sync,
>(ar: &Arith<U, B, C>, m: &Vec<u32>, d: usize, columns: bool) -> (v: Vec<u32>)
    requires
        ar.wf(),
        m@.len() == d * d,
    ensures
        v@.len() == d,
        forall|i: int|
            0 <= i < d ==> #[trigger] v@[i] == if columns {
                log_sum(ar@, matrix_column(m@, i, d as int))
            } else {
                log_sum_guarded(ar@, matrix_row(m@, i, d as int))
            },
{
    let mut v: Vec<u32> = Vec::new();
    let mut i: usize = 0;
    while i < d
        invariant
            i <= d,
            ar.wf(),
            m@.len() == d * d,
            v@.len() == i,
            forall|j: int|
                0 <= j < i ==> #[trigger] v@[j] == if columns {
                    log_sum(ar@, matrix_column(m@, j, d as int))
                } else {
                    log_sum_guarded(ar@, matrix_row(m@, j, d as int))
                },
        decreases d - i,
    {
        if columns {
            let c = column_of(m, i, d);
            v.push(log_sum_of(ar, c.as_slice()));
        } else {
            let r = row_of(m, i, d);
            v.push(logsumexp(ar, r.as_slice()));
        }
        i = i + 1;
    }
    v
}

/// Take the logarithmic sum of its line off every entry.
fn take_off<
    U: Fn(Unary, u32) -> u32 + Sync,
    B: Fn(Binary, u32, u32) -> u32 + Sync,
    C: Fn(usize) -> u32 + Sync,
>(ar: &Arith<U, B, C>, m: &Vec<u32>, d: usize, columns: bool) -> (out: Vec<u32>)
    requires
        ar.wf(),
        m@.len() == d * d,
    ensures
        out@ == if columns {
            columns_normalised(ar@, m@, d as int)
        } else {
            rows_normalised(ar@, m@, d as int)
        },
{
    let total: usize = m.len();
    let sums = line_sums(ar, m, d, columns);
    let ghost want = if columns {
        columns_normalised(ar@, m@, d as int)
    } else {
        rows_normalised(ar@, m@, d as int)
    };
    let mut out: Vec<u32> = Vec::new();
    let mut k: usize = 0;
    while k < total
        invariant
            k <= total,
            ar.wf(),
            total == m@.len(),
            m@.len() == d * d,
            sums@.len() == d,
            forall|i: int|
                0 <= i < d ==> #[trigger] sums@[i] == if columns {
                    log_sum(ar@, matrix_column(m@, i, d as int))
                } else {
                    log_sum_guarded(ar@, matrix_row(m@, i, d as int))
                },
            want == if columns {
                columns_normalised(ar@, m@, d as int)
            } else {
                rows_normalised(ar@, m@, d as int)
            },
            out@.len() == k,
            forall|j: int| 0 <= j < k ==> #[trigger] out@[j] == want[j],
        decreases total - k,
    {
        proof {
            if d == 0 {
                assert(0 * 0 == 0int);
            }
            lemma_matrix_index(k as int, d as int);
        }
        let line: usize = if columns {
            k % d
        } else {
            k / d
        };
        out.push(ar.sub(m[k], sums[line]));
        k = k + 1;
    }
    assert(out@ =~= want);
    out
}

/// Normalise a square matrix of logarithms towards equal sums of rows and of
/// columns.
pub fn sinkhorn<
    U: Fn(Unary, u32) -> u32 + Sync,
    B: Fn(Binary, u32, u32) -> u32 + Sync,
    C: Fn(usize) -> u32 + Sync,
>(ar: &Arith<U, B, C>, m: &mut Vec<u32>, d: usize)
    requires
        ar.wf(),
        old(m)@.len() == d * d,
    ensures
        final(m)@ == balanced(ar@, old(m)@, d as int),
{
    let ghost before = m@;
    let total: usize = m.len();
    let mut cur: Vec<u32> = copy_words(m.as_slice());
    let mut k: usize = 0;
    while k < SINKHORN_ITERS
        invariant
            k <= SINKHORN_ITERS,
            ar.wf(),
            cur@.len() == d * d,
            cur@ == normalised(ar@, before, d as int, k as int),
        decreases SINKHORN_ITERS - k,
    {
        let rows = take_off(ar, &cur, d, false);
        cur = take_off(ar, &rows, d, true);
        k = k + 1;
    }
    let mut out: Vec<u32> = Vec::new();
    let mut i: usize = 0;
    while i < total
        invariant
            i <= total,
            ar.wf(),
            total == cur@.len(),
            out@.len() == i,
            forall|j: int| 0 <= j < i ==> #[trigger] out@[j] == ar@.exponential(cur@[j]),
        decreases total - i,
    {
        out.push(ar.exp(cur[i]));
        i = i + 1;
    }
    assert(out@ =~= balanced(ar@, before, d as int));
    *m = out;
}

/// `v` times its sigmoid.
pub open spec fn silu_of(n: Num<u32>, v: u32) -> u32 {
    n.times(v, n.sigmoid(v))
}

/// `v` times its sigmoid.
pub fn silu<
    U: Fn(Unary, u32) -> u32 + Sync,
    B: Fn(Binary, u32, u32) -> u32 + Sync,
    C: Fn(usize) -> u32 + Sync,
>(ar: &Arith<U, B, C>, v: u32) -> (r: u32)
    requires
        ar.wf(),
    ensures
        r == silu_of(ar@, v),
{
    ar.mul(v, ar.sigmoid(v))
}

/// The Hadamard block: a diagonal and a rotation, a diagonal with `silu` and a
/// rotation, and a last diagonal on the first `d` entries.
pub open spec fn hadamard_block(
    n: Num<u32>,
    x: Seq<u32>,
    d1: Seq<u32>,
    d2: Seq<u32>,
    d3: Seq<u32>,
) -> Seq<u32> {
    let a = Seq::new(
        d1.len(),
        |i: int|
            if i < x.len() {
                n.times(x[i], d1[i])
            } else {
                n.zero
            },
    );
    let b = transform_scaled(n, a);
    let c = Seq::new(d1.len(), |i: int| silu_of(n, n.times(b[i], d2[i])));
    let e = transform_scaled(n, c);
    Seq::new(x.len(), |i: int| n.times(e[i], d3[i]))
}

/// The Hadamard block. The diagonals have the transform width.
pub fn hadamard_mlp<
    U: Fn(Unary, u32) -> u32 + Sync,
    B: Fn(Binary, u32, u32) -> u32 + Sync,
    C: Fn(usize) -> u32 + Sync,
>(ar: &Arith<U, B, C>, x: &[u32], d1: &[u32], d2: &[u32], d3: &[u32]) -> (out: Vec<u32>)
    requires
        ar.wf(),
        is_pow2(d1@.len() as int),
        d2@.len() == d1@.len(),
        d3@.len() == d1@.len(),
        x@.len() <= d1@.len(),
    ensures
        out@ == hadamard_block(ar@, x@, d1@, d2@, d3@),
{
    let n: usize = d1.len();
    let d: usize = x.len();
    let mut z: Vec<u32> = Vec::new();
    let mut i: usize = 0;
    while i < n
        invariant
            i <= n,
            ar.wf(),
            n == d1@.len(),
            d == x@.len(),
            z@.len() == i,
            forall|j: int|
                0 <= j < i ==> #[trigger] z@[j] == if j < d {
                    ar@.times(x@[j], d1@[j])
                } else {
                    0
                },
        decreases n - i,
    {
        if i < d {
            z.push(ar.mul(x[i], d1[i]));
        } else {
            z.push(0);
        }
        i = i + 1;
    }
    let ghost a = Seq::new(
        d1@.len(),
        |i: int|
            if i < x@.len() {
                ar@.times(x@[i], d1@[i])
            } else {
                ar@.zero
            },
    );
    assert(z@ =~= a);
    fwht_normalized(ar, &mut z);
    let ghost b = z@;
    let mut c: Vec<u32> = Vec::new();
    let mut i: usize = 0;
    while i < n
        invariant
            i <= n,
            ar.wf(),
            n == z@.len(),
            n == d2@.len(),
            z@ == b,
            c@.len() == i,
            forall|j: int|
                0 <= j < i ==> #[trigger] c@[j] == silu_of(ar@, ar@.times(b[j], d2@[j])),
        decreases n - i,
    {
        c.push(silu(ar, ar.mul(z[i], d2[i])));
        i = i + 1;
    }
    assert(c@ =~= Seq::new(d1@.len(), |i: int| silu_of(ar@, ar@.times(b[i], d2@[i]))));
    fwht_normalized(ar, &mut c);
    let ghost e = c@;
    let mut out: Vec<u32> = Vec::new();
    let mut i: usize = 0;
    while i < d
        invariant
            i <= d,
            d <= n,
            ar.wf(),
            n == c@.len(),
            n == d3@.len(),
            c@ == e,
            out@.len() == i,
            forall|j: int| 0 <= j < i ==> #[trigger] out@[j] == ar@.times(e[j], d3@[j]),
        decreases d - i,
    {
        out.push(ar.mul(c[i], d3[i]));
        i = i + 1;
    }
    assert(out@ =~= hadamard_block(ar@, x@, d1@, d2@, d3@));
    out
}

} // verus!
