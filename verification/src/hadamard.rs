//! The Walsh–Hadamard transform.
//!
//! The transform of a vector is its product with the matrix that starts as `[1]`
//! and doubles as `[[H, H], [H, -H]]`. It is computed by butterflies: additions
//! and subtractions of pairs at growing distance.

use crate::arith::{Arith, Binary, Num, Unary};
use crate::pow2::{is_pow2, next_pow2};
use vstd::arithmetic::div_mod::*;
use vstd::arithmetic::power2::*;
use vstd::prelude::*;

verus! {

/// The transform width for a model width: the smallest power of two that is at
/// least `d_model`. A power of two maps to itself.
pub fn hada_n(d_model: usize) -> (n: usize)
    requires
        d_model > 0,
        exists|q: int| is_pow2(q) && d_model <= q <= usize::MAX,
    ensures
        n >= d_model,
        is_pow2(n as int),
        forall|q: int| is_pow2(q) && q >= d_model ==> n <= q,
{
    match next_pow2(d_model) {
        Some(n) => n,
        None => 0,
    }
}

/// One round of butterflies: pairs at distance `h`, in blocks of `2 * h`.
pub open spec fn round<T>(n: Num<T>, x: Seq<T>, h: int) -> Seq<T> {
    Seq::new(
        x.len(),
        |i: int|
            if (i / h) % 2 == 0 {
                n.plus(x[i], x[i + h])
            } else {
                n.minus(x[i - h], x[i])
            },
    )
}

/// The rounds from distance `h` on, doubling up to the length.
pub open spec fn rounds<T>(n: Num<T>, x: Seq<T>, h: int) -> Seq<T>
    decreases
            if h < x.len() {
                x.len() - h
            } else {
                0
            },
{
    if h <= 0 || h >= x.len() {
        x
    } else {
        rounds(n, round(n, x, h), 2 * h)
    }
}

/// The transform.
pub open spec fn transform<T>(n: Num<T>, x: Seq<T>) -> Seq<T> {
    rounds(n, x, 1)
}

/// The transform, scaled by one over the root of the length.
pub open spec fn transform_scaled<T>(n: Num<T>, x: Seq<T>) -> Seq<T> {
    let inv = n.over(n.one, n.root(n.number(x.len() as int)));
    transform(n, x).map_values(|v: T| n.times(v, inv))
}

/// Pairs of a round lie within the vector.
proof fn lemma_pair(i: int, h: int, q: int)
    requires
        0 < h,
        0 <= i < 2 * h * q,
    ensures
        (i / h) % 2 == 0 ==> i + h < 2 * h * q,
        (i / h) % 2 != 0 ==> 0 <= i - h,
{
    let d = i / h;
    let r = i % h;
    lemma_fundamental_div_mod(i, h);
    lemma_mod_bound(i, h);
    assert(2 * h * q == h * (2 * q)) by (nonlinear_arith);
    assert(d < 2 * q) by (nonlinear_arith)
        requires
            h * d + r < h * (2 * q),
            r >= 0,
            h > 0,
    ;
    lemma_div_pos_is_pos(i, h);
    if d % 2 == 0 {
        assert(d + 2 <= 2 * q);
        assert(h * d + h + h <= h * (2 * q)) by (nonlinear_arith)
            requires
                d + 2 <= 2 * q,
                h > 0,
        ;
    } else {
        assert(d >= 1);
        assert(h * d >= h) by (nonlinear_arith)
            requires
                d >= 1,
                h > 0,
        ;
    }
}

fn round_of<
    U: Fn(Unary, u32) -> u32 + Sync,
    B: Fn(Binary, u32, u32) -> u32 + Sync,
    C: Fn(usize) -> u32 + Sync,
>(ar: &Arith<U, B, C>, x: &Vec<u32>, h: usize, Ghost(q): Ghost<int>) -> (y: Vec<u32>)
    requires
        ar.wf(),
        h > 0,
        x@.len() == 2 * h * q,
    ensures
        y@ == round(ar@, x@, h as int),
{
    let n: usize = x.len();
    let mut y: Vec<u32> = Vec::new();
    let mut i: usize = 0;
    while i < n
        invariant
            i <= n,
            ar.wf(),
            h > 0,
            n == x@.len(),
            x@.len() == 2 * h * q,
            y@.len() == i,
            forall|j: int| 0 <= j < i ==> #[trigger] y@[j] == round(ar@, x@, h as int)[j],
        decreases n - i,
    {
        proof {
            lemma_pair(i as int, h as int, q);
        }
        if (i / h) % 2 == 0 {
            y.push(ar.add(x[i], x[i + h]));
        } else {
            y.push(ar.sub(x[i - h], x[i]));
        }
        i = i + 1;
    }
    assert(y@ =~= round(ar@, x@, h as int));
    y
}

/// Transform a vector whose length is a power of two.
pub fn fwht<
    U: Fn(Unary, u32) -> u32 + Sync,
    B: Fn(Binary, u32, u32) -> u32 + Sync,
    C: Fn(usize) -> u32 + Sync,
>(ar: &Arith<U, B, C>, x: &mut Vec<u32>)
    requires
        ar.wf(),
        is_pow2(old(x)@.len() as int),
    ensures
        final(x)@ == transform(ar@, old(x)@),
        final(x)@.len() == old(x)@.len(),
{
    let n: usize = x.len();
    let ghost before = x@;
    let ghost k = choose|k: nat| #[trigger] pow2(k) == n;
    let mut h: usize = 1;
    let ghost mut e: nat = 0;
    proof {
        lemma2_to64();
        lemma_pow2_pos(k);
    }
    while h < n
        invariant
            ar.wf(),
            n == x@.len(),
            n == before.len(),
            n == pow2(k),
            h == pow2(e),
            h <= n,
            e <= k,
            transform(ar@, before) == rounds(ar@, x@, h as int),
        decreases n - h,
    {
        proof {
            lemma_pow2_pos(e);
            if e == k {
                assert(false);
            }
            lemma_pow2_adds((e + 1) as nat, (k - e - 1) as nat);
            lemma_pow2_unfold((e + 1) as nat);
            lemma_pow2_pos((k - e - 1) as nat);
            assert(2 * pow2(e) * pow2((k - e - 1) as nat) >= 2 * pow2(e)) by (nonlinear_arith)
                requires
                    pow2((k - e - 1) as nat) >= 1,
                    pow2(e) >= 0,
            ;
        }
        let y = round_of(ar, x, h, Ghost(pow2((k - e - 1) as nat) as int));
        *x = y;
        h = h * 2;
        proof {
            e = e + 1;
        }
    }
}

/// Transform a vector whose length is a power of two, scaled by one over the
/// root of the length.
pub fn fwht_normalized<
    U: Fn(Unary, u32) -> u32 + Sync,
    B: Fn(Binary, u32, u32) -> u32 + Sync,
    C: Fn(usize) -> u32 + Sync,
>(ar: &Arith<U, B, C>, x: &mut Vec<u32>)
    requires
        ar.wf(),
        is_pow2(old(x)@.len() as int),
    ensures
        final(x)@ == transform_scaled(ar@, old(x)@),
        final(x)@.len() == old(x)@.len(),
{
    let n: usize = x.len();
    let ghost before = x@;
    fwht(ar, x);
    let ghost plain = x@;
    let inv: u32 = ar.div(crate::arith::ONE, ar.sqrt(ar.number(n)));
    let mut i: usize = 0;
    while i < n
        invariant
            i <= n,
            ar.wf(),
            n == x@.len(),
            n == plain.len(),
            forall|j: int| 0 <= j < i ==> #[trigger] x@[j] == ar@.times(plain[j], inv),
            forall|j: int| i <= j < n ==> #[trigger] x@[j] == plain[j],
        decreases n - i,
    {
        let v: u32 = ar.mul(x[i], inv);
        x.set(i, v);
        i = i + 1;
    }
    assert(x@ =~= transform_scaled(ar@, before));
}

/// The rounds below the half act on each half alone.
proof fn lemma_halves<T>(n: Num<T>, x: Seq<T>, h: int, a: nat, b: nat)
    requires
        a <= b,
        h == pow2(a),
        x.len() == 2 * pow2(b),
    ensures
        ({
            let m = pow2(b) as int;
            let lo = rounds(n, x.take(m), h);
            let hi = rounds(n, x.skip(m), h);
            lo.len() == m && hi.len() == m && rounds(n, x, h) == round(n, lo + hi, m)
        }),
    decreases b - a,
{
    let m = pow2(b) as int;
    lemma_pow2_pos(a);
    lemma_pow2_pos(b);
    if a == b {
        assert(x.take(m) + x.skip(m) =~= x);
        assert(rounds(n, round(n, x, m), 2 * m) == round(n, x, m));
    } else {
        lemma_pow2_adds((a + 1) as nat, (b - a - 1) as nat);
        lemma_pow2_unfold((a + 1) as nat);
        let q = pow2((b - a - 1) as nat) as int;
        lemma_pow2_pos((b - a - 1) as nat);
        assert(m == 2 * h * q);
        assert(h < m) by (nonlinear_arith)
            requires
                m == 2 * h * q,
                q >= 1,
                h >= 1,
        ;
        let y = round(n, x, h);
        let lo = x.take(m);
        let hi = x.skip(m);
        assert forall|i: int| 0 <= i < m implies y.take(m)[i] == round(n, lo, h)[i] by {
            lemma_pair(i, h, q);
        }
        assert(y.take(m) =~= round(n, lo, h));
        assert forall|i: int| 0 <= i < m implies y.skip(m)[i] == round(n, hi, h)[i] by {
            lemma_pair(i, h, q);
            assert(i + m == i + h * (2 * q)) by (nonlinear_arith)
                requires
                    m == 2 * h * q,
            ;
            lemma_shift(i, h, 2 * q);
            assert((i / h + 2 * q) % 2 == (i / h) % 2);
        }
        assert(y.skip(m) =~= round(n, hi, h));
        lemma_halves(n, y, 2 * h, (a + 1) as nat, b);
    }
}

proof fn lemma_shift(i: int, h: int, d: int)
    requires
        0 < h,
        0 <= i,
    ensures
        (i + h * d) / h == i / h + d,
{
    lemma_fundamental_div_mod(i, h);
    lemma_mod_bound(i, h);
    assert(i + h * d == h * (i / h + d) + i % h) by (nonlinear_arith)
        requires
            i == h * (i / h) + i % h,
    ;
    lemma_fundamental_div_mod_converse(i + h * d, h, i / h + d, i % h);
}

/// The transform of a vector from those of its halves.
pub proof fn lemma_recursion<T>(n: Num<T>, x: Seq<T>, b: nat)
    requires
        x.len() == 2 * pow2(b),
    ensures
        ({
            let m = pow2(b) as int;
            let lo = transform(n, x.take(m));
            let hi = transform(n, x.skip(m));
            &&& lo.len() == m
            &&& hi.len() == m
            &&& transform(n, x) == Seq::new(
                (2 * m) as nat,
                |i: int|
                    if i < m {
                        n.plus(lo[i], hi[i])
                    } else {
                        n.minus(lo[i - m], hi[i - m])
                    },
            )
        }),
{
    let m = pow2(b) as int;
    lemma2_to64();
    lemma_pow2_pos(b);
    lemma_halves(n, x, 1, 0, b);
    let lo = transform(n, x.take(m));
    let hi = transform(n, x.skip(m));
    let whole = Seq::new(
        (2 * m) as nat,
        |i: int|
            if i < m {
                n.plus(lo[i], hi[i])
            } else {
                n.minus(lo[i - m], hi[i - m])
            },
    );
    assert forall|i: int| 0 <= i < 2 * m implies round(n, lo + hi, m)[i] == whole[i] by {
        if i < m {
            lemma_fundamental_div_mod_converse(i, m, 0, i);
        } else {
            lemma_fundamental_div_mod_converse(i, m, 1, i - m);
        }
    }
    assert(round(n, lo + hi, m) =~= whole);
}

/// Whole numbers as an arithmetic.
pub open spec fn integers() -> Num<int> {
    Num {
        zero: 0,
        one: 1,
        unary: |o: Unary, a: int| 0,
        binary: |o: Binary, a: int, b: int|
            match o {
                Binary::Add => a + b,
                Binary::Sub => a - b,
                Binary::Mul => a * b,
                _ => 0,
            },
        count: |n: usize| n as int,
    }
}

/// The sign at row `i` and column `j` of the matrix of order two to the `b`:
/// every doubling repeats the matrix four times, with its sign turned in the
/// last quarter.
pub open spec fn walsh(b: nat, i: int, j: int) -> int
    decreases b,
{
    if b == 0 {
        1
    } else {
        let m = pow2((b - 1) as nat) as int;
        let ii = if i < m {
            i
        } else {
            i - m
        };
        let jj = if j < m {
            j
        } else {
            j - m
        };
        if i >= m && j >= m {
            -walsh((b - 1) as nat, ii, jj)
        } else {
            walsh((b - 1) as nat, ii, jj)
        }
    }
}

/// Row `i` of the matrix times a vector, over the columns from `j` up to `k`.
pub open spec fn walsh_dot(b: nat, i: int, x: Seq<int>, j: int, k: int) -> int
    decreases k - j,
{
    if k <= j {
        0
    } else {
        walsh_dot(b, i, x, j, k - 1) + walsh(b, i, k - 1) * x[k - 1]
    }
}

proof fn lemma_dot_split(b: nat, i: int, x: Seq<int>, j: int, m: int, k: int)
    requires
        j <= m <= k,
    ensures
        walsh_dot(b, i, x, j, k) == walsh_dot(b, i, x, j, m) + walsh_dot(b, i, x, m, k),
    decreases k - m,
{
    if m < k {
        lemma_dot_split(b, i, x, j, m, k - 1);
    }
}

/// A half row of the doubled matrix is a row of the matrix, with its sign.
proof fn lemma_dot_half(b: nat, i: int, x: Seq<int>, part: Seq<int>, second: bool, k: int)
    requires
        b > 0,
        0 <= i < 2 * pow2((b - 1) as nat),
        0 <= k <= pow2((b - 1) as nat),
        part.len() == pow2((b - 1) as nat),
        x.len() == 2 * part.len(),
        part == if second {
            x.skip(part.len() as int)
        } else {
            x.take(part.len() as int)
        },
    ensures
        ({
            let m = part.len() as int;
            let ii = if i < m {
                i
            } else {
                i - m
            };
            let from = if second {
                m
            } else {
                0
            };
            let own = walsh_dot((b - 1) as nat, ii, part, 0, k);
            walsh_dot(b, i, x, from, from + k) == if second && i >= m {
                -own
            } else {
                own
            }
        }),
    decreases k,
{
    if k > 0 {
        lemma_dot_half(b, i, x, part, second, k - 1);
        let m = part.len() as int;
        let ii = if i < m {
            i
        } else {
            i - m
        };
        let from = if second {
            m
        } else {
            0
        };
        let w = walsh((b - 1) as nat, ii, k - 1);
        let v = part[k - 1];
        assert(x[from + k - 1] == v);
        assert((-w) * v == -(w * v)) by (nonlinear_arith);
    }
}

/// The butterflies compute the product with the matrix: over whole numbers,
/// entry `i` of the transform is row `i` of the matrix times the vector.
pub proof fn law_transform_is_the_matrix_product(x: Seq<int>, b: nat, i: int)
    requires
        x.len() == pow2(b),
        0 <= i < x.len(),
    ensures
        transform(integers(), x).len() == x.len(),
        transform(integers(), x)[i] == walsh_dot(b, i, x, 0, x.len() as int),
    decreases b,
{
    let n = integers();
    lemma2_to64();
    if b == 0 {
        assert(walsh_dot(0, 0, x, 0, 0) == 0);
        assert(walsh_dot(0, 0, x, 0, 1) == x[0]);
    } else {
        let c = (b - 1) as nat;
        lemma_pow2_unfold(b);
        let m = pow2(c) as int;
        let lo = x.take(m);
        let hi = x.skip(m);
        let ii = if i < m {
            i
        } else {
            i - m
        };
        lemma_recursion(n, x, c);
        law_transform_is_the_matrix_product(lo, c, ii);
        law_transform_is_the_matrix_product(hi, c, ii);
        lemma_dot_split(b, i, x, 0, m, 2 * m);
        lemma_dot_half(b, i, x, lo, false, m);
        lemma_dot_half(b, i, x, hi, true, m);
    }
}

proof fn lemma_transform_len(x: Seq<int>, b: nat)
    requires
        x.len() == pow2(b),
    ensures
        transform(integers(), x).len() == x.len(),
{
    lemma_pow2_pos(b);
    law_transform_is_the_matrix_product(x, b, 0);
}

/// The transform keeps sums and differences.
proof fn lemma_transform_linear(x: Seq<int>, y: Seq<int>, z: Seq<int>, b: nat, minus: bool)
    requires
        x.len() == pow2(b),
        y.len() == pow2(b),
        z.len() == pow2(b),
        forall|i: int|
            0 <= i < z.len() ==> #[trigger] z[i] == if minus {
                x[i] - y[i]
            } else {
                x[i] + y[i]
            },
    ensures
        transform(integers(), z).len() == z.len(),
        forall|i: int|
            0 <= i < z.len() ==> #[trigger] transform(integers(), z)[i] == if minus {
                transform(integers(), x)[i] - transform(integers(), y)[i]
            } else {
                transform(integers(), x)[i] + transform(integers(), y)[i]
            },
    decreases b,
{
    let n = integers();
    lemma2_to64();
    lemma_transform_len(z, b);
    if b > 0 {
        let c = (b - 1) as nat;
        lemma_pow2_unfold(b);
        let m = pow2(c) as int;
        lemma_recursion(n, x, c);
        lemma_recursion(n, y, c);
        lemma_recursion(n, z, c);
        lemma_transform_linear(x.take(m), y.take(m), z.take(m), c, minus);
        lemma_transform_linear(x.skip(m), y.skip(m), z.skip(m), c, minus);
    }
}

/// The transform undoes itself up to the length: over whole numbers, applying
/// it twice multiplies every entry by the length.
pub proof fn law_transform_undoes_itself(x: Seq<int>, b: nat)
    requires
        x.len() == pow2(b),
    ensures
        transform(integers(), transform(integers(), x)) == Seq::new(
            x.len(),
            |i: int| x.len() * x[i],
        ),
    decreases b,
{
    let n = integers();
    let t = transform(n, x);
    lemma2_to64();
    lemma_transform_len(x, b);
    lemma_transform_len(t, b);
    let want = Seq::new(x.len(), |i: int| x.len() * x[i]);
    if b == 0 {
        assert(transform(n, t) =~= want);
    } else {
        let c = (b - 1) as nat;
        lemma_pow2_unfold(b);
        let m = pow2(c) as int;
        let lo = x.take(m);
        let hi = x.skip(m);
        let tl = transform(n, lo);
        let th = transform(n, hi);
        lemma_recursion(n, x, c);
        lemma_recursion(n, t, c);
        lemma_transform_len(lo, c);
        lemma_transform_len(hi, c);
        lemma_transform_linear(tl, th, t.take(m), c, false);
        lemma_transform_linear(tl, th, t.skip(m), c, true);
        law_transform_undoes_itself(lo, c);
        law_transform_undoes_itself(hi, c);
        assert forall|i: int| 0 <= i < x.len() implies transform(n, t)[i] == want[i] by {
            let v = x[i];
            assert(x.len() * v == 2 * (m * v)) by (nonlinear_arith)
                requires
                    x.len() == 2 * m,
            ;
            if i < m {
                assert(transform(n, tl)[i] == m * lo[i]);
            } else {
                assert(transform(n, th)[i - m] == m * hi[i - m]);
            }
        }
        assert(transform(n, t) =~= want);
    }
}

/// The sum of the products of two vectors, over the first `k` entries.
pub open spec fn inner(x: Seq<int>, y: Seq<int>, k: int) -> int
    decreases k,
{
    if k <= 0 {
        0
    } else {
        inner(x, y, k - 1) + x[k - 1] * y[k - 1]
    }
}

proof fn lemma_inner_halves(x: Seq<int>, y: Seq<int>, m: int, k: int)
    requires
        x.len() == 2 * m,
        y.len() == 2 * m,
        0 <= k <= m,
    ensures
        inner(x, y, k) == inner(x.take(m), y.take(m), k),
        inner(x, y, m + k) == inner(x, y, m) + inner(x.skip(m), y.skip(m), k),
    decreases k,
{
    if k > 0 {
        lemma_inner_halves(x, y, m, k - 1);
    }
}

/// `x` times the sum or difference of `y` and `z`.
proof fn lemma_inner_linear(x: Seq<int>, y: Seq<int>, z: Seq<int>, w: Seq<int>, minus: bool, k: int)
    requires
        0 <= k <= x.len(),
        y.len() == x.len(),
        z.len() == x.len(),
        w.len() == x.len(),
        forall|i: int|
            0 <= i < w.len() ==> #[trigger] w[i] == if minus {
                y[i] - z[i]
            } else {
                y[i] + z[i]
            },
    ensures
        inner(x, w, k) == if minus {
            inner(x, y, k) - inner(x, z, k)
        } else {
            inner(x, y, k) + inner(x, z, k)
        },
        inner(w, x, k) == if minus {
            inner(y, x, k) - inner(z, x, k)
        } else {
            inner(y, x, k) + inner(z, x, k)
        },
    decreases k,
{
    if k > 0 {
        lemma_inner_linear(x, y, z, w, minus, k - 1);
        let a = x[k - 1];
        let b = y[k - 1];
        let c = z[k - 1];
        assert(w[k - 1] == if minus {
            b - c
        } else {
            b + c
        });
        assert(a * (b - c) == a * b - a * c && a * (b + c) == a * b + a * c && (b - c) * a == b * a
            - c * a && (b + c) * a == b * a + c * a) by (nonlinear_arith);
    }
}

/// A rotation of the weights can be moved to the activation: the transform of
/// one vector times the other is the one times the transform of the other.
pub proof fn law_rotation_moves_to_the_other_side(x: Seq<int>, y: Seq<int>, b: nat)
    requires
        x.len() == pow2(b),
        y.len() == pow2(b),
    ensures
        inner(transform(integers(), x), y, x.len() as int) == inner(
            x,
            transform(integers(), y),
            x.len() as int,
        ),
    decreases b,
{
    let n = integers();
    lemma2_to64();
    lemma_transform_len(x, b);
    lemma_transform_len(y, b);
    let tx = transform(n, x);
    let ty = transform(n, y);
    if b > 0 {
        let c = (b - 1) as nat;
        lemma_pow2_unfold(b);
        let m = pow2(c) as int;
        let (xl, xh, yl, yh) = (x.take(m), x.skip(m), y.take(m), y.skip(m));
        lemma_recursion(n, x, c);
        lemma_recursion(n, y, c);
        let (al, ah, bl, bh) = (
            transform(n, xl),
            transform(n, xh),
            transform(n, yl),
            transform(n, yh),
        );
        lemma_inner_halves(tx, y, m, m);
        lemma_inner_halves(x, ty, m, m);
        lemma_inner_linear(yl, al, ah, tx.take(m), false, m);
        lemma_inner_linear(yh, al, ah, tx.skip(m), true, m);
        lemma_inner_linear(xl, bl, bh, ty.take(m), false, m);
        lemma_inner_linear(xh, bl, bh, ty.skip(m), true, m);
        law_rotation_moves_to_the_other_side(xl, yl, c);
        law_rotation_moves_to_the_other_side(xh, yl, c);
        law_rotation_moves_to_the_other_side(xl, yh, c);
        law_rotation_moves_to_the_other_side(xh, yh, c);
    }
}

} // verus!
