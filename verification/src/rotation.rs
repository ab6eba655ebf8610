//! Why weights may stay rotated: the product of a rotated row with a rotated
//! activation is that of the plain row with the plain activation.
//!
//! The law holds where the arithmetic is exact. With floats both sides are the
//! same sum, rounded differently.

use crate::arith::Num;
use crate::cq::CqWeight;
use crate::dot::{chain, dot_in_lanes, dot_in_order, lane, sum};
use crate::exact::{is_ring, lemma_difference_distributed, lemma_differences_add, lemma_distributed, lemma_product_commutes, lemma_sum_associates, lemma_sums_add, lemma_swap_factors, lemma_term_moves};
use crate::hadamard::{lemma_recursion, transform, transform_scaled};
use crate::matmul::{group_product, product, row_product};
use crate::pow2::is_pow2;
use crate::rotate::{group_part, padded, prepared, row_weights, scaled_levels, weight};
use vstd::arithmetic::div_mod::*;
use vstd::arithmetic::power2::*;
use vstd::prelude::*;

verus! {

/// The sum of the products of two vectors, over the first `k` entries.
spec fn inner(n: Num<u32>, u: Seq<u32>, x: Seq<u32>, k: int) -> u32 {
    chain(n, n.zero, u, x, 0, k)
}

/// A chain of additions is its start and the chain from nothing.
proof fn lemma_chain_start(n: Num<u32>, start: u32, u: Seq<u32>, x: Seq<u32>, from: int, to: int)
    requires
        is_ring(n),
        from <= to,
    ensures
        chain(n, start, u, x, from, to) == n.plus(start, chain(n, n.zero, u, x, from, to)),
    decreases to - from,
{
    if from < to {
        lemma_chain_start(n, start, u, x, from, to - 1);
        lemma_sum_associates(
            n,
            start,
            chain(n, n.zero, u, x, from, to - 1),
            n.times(u[to - 1], x[to - 1]),
        );
    } else {
        assert(n.plus(start, n.zero) == start);
    }
}

proof fn lemma_chain_joins(
    n: Num<u32>,
    start: u32,
    u: Seq<u32>,
    x: Seq<u32>,
    from: int,
    mid: int,
    to: int,
)
    requires
        from <= mid <= to,
    ensures
        chain(n, chain(n, start, u, x, from, mid), u, x, mid, to) == chain(n, start, u, x, from, to),
    decreases to - mid,
{
    if mid < to {
        lemma_chain_joins(n, start, u, x, from, mid, to - 1);
    }
}

/// A chain depends on the entries it reads alone.
proof fn lemma_chain_of_parts(
    n: Num<u32>,
    u: Seq<u32>,
    x: Seq<u32>,
    from: int,
    v: Seq<u32>,
    y: Seq<u32>,
    k: int,
)
    requires
        0 <= k,
        forall|i: int|
            #![trigger v[i]]
            #![trigger y[i]]
            0 <= i < k ==> v[i] == u[from + i] && y[i] == x[from + i],
    ensures
        chain(n, n.zero, u, x, from, from + k) == inner(n, v, y, k),
    decreases k,
{
    if k > 0 {
        lemma_chain_of_parts(n, u, x, from, v, y, k - 1);
        assert(v[k - 1] == u[from + k - 1]);
    }
}

/// An inner product in two parts.
proof fn lemma_inner_split(
    n: Num<u32>,
    u: Seq<u32>,
    x: Seq<u32>,
    m: int,
    v: Seq<u32>,
    y: Seq<u32>,
    k: int,
)
    requires
        is_ring(n),
        0 <= m,
        0 <= k,
        forall|i: int|
            #![trigger v[i]]
            #![trigger y[i]]
            0 <= i < k ==> v[i] == u[m + i] && y[i] == x[m + i],
    ensures
        inner(n, u, x, m + k) == n.plus(inner(n, u, x, m), inner(n, v, y, k)),
{
    lemma_chain_joins(n, n.zero, u, x, 0, m, m + k);
    lemma_chain_start(n, inner(n, u, x, m), u, x, m, m + k);
    lemma_chain_of_parts(n, u, x, m, v, y, k);
}

proof fn lemma_inner_commutes(n: Num<u32>, u: Seq<u32>, x: Seq<u32>, k: int)
    requires
        is_ring(n),
    ensures
        inner(n, u, x, k) == inner(n, x, u, k),
    decreases k,
{
    if k > 0 {
        lemma_inner_commutes(n, u, x, k - 1);
        lemma_product_commutes(n, u[k - 1], x[k - 1]);
    }
}

/// An inner product with a sum.
proof fn lemma_inner_of_sum(
    n: Num<u32>,
    y: Seq<u32>,
    z: Seq<u32>,
    w: Seq<u32>,
    x: Seq<u32>,
    k: int,
)
    requires
        is_ring(n),
        forall|i: int| 0 <= i < k ==> #[trigger] w[i] == n.plus(y[i], z[i]),
    ensures
        inner(n, w, x, k) == n.plus(inner(n, y, x, k), inner(n, z, x, k)),
    decreases k,
{
    if k > 0 {
        lemma_inner_of_sum(n, y, z, w, x, k - 1);
        let (a, b, c) = (x[k - 1], y[k - 1], z[k - 1]);
        assert(w[k - 1] == n.plus(b, c));
        lemma_distributed(n, b, c, a);
        lemma_sums_add(
            n,
            inner(n, y, x, k - 1),
            inner(n, z, x, k - 1),
            n.times(b, a),
            n.times(c, a),
        );
    } else {
        assert(n.plus(n.zero, n.zero) == n.zero);
    }
}

/// An inner product with a difference.
proof fn lemma_inner_of_difference(
    n: Num<u32>,
    y: Seq<u32>,
    z: Seq<u32>,
    w: Seq<u32>,
    x: Seq<u32>,
    k: int,
)
    requires
        is_ring(n),
        forall|i: int| 0 <= i < k ==> #[trigger] w[i] == n.minus(y[i], z[i]),
    ensures
        inner(n, w, x, k) == n.minus(inner(n, y, x, k), inner(n, z, x, k)),
    decreases k,
{
    if k > 0 {
        lemma_inner_of_difference(n, y, z, w, x, k - 1);
        let (a, b, c) = (x[k - 1], y[k - 1], z[k - 1]);
        assert(w[k - 1] == n.minus(b, c));
        lemma_difference_distributed(n, b, c, a);
        lemma_differences_add(
            n,
            inner(n, y, x, k - 1),
            inner(n, z, x, k - 1),
            n.times(b, a),
            n.times(c, a),
        );
    } else {
        lemma_nothing_from_nothing(n);
    }
}

proof fn lemma_nothing_from_nothing(n: Num<u32>)
    requires
        is_ring(n),
    ensures
        n.minus(n.zero, n.zero) == n.zero,
{
    lemma_difference_distributed(n, n.zero, n.zero, n.zero);
    lemma_product_commutes(n, n.minus(n.zero, n.zero), n.zero);
    assert(n.times(n.zero, n.minus(n.zero, n.zero)) == n.zero);
    assert(n.times(n.zero, n.zero) == n.zero);
}

/// An inner product with a vector scaled by a factor.
proof fn lemma_inner_scales(n: Num<u32>, u: Seq<u32>, w: Seq<u32>, c: u32, x: Seq<u32>, k: int)
    requires
        is_ring(n),
        forall|i: int| 0 <= i < k ==> #[trigger] w[i] == n.times(u[i], c),
    ensures
        inner(n, w, x, k) == n.times(inner(n, u, x, k), c),
    decreases k,
{
    if k > 0 {
        lemma_inner_scales(n, u, w, c, x, k - 1);
        assert(w[k - 1] == n.times(u[k - 1], c));
        lemma_swap_factors(n, u[k - 1], c, x[k - 1]);
        lemma_distributed(n, inner(n, u, x, k - 1), n.times(u[k - 1], x[k - 1]), c);
    } else {
        assert(n.times(n.zero, c) == n.zero);
    }
}

proof fn lemma_transform_len(n: Num<u32>, x: Seq<u32>, b: nat)
    requires
        x.len() == pow2(b),
    ensures
        transform(n, x).len() == x.len(),
{
    lemma2_to64();
    if b > 0 {
        lemma_pow2_unfold(b);
        lemma_recursion(n, x, (b - 1) as nat);
    }
}

/// The rotation of one vector times the other is the one times the rotation of
/// the other.
proof fn lemma_rotation_moves(n: Num<u32>, x: Seq<u32>, y: Seq<u32>, b: nat)
    requires
        is_ring(n),
        x.len() == pow2(b),
        y.len() == pow2(b),
    ensures
        inner(n, transform(n, x), y, x.len() as int) == inner(n, x, transform(n, y), x.len() as int),
    decreases b,
{
    lemma2_to64();
    if b > 0 {
        let c = (b - 1) as nat;
        lemma_pow2_unfold(b);
        let m = pow2(c) as int;
        let (tx, ty) = (transform(n, x), transform(n, y));
        let (xl, xh, yl, yh) = (x.take(m), x.skip(m), y.take(m), y.skip(m));
        lemma_recursion(n, x, c);
        lemma_recursion(n, y, c);
        let (al, ah, bl, bh) = (
            transform(n, xl),
            transform(n, xh),
            transform(n, yl),
            transform(n, yh),
        );
        lemma_rotation_moves(n, xl, yl, c);
        lemma_rotation_moves(n, xh, yl, c);
        lemma_rotation_moves(n, xl, yh, c);
        lemma_rotation_moves(n, xh, yh, c);
        lemma_rotated_halves(n, tx, al, ah, y, m);
        lemma_rotated_halves(n, ty, bl, bh, x, m);
        lemma_inner_commutes(n, x, ty, 2 * m);
        lemma_inner_commutes(n, bl, xl, m);
        lemma_inner_commutes(n, bh, xl, m);
        lemma_inner_commutes(n, bl, xh, m);
        lemma_inner_commutes(n, bh, xh, m);
        let (p, q, r, s) = (
            inner(n, al, yl, m),
            inner(n, ah, yl, m),
            inner(n, al, yh, m),
            inner(n, ah, yh, m),
        );
        lemma_sum_associates(n, p, q, n.minus(r, s));
        lemma_sum_associates(n, p, r, n.minus(q, s));
        lemma_term_moves(n, q, r, s);
    }
}

/// A vector made of the sums and the differences of `lo` and `hi`, times `y`.
proof fn lemma_rotated_halves(
    n: Num<u32>,
    t: Seq<u32>,
    lo: Seq<u32>,
    hi: Seq<u32>,
    y: Seq<u32>,
    m: int,
)
    requires
        is_ring(n),
        0 <= m,
        t.len() == 2 * m,
        y.len() == 2 * m,
        forall|i: int| 0 <= i < m ==> #[trigger] t[i] == n.plus(lo[i], hi[i]),
        forall|i: int| m <= i < 2 * m ==> #[trigger] t[i] == n.minus(lo[i - m], hi[i - m]),
    ensures
        inner(n, t, y, 2 * m) == n.plus(
            n.plus(inner(n, lo, y.take(m), m), inner(n, hi, y.take(m), m)),
            n.minus(inner(n, lo, y.skip(m), m), inner(n, hi, y.skip(m), m)),
        ),
{
    let (tl, th) = (t.take(m), t.skip(m));
    lemma_inner_split(n, t, y, m, th, y.skip(m), m);
    lemma_chain_of_parts(n, t, y, 0, tl, y.take(m), m);
    lemma_inner_of_sum(n, lo, hi, tl, y.take(m), m);
    assert forall|i: int| 0 <= i < m implies #[trigger] th[i] == n.minus(lo[i], hi[i]) by {
        assert(th[i] == t[i + m]);
    }
    lemma_inner_of_difference(n, lo, hi, th, y.skip(m), m);
}

/// Sums added term by term.
proof fn lemma_sum_adds(n: Num<u32>, a: Seq<u32>, b: Seq<u32>, c: Seq<u32>)
    requires
        is_ring(n),
        a.len() == c.len(),
        b.len() == c.len(),
        forall|i: int| 0 <= i < c.len() ==> #[trigger] c[i] == n.plus(a[i], b[i]),
    ensures
        sum(n, c) == n.plus(sum(n, a), sum(n, b)),
    decreases c.len(),
{
    if c.len() > 0 {
        let k = c.len() - 1;
        lemma_sum_adds(n, a.drop_last(), b.drop_last(), c.drop_last());
        assert(c[k] == n.plus(a[k], b[k]));
        lemma_sums_add(n, sum(n, a.drop_last()), sum(n, b.drop_last()), a.last(), b.last());
    } else {
        assert(n.plus(n.zero, n.zero) == n.zero);
    }
}

proof fn lemma_sum_of_zeros(n: Num<u32>, s: Seq<u32>)
    requires
        is_ring(n),
        forall|i: int| 0 <= i < s.len() ==> #[trigger] s[i] == n.zero,
    ensures
        sum(n, s) == n.zero,
    decreases s.len(),
{
    if s.len() > 0 {
        lemma_sum_of_zeros(n, s.drop_last());
        assert(s[s.len() - 1] == n.zero);
        assert(n.plus(n.zero, n.zero) == n.zero);
    }
}

/// The products of a run of entries.
spec fn products_from(n: Num<u32>, u: Seq<u32>, x: Seq<u32>, from: int, k: nat) -> Seq<u32> {
    Seq::new(k, |j: int| n.times(u[from + j], x[from + j]))
}

/// A chain of additions is its start and the sum of its products.
proof fn lemma_chain_is_sum(n: Num<u32>, start: u32, u: Seq<u32>, x: Seq<u32>, from: int, k: nat)
    requires
        is_ring(n),
    ensures
        chain(n, start, u, x, from, from + k) == n.plus(
            start,
            sum(n, products_from(n, u, x, from, k)),
        ),
    decreases k,
{
    let p = products_from(n, u, x, from, k);
    if k > 0 {
        lemma_chain_is_sum(n, start, u, x, from, (k - 1) as nat);
        assert(p.drop_last() =~= products_from(n, u, x, from, (k - 1) as nat));
        lemma_sum_associates(n, start, sum(n, p.drop_last()), p.last());
    } else {
        assert(n.plus(start, n.zero) == start);
    }
}

proof fn lemma_lanes_sum(n: Num<u32>, u: Seq<u32>, x: Seq<u32>, chunks: int)
    requires
        is_ring(n),
        0 <= chunks,
    ensures
        sum(n, Seq::new(8, |k: int| lane(n, u, x, chunks, k))) == inner(n, u, x, chunks * 8),
    decreases chunks,
{
    let now = Seq::new(8, |k: int| lane(n, u, x, chunks, k));
    if chunks > 0 {
        let before = Seq::new(8, |k: int| lane(n, u, x, chunks - 1, k));
        let b = (chunks - 1) * 8;
        lemma_lanes_sum(n, u, x, chunks - 1);
        lemma_sum_adds(n, before, products_from(n, u, x, b, 8), now);
        lemma_chain_is_sum(n, inner(n, u, x, b), u, x, b, 8);
        lemma_chain_joins(n, n.zero, u, x, 0, b, b + 8);
    } else {
        lemma_sum_of_zeros(n, now);
    }
}

/// Lanes only reorder a sum.
proof fn lemma_lanes(n: Num<u32>, u: Seq<u32>, x: Seq<u32>)
    requires
        is_ring(n),
    ensures
        dot_in_lanes(n, u, x) == dot_in_order(n, u, x),
{
    let chunks = u.len() as int / 8;
    lemma_lanes_sum(n, u, x, chunks);
    lemma_chain_joins(n, n.zero, u, x, 0, chunks * 8, u.len() as int);
}

/// One group: scaling after the product of rotated activations is the product
/// with scaled weights that were rotated back.
proof fn lemma_group(n: Num<u32>, u: Seq<u32>, norm: u32, x: Seq<u32>)
    requires
        is_ring(n),
        is_pow2(u.len() as int),
        x.len() == u.len(),
    ensures
        n.times(norm, dot_in_order(n, u, transform_scaled(n, x))) == dot_in_order(
            n,
            transform_scaled(n, u.map_values(|v: u32| n.times(v, norm))),
            x,
        ),
{
    let k = u.len() as int;
    let b = choose|b: nat| #[trigger] pow2(b) == k;
    let inv = n.over(n.one, n.root(n.number(k)));
    let scaled = u.map_values(|v: u32| n.times(v, norm));
    let (tx, tu) = (transform(n, x), transform(n, scaled));
    lemma_transform_len(n, x, b);
    lemma_transform_len(n, scaled, b);
    lemma_rotation_moves(n, scaled, x, b);
    lemma_inner_scales(n, tu, transform_scaled(n, scaled), inv, x, k);
    lemma_inner_scales(n, u, scaled, norm, tx, k);
    lemma_inner_scales(n, tx, transform_scaled(n, x), inv, u, k);
    lemma_inner_commutes(n, u, transform_scaled(n, x), k);
    lemma_inner_commutes(n, tx, u, k);
    let v = inner(n, u, tx, k);
    lemma_product_commutes(n, norm, n.times(v, inv));
    lemma_swap_factors(n, v, inv, norm);
}

/// The weights of one row, with those of the padded columns.
spec fn wide_weights(n: Num<u32>, w: CqWeight, o: int) -> Seq<u32> {
    Seq::new(w.in_padded as nat, |col: int| weight(n, w, o, col))
}

/// The groups of a row, one after the other.
proof fn lemma_row(n: Num<u32>, w: CqWeight, o: int, x: Seq<u32>, k: int)
    requires
        is_ring(n),
        w.wf(),
        0 <= o < w.out_feat,
        x.len() == w.in_feat,
        0 <= k <= w.num_groups,
    ensures
        row_product(n, w, o, prepared(n, w, x), k) == inner(
            n,
            wide_weights(n, w, o),
            padded(w, x),
            k * w.group,
        ),
    decreases k,
{
    w.lemma_padding();
    let group = w.group as int;
    if k > 0 {
        let g = k - 1;
        let base = g * group;
        let (wide, pad, xh) = (wide_weights(n, w, o), padded(w, x), prepared(n, w, x));
        let u = w.group_levels(o, g);
        let norm = w.norms@[o * w.num_groups + g];
        let part = group_part(pad, g, group);
        let scaled = scaled_levels(n, w, o, g);
        assert(0 <= base && base + group <= w.num_groups * group && k * group == base + group)
            by (nonlinear_arith)
            requires
                0 <= g,
                g + 1 <= w.num_groups,
                k == g + 1,
                base == g * group,
                group >= 0,
        ;
        let b = choose|b: nat| #[trigger] pow2(b) == group;
        lemma_transform_len(n, part, b);
        lemma_transform_len(n, scaled, b);
        let turned = transform_scaled(n, part);
        let back = transform_scaled(n, scaled);
        let mine = xh.subrange(base, base + group);
        assert forall|i: int| 0 <= i < group implies #[trigger] mine[i] == turned[i] && back[i]
            == wide[base + i] && part[i] == pad[base + i] by {
            lemma_fundamental_div_mod_converse(base + i, group, g, i);
        }
        assert(mine =~= turned);
        lemma_row(n, w, o, x, g);
        lemma_lanes(n, u, turned);
        lemma_group(n, u, norm, part);
        assert(scaled =~= u.map_values(|v: u32| n.times(v, norm)));
        assert(group_product(n, w, o, g, xh) == dot_in_order(n, u, turned));
        assert forall|i: int|
            #![trigger back[i]]
            #![trigger part[i]]
            0 <= i < group implies back[i] == wide[base + i] && part[i] == pad[base + i] by {
            assert(mine[i] == turned[i]);
        }
        lemma_inner_split(n, wide, pad, base, back, part, group);
    } else {
        assert(k * group == 0) by (nonlinear_arith)
            requires
                k == 0,
        ;
    }
}

/// The padded columns add nothing.
proof fn lemma_padding_adds_nothing(n: Num<u32>, u: Seq<u32>, x: Seq<u32>, from: int, to: int)
    requires
        is_ring(n),
        0 <= from <= to,
        forall|i: int| from <= i < to ==> #[trigger] x[i] == n.zero,
    ensures
        inner(n, u, x, to) == inner(n, u, x, from),
    decreases to - from,
{
    if from < to {
        lemma_padding_adds_nothing(n, u, x, from, to - 1);
        assert(x[to - 1] == n.zero);
        lemma_product_commutes(n, u[to - 1], n.zero);
        assert(n.times(n.zero, u[to - 1]) == n.zero);
        assert(n.plus(inner(n, u, x, from), n.zero) == inner(n, u, x, from));
    }
}

/// Weights need not be rotated back to be used: in exact arithmetic, the product
/// of a packed row with a rotated activation is the dot product of that row's
/// plain weights with the plain activation.
pub proof fn law_product_is_that_of_the_plain_weights(
    n: Num<u32>,
    w: CqWeight,
    o: int,
    x: Seq<u32>,
)
    requires
        is_ring(n),
        w.wf(),
        0 <= o < w.out_feat,
        x.len() == w.in_feat,
    ensures
        product(n, w, o, prepared(n, w, x)) == dot_in_order(n, row_weights(n, w, o), x),
{
    w.lemma_padding();
    let (wide, pad, row) = (wide_weights(n, w, o), padded(w, x), row_weights(n, w, o));
    lemma_row(n, w, o, x, w.num_groups as int);
    lemma_padding_adds_nothing(n, wide, pad, w.in_feat as int, w.in_padded as int);
    lemma_chain_of_parts(n, wide, pad, 0, row, x, w.in_feat as int);
}

} // verus!
