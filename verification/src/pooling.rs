//! What pooling cell by cell comes to: the softmax over all cells at once, in
//! whichever order they came.

use crate::arith::Num;
use crate::bits::{f32_greater, NEG_INFINITY, SIGN_BIT};
use crate::exact::{is_semiring, lemma_distributed, lemma_swap_factors, lemma_swap_terms};
use crate::heads::{cell_score, cell_scores, law_pool_keeps_the_largest_score, law_running_max_is_the_largest, probe_over, probe_pooled};
use vstd::prelude::*;
use vstd::seq_lib::*;

verus! {

/// The exponential of a difference is a quotient.
#[verifier::opaque]
pub open spec fn exponentials_divide(n: Num<u32>) -> bool {
    forall|a: u32, b: u32, c: u32|
        #[trigger] n.times(n.exponential(n.minus(a, b)), n.exponential(n.minus(b, c)))
            == n.exponential(n.minus(a, c))
}

/// The arithmetic is exact: sums and products are those of a commutative
/// semiring, and the exponential turns differences into quotients.
pub open spec fn is_exact(n: Num<u32>) -> bool {
    &&& is_semiring(n)
    &&& exponentials_divide(n)
}

proof fn lemma_quotient(n: Num<u32>, a: u32, b: u32, c: u32)
    requires
        is_exact(n),
    ensures
        n.times(n.exponential(n.minus(a, b)), n.exponential(n.minus(b, c))) == n.exponential(
            n.minus(a, c),
        ),
{
    reveal(exponentials_divide);
}

/// The weight of a cell against a reference score.
pub open spec fn weight_of(n: Num<u32>, probe: Seq<u32>, cell: Seq<u32>, m: u32) -> u32 {
    n.exponential(n.minus(cell_score(n, probe, cell), m))
}

/// The sum of the weights of all cells.
pub open spec fn weight_total(n: Num<u32>, probe: Seq<u32>, cells: Seq<Seq<u32>>, m: u32) -> u32 {
    cells.fold_left(n.zero, |t: u32, c: Seq<u32>| n.plus(t, weight_of(n, probe, c, m)))
}

/// Entry `i` of the sum of all cells, each times its weight.
pub open spec fn weighted_total(
    n: Num<u32>,
    probe: Seq<u32>,
    cells: Seq<Seq<u32>>,
    m: u32,
    i: int,
) -> u32 {
    cells.fold_left(
        n.zero,
        |t: u32, c: Seq<u32>| n.plus(t, n.times(weight_of(n, probe, c, m), c[i])),
    )
}

/// The scores are numbers above negative infinity.
pub open spec fn are_finite_scores(n: Num<u32>, probe: Seq<u32>, cells: Seq<Seq<u32>>) -> bool {
    forall|k: int|
        0 <= k < cells.len() ==> f32_greater(
            cell_score(n, probe, #[trigger] cells[k]),
            NEG_INFINITY,
        )
}

/// Another reference score scales all weights alike.
proof fn lemma_other_reference(
    n: Num<u32>,
    probe: Seq<u32>,
    cells: Seq<Seq<u32>>,
    m: u32,
    z: u32,
    i: int,
)
    requires
        is_exact(n),
    ensures
        n.times(weight_total(n, probe, cells, m), n.exponential(n.minus(m, z))) == weight_total(
            n,
            probe,
            cells,
            z,
        ),
        n.times(weighted_total(n, probe, cells, m, i), n.exponential(n.minus(m, z)))
            == weighted_total(n, probe, cells, z, i),
    decreases cells.len(),
{
    let r = n.exponential(n.minus(m, z));
    if cells.len() > 0 {
        let rest = cells.drop_last();
        let c = cells.last();
        lemma_other_reference(n, probe, rest, m, z, i);
        let w = weight_of(n, probe, c, m);
        let v = weight_of(n, probe, c, z);
        lemma_quotient(n, cell_score(n, probe, c), m, z);
        assert(n.times(w, r) == v);
        lemma_distributed(n, weight_total(n, probe, rest, m), w, r);
        let wc = n.times(w, c[i]);
        lemma_distributed(n, weighted_total(n, probe, rest, m, i), wc, r);
        lemma_swap_factors(n, w, c[i], r);
    } else {
        assert(n.times(n.zero, r) == n.zero);
    }
}

/// Pooling cell by cell is the softmax at once: where arithmetic is exact, the
/// accumulators are the sums of all weights, and of all cells times their
/// weights, against the largest score.
pub proof fn law_streamed_pool_is_the_softmax_at_once(
    n: Num<u32>,
    probe: Seq<u32>,
    cells: Seq<Seq<u32>>,
)
    requires
        is_exact(n),
        are_finite_scores(n, probe, cells),
    ensures
        ({
            let p = probe_over(n, probe, cells);
            &&& p.s == weight_total(n, probe, cells, p.m)
            &&& p.acc.len() == probe.len()
            &&& forall|i: int|
                0 <= i < probe.len() ==> #[trigger] p.acc[i] == weighted_total(
                    n,
                    probe,
                    cells,
                    p.m,
                    i,
                )
        }),
    decreases cells.len(),
{
    let p = probe_over(n, probe, cells);
    if cells.len() > 0 {
        let rest = cells.drop_last();
        let c = cells.last();
        assert forall|k: int| 0 <= k < rest.len() implies f32_greater(
            cell_score(n, probe, #[trigger] rest[k]),
            NEG_INFINITY,
        ) by {
            assert(rest[k] == cells[k]);
        }
        law_streamed_pool_is_the_softmax_at_once(n, probe, rest);
        let q = probe_over(n, probe, rest);
        let z = cell_score(n, probe, c);
        assert(c == cells[cells.len() - 1]);
        law_pool_keeps_the_largest_score(n, probe, rest);
        if rest.len() > 0 {
            assert(f32_greater(cell_score(n, probe, rest[0]), NEG_INFINITY));
            assert(q.m != NEG_INFINITY);
        }
        let r = n.exponential(n.minus(q.m, z));
        assert forall|i: int| 0 <= i < probe.len() implies #[trigger] p.acc[i] == weighted_total(
            n,
            probe,
            cells,
            p.m,
            i,
        ) by {
            lemma_other_reference(n, probe, rest, q.m, z, i);
            assert(n.times(n.zero, n.zero) == n.zero);
            assert(q.acc[i] == weighted_total(n, probe, rest, q.m, i));
        }
        lemma_other_reference(n, probe, rest, q.m, z, 0);
        assert(n.times(n.zero, n.zero) == n.zero);
    }
}

proof fn lemma_totals_ignore_the_order(
    n: Num<u32>,
    probe: Seq<u32>,
    a: Seq<Seq<u32>>,
    b: Seq<Seq<u32>>,
    m: u32,
    i: int,
)
    requires
        is_exact(n),
        a.to_multiset() == b.to_multiset(),
    ensures
        weight_total(n, probe, a, m) == weight_total(n, probe, b, m),
        weighted_total(n, probe, a, m, i) == weighted_total(n, probe, b, m, i),
{
    let f = |t: u32, c: Seq<u32>| n.plus(t, weight_of(n, probe, c, m));
    assert forall|x: Seq<u32>, y: Seq<u32>, v: u32| #[trigger] f(f(v, x), y) == f(f(v, y), x) by {
        let p = weight_of(n, probe, x, m);
        let q = weight_of(n, probe, y, m);
        lemma_swap_terms(n, v, p, q);
    }
    lemma_fold_left_permutation(a, b, f, n.zero);
    let g = |t: u32, c: Seq<u32>| n.plus(t, n.times(weight_of(n, probe, c, m), c[i]));
    assert forall|x: Seq<u32>, y: Seq<u32>, v: u32| #[trigger] g(g(v, x), y) == g(g(v, y), x) by {
        let p = n.times(weight_of(n, probe, x, m), x[i]);
        let q = n.times(weight_of(n, probe, y, m), y[i]);
        lemma_swap_terms(n, v, p, q);
    }
    lemma_fold_left_permutation(a, b, g, n.zero);
}

/// One of the scores is the largest, and no cell of the other order is above it.
proof fn lemma_same_largest(n: Num<u32>, probe: Seq<u32>, a: Seq<Seq<u32>>, b: Seq<Seq<u32>>)
    requires
        a.to_multiset() == b.to_multiset(),
    ensures
        probe_over(n, probe, a).m == NEG_INFINITY || exists|k: int|
            0 <= k < b.len() && probe_over(n, probe, a).m == cell_score(
                n,
                probe,
                #[trigger] b[k],
            ),
{
    broadcast use group_to_multiset_ensures;

    let m = probe_over(n, probe, a).m;
    let scores = cell_scores(n, probe, a);
    law_pool_keeps_the_largest_score(n, probe, a);
    law_running_max_is_the_largest(scores);
    if m != NEG_INFINITY {
        let k = choose|k: int| 0 <= k < scores.len() && #[trigger] scores[k] == m;
        assert(a.contains(a[k]));
        assert(a.to_multiset().count(a[k]) > 0);
        assert(b.to_multiset().count(a[k]) > 0);
        assert(b.contains(a[k]));
        let j = choose|j: int| 0 <= j < b.len() && b[j] == a[k];
        assert(cell_score(n, probe, b[j]) == m);
    }
}

/// The same cells have the same largest score in any order.
proof fn lemma_largest_ignores_the_order(
    n: Num<u32>,
    probe: Seq<u32>,
    a: Seq<Seq<u32>>,
    b: Seq<Seq<u32>>,
)
    requires
        a.to_multiset() == b.to_multiset(),
        are_finite_scores(n, probe, a),
        are_finite_scores(n, probe, b),
        forall|k: int|
            0 <= k < a.len() ==> cell_score(n, probe, #[trigger] a[k]) != SIGN_BIT,
        forall|k: int|
            0 <= k < b.len() ==> cell_score(n, probe, #[trigger] b[k]) != SIGN_BIT,
    ensures
        a.len() == b.len(),
        probe_over(n, probe, a).m == probe_over(n, probe, b).m,
{
    let p = probe_over(n, probe, a);
    let q = probe_over(n, probe, b);
    assert(a.len() == b.len()) by {
        broadcast use group_to_multiset_ensures;

        assert(a.to_multiset().len() == a.len() && b.to_multiset().len() == b.len());
    }
    law_pool_keeps_the_largest_score(n, probe, a);
    law_pool_keeps_the_largest_score(n, probe, b);
    lemma_same_largest(n, probe, a, b);
    lemma_same_largest(n, probe, b, a);
    if a.len() > 0 {
        assert(f32_greater(cell_score(n, probe, a[0]), NEG_INFINITY));
        assert(f32_greater(cell_score(n, probe, b[0]), NEG_INFINITY));
        assert(p.m != NEG_INFINITY && q.m != NEG_INFINITY);
        assert(!f32_greater(p.m, q.m));
        assert(!f32_greater(q.m, p.m));
        assert(p.m == q.m);
    } else {
        assert(a =~= b);
    }
}

/// The order of the cells does not matter: where arithmetic is exact and no score
/// is negative zero, the same cells pool to the same vector in any order.
pub proof fn law_pooling_ignores_the_order(
    n: Num<u32>,
    probe: Seq<u32>,
    a: Seq<Seq<u32>>,
    b: Seq<Seq<u32>>,
)
    requires
        is_exact(n),
        a.to_multiset() == b.to_multiset(),
        are_finite_scores(n, probe, a),
        are_finite_scores(n, probe, b),
        forall|k: int|
            0 <= k < a.len() ==> cell_score(n, probe, #[trigger] a[k]) != SIGN_BIT,
        forall|k: int|
            0 <= k < b.len() ==> cell_score(n, probe, #[trigger] b[k]) != SIGN_BIT,
    ensures
        probe_pooled(n, probe, a) == probe_pooled(n, probe, b),
{
    let p = probe_over(n, probe, a);
    let q = probe_over(n, probe, b);
    lemma_largest_ignores_the_order(n, probe, a, b);
    law_streamed_pool_is_the_softmax_at_once(n, probe, a);
    law_streamed_pool_is_the_softmax_at_once(n, probe, b);
    lemma_totals_ignore_the_order(n, probe, a, b, p.m, 0);
    assert forall|i: int| 0 <= i < probe.len() implies p.acc[i] == q.acc[i] by {
        lemma_totals_ignore_the_order(n, probe, a, b, p.m, i);
    }
    assert(p.acc =~= q.acc);
}

} // verus!
