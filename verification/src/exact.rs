//! Exact arithmetic: sums, differences and products that never round.
//!
//! Floats do round, so no law here is about them. The laws that lean on these
//! conditions say what a computation comes to apart from rounding.

use crate::arith::Num;
use vstd::prelude::*;

verus! {

/// The order of two terms does not matter.
#[verifier::opaque]
pub open spec fn sums_commute(n: Num<u32>) -> bool {
    forall|a: u32, b: u32| #[trigger] n.plus(a, b) == n.plus(b, a)
}

/// Nor does where the brackets stand.
#[verifier::opaque]
pub open spec fn sums_associate(n: Num<u32>) -> bool {
    forall|a: u32, b: u32, c: u32|
        #[trigger] n.plus(n.plus(a, b), c) == n.plus(a, n.plus(b, c))
}

/// The order of two factors does not matter.
#[verifier::opaque]
pub open spec fn products_commute(n: Num<u32>) -> bool {
    forall|a: u32, b: u32| #[trigger] n.times(a, b) == n.times(b, a)
}

/// Nor does where the brackets stand.
#[verifier::opaque]
pub open spec fn products_associate(n: Num<u32>) -> bool {
    forall|a: u32, b: u32, c: u32|
        #[trigger] n.times(n.times(a, b), c) == n.times(a, n.times(b, c))
}

/// A product with a sum is the sum of the products.
#[verifier::opaque]
pub open spec fn products_distribute(n: Num<u32>) -> bool {
    forall|a: u32, b: u32, c: u32|
        #[trigger] n.times(n.plus(a, b), c) == n.plus(n.times(a, c), n.times(b, c))
}

/// A difference and what was taken away give back what it was taken from.
#[verifier::opaque]
pub open spec fn sums_undo_differences(n: Num<u32>) -> bool {
    forall|a: u32, b: u32| #[trigger] n.plus(n.minus(a, b), b) == a
}

/// Sums and products are exact.
pub open spec fn is_semiring(n: Num<u32>) -> bool {
    &&& n.zero == 0
    &&& forall|a: u32| #[trigger] n.times(n.zero, a) == n.zero
    &&& sums_commute(n)
    &&& sums_associate(n)
    &&& products_commute(n)
    &&& products_associate(n)
    &&& products_distribute(n)
}

/// Sums, differences and products are exact.
pub open spec fn is_ring(n: Num<u32>) -> bool {
    &&& is_semiring(n)
    &&& forall|a: u32| #[trigger] n.plus(a, n.zero) == a
    &&& sums_undo_differences(n)
}

pub proof fn lemma_swap_terms(n: Num<u32>, v: u32, p: u32, q: u32)
    requires
        is_semiring(n),
    ensures
        n.plus(n.plus(v, p), q) == n.plus(n.plus(v, q), p),
{
    assert(n.plus(p, q) == n.plus(q, p)) by {
        reveal(sums_commute);
    }
    assert(n.plus(n.plus(v, p), q) == n.plus(v, n.plus(p, q))) by {
        reveal(sums_associate);
    }
    assert(n.plus(n.plus(v, q), p) == n.plus(v, n.plus(q, p))) by {
        reveal(sums_associate);
    }
}

pub proof fn lemma_distributed(n: Num<u32>, a: u32, b: u32, c: u32)
    requires
        is_semiring(n),
    ensures
        n.times(n.plus(a, b), c) == n.plus(n.times(a, c), n.times(b, c)),
{
    reveal(products_distribute);
}

pub proof fn lemma_swap_factors(n: Num<u32>, w: u32, x: u32, r: u32)
    requires
        is_semiring(n),
    ensures
        n.times(n.times(w, x), r) == n.times(n.times(w, r), x),
{
    assert(n.times(x, r) == n.times(r, x)) by {
        reveal(products_commute);
    }
    assert(n.times(n.times(w, x), r) == n.times(w, n.times(x, r))) by {
        reveal(products_associate);
    }
    assert(n.times(n.times(w, r), x) == n.times(w, n.times(r, x))) by {
        reveal(products_associate);
    }
}

pub proof fn lemma_sum_commutes(n: Num<u32>, a: u32, b: u32)
    requires
        is_semiring(n),
    ensures
        n.plus(a, b) == n.plus(b, a),
{
    reveal(sums_commute);
}

pub proof fn lemma_sum_associates(n: Num<u32>, a: u32, b: u32, c: u32)
    requires
        is_semiring(n),
    ensures
        n.plus(n.plus(a, b), c) == n.plus(a, n.plus(b, c)),
{
    reveal(sums_associate);
}

pub proof fn lemma_product_commutes(n: Num<u32>, a: u32, b: u32)
    requires
        is_semiring(n),
    ensures
        n.times(a, b) == n.times(b, a),
{
    reveal(products_commute);
}

/// Two sums added term by term.
pub proof fn lemma_sums_add(n: Num<u32>, a: u32, b: u32, c: u32, d: u32)
    requires
        is_semiring(n),
    ensures
        n.plus(n.plus(a, b), n.plus(c, d)) == n.plus(n.plus(a, c), n.plus(b, d)),
{
    lemma_sum_associates(n, n.plus(a, b), c, d);
    lemma_swap_terms(n, a, b, c);
    lemma_sum_associates(n, n.plus(a, c), b, d);
}

/// What is added on both sides can be taken away.
pub proof fn lemma_cancel(n: Num<u32>, x: u32, y: u32, b: u32)
    requires
        is_ring(n),
        n.plus(x, b) == n.plus(y, b),
    ensures
        x == y,
{
    let nb = n.minus(n.zero, b);
    assert(n.plus(nb, b) == n.zero) by {
        reveal(sums_undo_differences);
    }
    lemma_sum_commutes(n, nb, b);
    lemma_sum_associates(n, x, b, nb);
    lemma_sum_associates(n, y, b, nb);
    assert(n.plus(x, n.zero) == x);
    assert(n.plus(y, n.zero) == y);
}

proof fn lemma_undone(n: Num<u32>, a: u32, b: u32)
    requires
        is_ring(n),
    ensures
        n.plus(n.minus(a, b), b) == a,
{
    reveal(sums_undo_differences);
}

/// Two differences added term by term.
pub proof fn lemma_differences_add(n: Num<u32>, a: u32, b: u32, c: u32, d: u32)
    requires
        is_ring(n),
    ensures
        n.plus(n.minus(a, b), n.minus(c, d)) == n.minus(n.plus(a, c), n.plus(b, d)),
{
    let left = n.plus(n.minus(a, b), n.minus(c, d));
    let right = n.minus(n.plus(a, c), n.plus(b, d));
    lemma_undone(n, a, b);
    lemma_undone(n, c, d);
    lemma_undone(n, n.plus(a, c), n.plus(b, d));
    lemma_sums_add(n, n.minus(a, b), n.minus(c, d), b, d);
    lemma_cancel(n, left, right, n.plus(b, d));
}

/// A product with a difference is the difference of the products.
pub proof fn lemma_difference_distributed(n: Num<u32>, a: u32, b: u32, c: u32)
    requires
        is_ring(n),
    ensures
        n.times(n.minus(a, b), c) == n.minus(n.times(a, c), n.times(b, c)),
{
    lemma_undone(n, a, b);
    lemma_undone(n, n.times(a, c), n.times(b, c));
    lemma_distributed(n, n.minus(a, b), b, c);
    lemma_cancel(
        n,
        n.times(n.minus(a, b), c),
        n.minus(n.times(a, c), n.times(b, c)),
        n.times(b, c),
    );
}

/// A term may be moved out of a difference.
pub proof fn lemma_term_moves(n: Num<u32>, q: u32, r: u32, s: u32)
    requires
        is_ring(n),
    ensures
        n.plus(q, n.minus(r, s)) == n.plus(r, n.minus(q, s)),
{
    lemma_undone(n, r, s);
    lemma_undone(n, q, s);
    lemma_sum_associates(n, q, n.minus(r, s), s);
    lemma_sum_associates(n, r, n.minus(q, s), s);
    lemma_sum_commutes(n, q, r);
    lemma_cancel(n, n.plus(q, n.minus(r, s)), n.plus(r, n.minus(q, s)), s);
}

} // verus!
