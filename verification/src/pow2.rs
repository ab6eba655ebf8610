//! Powers of two.

use vstd::arithmetic::power2::*;
use vstd::prelude::*;

verus! {

/// `n` is a power of two.
pub open spec fn is_pow2(n: int) -> bool {
    exists|k: nat| #[trigger] pow2(k) == n
}

/// A smaller power of two, doubled, is at most a larger one.
proof fn lemma_next_pow2(a: nat, b: nat)
    requires
        pow2(a) < pow2(b),
    ensures
        2 * pow2(a) <= pow2(b),
{
    if a >= b {
        if a > b {
            lemma_pow2_strictly_increases(b, a);
        }
    } else {
        lemma_pow2_unfold((a + 1) as nat);
        if a + 1 < b {
            lemma_pow2_strictly_increases((a + 1) as nat, b);
        }
    }
}

/// The smallest power of two that is at least `n`, where it fits.
pub fn next_pow2(n: usize) -> (r: Option<usize>)
    ensures
        match r {
            Some(p) => p >= n && is_pow2(p as int) && forall|q: int|
                is_pow2(q) && q >= n ==> p <= q,
            None => forall|q: int| is_pow2(q) && q >= n ==> q > usize::MAX,
        },
{
    let mut p: usize = 1;
    let ghost mut k: nat = 0;
    proof {
        lemma2_to64();
        assert forall|q: int| is_pow2(q) implies q >= 1 by {
            let j = choose|j: nat| #[trigger] pow2(j) == q;
            lemma_pow2_pos(j);
        }
    }
    while p < n
        invariant
            p == pow2(k),
            forall|q: int| is_pow2(q) && q >= n ==> p <= q,
        decreases usize::MAX - p,
    {
        proof {
            lemma_pow2_unfold((k + 1) as nat);
            lemma_pow2_pos(k);
            assert forall|q: int| is_pow2(q) && q >= n implies 2 * p <= q by {
                let j = choose|j: nat| #[trigger] pow2(j) == q;
                lemma_next_pow2(k, j);
            }
        }
        if p > usize::MAX / 2 {
            return None;
        }
        p = p * 2;
        proof {
            k = k + 1;
        }
    }
    assert(is_pow2(p as int));
    Some(p)
}

/// Whether `n` is a power of two.
pub fn check_pow2(n: usize) -> (r: bool)
    ensures
        r == is_pow2(n as int),
{
    proof {
        if is_pow2(0) {
            let j = choose|j: nat| #[trigger] pow2(j) == 0;
            lemma_pow2_pos(j);
        }
    }
    match next_pow2(n) {
        Some(p) => p == n && n > 0,
        None => false,
    }
}

} // verus!
