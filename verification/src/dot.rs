//! Dot products of one quantisation group.
//!
//! Sums are kept in a fixed number of lanes, so that the order of additions is
//! the same whether the weights are read from a decode table or were decoded
//! before.

use crate::arith::{Arith, Binary, Num, Unary};
use crate::hadamard::integers;
use vstd::prelude::*;

verus! {

/// Number of partial sums.
pub const ACC_LANES: usize = 8;

/// The sum of the numbers, from the front.
pub open spec fn sum<T>(n: Num<T>, s: Seq<T>) -> T
    decreases s.len(),
{
    if s.len() == 0 {
        n.zero
    } else {
        n.plus(sum(n, s.drop_last()), s.last())
    }
}

/// Partial sum `k` after `chunks` runs of eight products.
pub open spec fn lane<T>(n: Num<T>, u: Seq<T>, x: Seq<T>, chunks: int, k: int) -> T
    decreases chunks,
{
    if chunks <= 0 {
        n.zero
    } else {
        let i = (chunks - 1) * 8 + k;
        n.plus(lane(n, u, x, chunks - 1, k), n.times(u[i], x[i]))
    }
}

/// `start` with the products from `from` up to `to` added one by one.
pub open spec fn chain<T>(n: Num<T>, start: T, u: Seq<T>, x: Seq<T>, from: int, to: int) -> T
    decreases to - from,
{
    if to <= from {
        start
    } else {
        n.plus(chain(n, start, u, x, from, to - 1), n.times(u[to - 1], x[to - 1]))
    }
}

/// The dot product in lanes: eight partial sums, their sum, and what is left
/// over behind the last full run.
pub open spec fn dot_in_lanes<T>(n: Num<T>, u: Seq<T>, x: Seq<T>) -> T {
    let chunks = u.len() as int / 8;
    let lanes = Seq::new(8, |k: int| lane(n, u, x, chunks, k));
    chain(n, sum(n, lanes), u, x, chunks * 8, u.len() as int)
}

/// The dot product with one running sum.
pub open spec fn dot_in_order<T>(n: Num<T>, u: Seq<T>, x: Seq<T>) -> T {
    chain(n, n.zero, u, x, 0, u.len() as int)
}

fn sum_lanes<
    U: Fn(Unary, u32) -> u32 + Sync,
    B: Fn(Binary, u32, u32) -> u32 + Sync,
    C: Fn(usize) -> u32 + Sync,
>(ar: &Arith<U, B, C>, lanes: &[u32; 8]) -> (r: u32)
    requires
        ar.wf(),
    ensures
        r == sum(ar@, lanes@),
{
    let mut s: u32 = 0;
    let mut k: usize = 0;
    assert(lanes@.take(0) =~= Seq::<u32>::empty());
    while k < 8
        invariant
            k <= 8,
            ar.wf(),
            s == sum(ar@, lanes@.take(k as int)),
        decreases 8 - k,
    {
        proof {
            let t = lanes@.take(k + 1);
            assert(t.drop_last() =~= lanes@.take(k as int));
            assert(t.last() == lanes@[k as int]);
        }
        s = ar.add(s, lanes[k]);
        k = k + 1;
    }
    assert(lanes@.take(8) =~= lanes@);
    s
}

/// The dot product of a decoded group, in lanes.
pub fn group_dot_lanes<
    U: Fn(Unary, u32) -> u32 + Sync,
    B: Fn(Binary, u32, u32) -> u32 + Sync,
    C: Fn(usize) -> u32 + Sync,
>(ar: &Arith<U, B, C>, u: &[u32], x: &[u32]) -> (r: u32)
    requires
        ar.wf(),
        u@.len() == x@.len(),
    ensures
        r == dot_in_lanes(ar@, u@, x@),
{
    let len: usize = u.len();
    let chunks: usize = len / 8;
    let mut lanes: [u32; 8] = [0, 0, 0, 0, 0, 0, 0, 0];
    let mut c: usize = 0;
    while c < chunks
        invariant
            c <= chunks,
            chunks == len / 8,
            len == u@.len(),
            u@.len() == x@.len(),
            ar.wf(),
            forall|k: int|
                0 <= k < 8 ==> #[trigger] lanes@[k] == lane(ar@, u@, x@, c as int, k),
        decreases chunks - c,
    {
        let ghost before = lanes@;
        let mut k: usize = 0;
        while k < 8
            invariant
                k <= 8,
                c < chunks,
                chunks == len / 8,
                len == u@.len(),
                u@.len() == x@.len(),
                ar.wf(),
                before.len() == 8,
                forall|j: int|
                    0 <= j < 8 ==> #[trigger] before[j] == lane(ar@, u@, x@, c as int, j),
                forall|j: int|
                    0 <= j < k ==> #[trigger] lanes@[j] == lane(ar@, u@, x@, c + 1, j),
                forall|j: int| k <= j < 8 ==> #[trigger] lanes@[j] == before[j],
            decreases 8 - k,
        {
            let i: usize = c * 8 + k;
            let v: u32 = ar.mul_add(lanes[k], u[i], x[i]);
            assert(v == lane(ar@, u@, x@, c + 1, k as int)) by {
                assert(lanes@[k as int] == before[k as int]);
            }
            lanes[k] = v;
            k = k + 1;
        }
        c = c + 1;
    }
    let mut s: u32 = sum_lanes(ar, &lanes);
    assert(lanes@ =~= Seq::new(8, |k: int| lane(ar@, u@, x@, chunks as int, k)));
    let ghost start = s;
    let mut k: usize = chunks * 8;
    while k < len
        invariant
            chunks * 8 <= k <= len,
            len == u@.len(),
            u@.len() == x@.len(),
            ar.wf(),
            s == chain(ar@, start, u@, x@, chunks * 8, k as int),
        decreases len - k,
    {
        s = ar.mul_add(s, u[k], x[k]);
        k = k + 1;
    }
    s
}

/// The dot product of a decoded group, with one running sum.
pub fn group_dot_serial<
    U: Fn(Unary, u32) -> u32 + Sync,
    B: Fn(Binary, u32, u32) -> u32 + Sync,
    C: Fn(usize) -> u32 + Sync,
>(ar: &Arith<U, B, C>, u: &[u32], x: &[u32]) -> (r: u32)
    requires
        ar.wf(),
        u@.len() == x@.len(),
    ensures
        r == dot_in_order(ar@, u@, x@),
{
    let len: usize = u.len();
    let mut s: u32 = 0;
    let mut k: usize = 0;
    while k < len
        invariant
            k <= len,
            len == u@.len(),
            u@.len() == x@.len(),
            ar.wf(),
            s == chain(ar@, 0, u@, x@, 0, k as int),
        decreases len - k,
    {
        s = ar.mul_add(s, u[k], x[k]);
        k = k + 1;
    }
    s
}

/// What a run of packed bytes decodes to with a table of `p` entries for every
/// byte value.
pub open spec fn unpacked<T>(table: Seq<T>, bytes: Seq<u8>, p: int) -> Seq<T> {
    Seq::new((bytes.len() * p) as nat, |i: int| table[bytes[i / p] as int * p + i % p])
}

proof fn lemma_unpacked(table: Seq<u32>, bytes: Seq<u8>, p: int, b: int, k: int)
    requires
        p == 2 || p == 4,
        0 <= b < bytes.len(),
        0 <= k < p,
    ensures
        b * p + k < bytes.len() * p,
        unpacked(table, bytes, p)[b * p + k] == table[bytes[b] as int * p + k],
{
    let i = b * p + k;
    assert(i / p == b && i % p == k);
}

/// The dot product of a packed group read through its decode table, in lanes.
/// The table has `p` entries for every byte value.
pub fn dot_group<
    U: Fn(Unary, u32) -> u32 + Sync,
    B: Fn(Binary, u32, u32) -> u32 + Sync,
    C: Fn(usize) -> u32 + Sync,
>(ar: &Arith<U, B, C>, table: &[u32], p: usize, bytes: &[u8], x: &[u32]) -> (r: u32)
    requires
        ar.wf(),
        p == 2 || p == 4,
        table@.len() == 256 * p,
        x@.len() == bytes@.len() * p,
    ensures
        r == dot_in_lanes(ar@, unpacked(table@, bytes@, p as int), x@),
{
    let ghost u = unpacked(table@, bytes@, p as int);
    let nb: usize = bytes.len();
    let total: usize = x.len();
    let per: usize = 8 / p;
    let runs: usize = nb / per;
    let mut lanes: [u32; 8] = [0, 0, 0, 0, 0, 0, 0, 0];
    let mut c: usize = 0;
    while c < runs
        invariant
            c <= runs,
            p == 2 || p == 4,
            (p == 2 && per == 4) || (p == 4 && per == 2),
            runs == nb / per,
            nb == bytes@.len(),
            table@.len() == 256 * p,
            total == x@.len(),
            x@.len() == nb * p,
            u == unpacked(table@, bytes@, p as int),
            ar.wf(),
            forall|k: int| 0 <= k < 8 ==> #[trigger] lanes@[k] == lane(ar@, u, x@, c as int, k),
        decreases runs - c,
    {
        let ghost before = lanes@;
        let mut k: usize = 0;
        while k < 8
            invariant
                k <= 8,
                c < runs,
                p == 2 || p == 4,
                (p == 2 && per == 4) || (p == 4 && per == 2),
                runs == nb / per,
                nb == bytes@.len(),
                table@.len() == 256 * p,
                total == x@.len(),
                x@.len() == nb * p,
                u == unpacked(table@, bytes@, p as int),
                ar.wf(),
                before.len() == 8,
                forall|j: int|
                    0 <= j < 8 ==> #[trigger] before[j] == lane(ar@, u, x@, c as int, j),
                forall|j: int|
                    0 <= j < k ==> #[trigger] lanes@[j] == lane(ar@, u, x@, c + 1, j),
                forall|j: int| k <= j < 8 ==> #[trigger] lanes@[j] == before[j],
            decreases 8 - k,
        {
            assert(c * per + per <= nb) by {
                assert(per == 4 ==> c * 4 + 4 <= nb);
                assert(per == 2 ==> c * 2 + 2 <= nb);
            }
            let b: usize = c * per + k / p;
            let e: usize = k % p;
            proof {
                if p == 2 {
                    assert(b == c * 4 + k / 2 && e == k % 2);
                    assert(b * p + e == c * 8 + k && b < nb);
                } else {
                    assert(b == c * 2 + k / 4 && e == k % 4);
                    assert(b * p + e == c * 8 + k && b < nb);
                }
                lemma_unpacked(table@, bytes@, p as int, b as int, e as int);
            }
            let v: u32 = ar.mul_add(lanes[k], table[bytes[b] as usize * p + e], x[c * 8 + k]);
            assert(v == lane(ar@, u, x@, c + 1, k as int)) by {
                assert(lanes@[k as int] == before[k as int]);
            }
            lanes[k] = v;
            k = k + 1;
        }
        c = c + 1;
    }
    let mut s: u32 = sum_lanes(ar, &lanes);
    assert(lanes@ =~= Seq::new(8, |k: int| lane(ar@, u, x@, runs as int, k)));
    let ghost start = s;
    proof {
        assert(p == 2 ==> total == nb * 2 && runs == nb / 4);
        assert(p == 4 ==> total == nb * 4 && runs == nb / 2);
        assert(runs * 8 <= total && runs == total as int / 8);
    }
    let first: usize = runs * 8;
    let mut i: usize = first;
    while i < total
        invariant
            first <= i <= total,
            p == 2 || p == 4,
            nb == bytes@.len(),
            table@.len() == 256 * p,
            total == x@.len(),
            x@.len() == nb * p,
            u == unpacked(table@, bytes@, p as int),
            ar.wf(),
            s == chain(ar@, start, u, x@, first as int, i as int),
        decreases total - i,
    {
        let b: usize = i / p;
        let e: usize = i % p;
        proof {
            assert(b * p + e == i) by {
                assert(p == 2 ==> b * 2 + e == i);
                assert(p == 4 ==> b * 4 + e == i);
            }
            lemma_unpacked(table@, bytes@, p as int, b as int, e as int);
        }
        s = ar.mul_add(s, table[bytes[b] as usize * p + e], x[i]);
        i = i + 1;
    }
    s
}

/// The dot product of a packed group read through its decode table, with one
/// running sum.
pub fn dot_group_serial<
    U: Fn(Unary, u32) -> u32 + Sync,
    B: Fn(Binary, u32, u32) -> u32 + Sync,
    C: Fn(usize) -> u32 + Sync,
>(ar: &Arith<U, B, C>, table: &[u32], p: usize, bytes: &[u8], x: &[u32]) -> (r: u32)
    requires
        ar.wf(),
        p == 2 || p == 4,
        table@.len() == 256 * p,
        x@.len() == bytes@.len() * p,
    ensures
        r == dot_in_order(ar@, unpacked(table@, bytes@, p as int), x@),
{
    let ghost u = unpacked(table@, bytes@, p as int);
    let total: usize = x.len();
    let mut s: u32 = 0;
    let mut i: usize = 0;
    while i < total
        invariant
            i <= total,
            p == 2 || p == 4,
            table@.len() == 256 * p,
            total == x@.len(),
            x@.len() == bytes@.len() * p,
            u == unpacked(table@, bytes@, p as int),
            ar.wf(),
            s == chain(ar@, 0, u, x@, 0, i as int),
        decreases total - i,
    {
        let b: usize = i / p;
        let e: usize = i % p;
        proof {
            assert(b * p + e == i) by {
                assert(p == 2 ==> b * 2 + e == i);
                assert(p == 4 ==> b * 4 + e == i);
            }
            lemma_unpacked(table@, bytes@, p as int, b as int, e as int);
        }
        s = ar.mul_add(s, table[bytes[b] as usize * p + e], x[i]);
        i = i + 1;
    }
    s
}

proof fn lemma_chain_joins(start: int, u: Seq<int>, x: Seq<int>, from: int, mid: int, to: int)
    requires
        from <= mid <= to,
    ensures
        chain(integers(), chain(integers(), start, u, x, from, mid), u, x, mid, to) == chain(
            integers(),
            start,
            u,
            x,
            from,
            to,
        ),
    decreases to - mid,
{
    if mid < to {
        lemma_chain_joins(start, u, x, from, mid, to - 1);
    }
}

proof fn lemma_lanes_sum(u: Seq<int>, x: Seq<int>, chunks: int)
    requires
        0 <= chunks,
    ensures
        sum(integers(), Seq::new(8, |k: int| lane(integers(), u, x, chunks, k))) == chain(
            integers(),
            0,
            u,
            x,
            0,
            chunks * 8,
        ),
    decreases chunks,
{
    let n = integers();
    let now = Seq::new(8, |k: int| lane(n, u, x, chunks, k));
    lemma_sum_of_eight(now);
    if chunks > 0 {
        let before = Seq::new(8, |k: int| lane(n, u, x, chunks - 1, k));
        lemma_sum_of_eight(before);
        lemma_lanes_sum(u, x, chunks - 1);
        let b = (chunks - 1) * 8;
        lemma_chain_joins(0, u, x, 0, b, b + 8);
        assert forall|k: int| 0 <= k < 8 implies #[trigger] now[k] == before[k] + u[b + k] * x[b
            + k] by {}
        reveal_with_fuel(chain, 9);
    }
}

proof fn lemma_sum_of_eight(s: Seq<int>)
    requires
        s.len() == 8,
    ensures
        sum(integers(), s) == s[0] + s[1] + s[2] + s[3] + s[4] + s[5] + s[6] + s[7],
{
    reveal_with_fuel(sum, 9);
}

/// Keeping the sum in lanes only reorders it: where addition is exact, the dot
/// product in lanes is the dot product in order.
pub proof fn law_lanes_only_reorder_the_sum(u: Seq<int>, x: Seq<int>)
    ensures
        dot_in_lanes(integers(), u, x) == dot_in_order(integers(), u, x),
{
    let chunks = u.len() as int / 8;
    lemma_lanes_sum(u, x, chunks);
    lemma_chain_joins(0, u, x, 0, chunks * 8, u.len() as int);
}

} // verus!
