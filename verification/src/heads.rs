//! Probe heads: contrastive retrieval and confidence.
//!
//! A head pools over cells, which are the scaled embedding and the lane mean
//! after every layer, at every position. Each probe keeps a running maximum of
//! its scores, so that the weighted sum stays in range while cells stream in.

use crate::arith::{Arith, Binary, Num, Unary, ONE};
use crate::bits::{f32_greater, f32_gt, f32_nan, NEG_INFINITY};
use crate::cq::copy_words;
use crate::dot::{dot_in_order, group_dot_serial, sum};
use crate::kernels::squares;
use crate::model::{is_product, is_product3};
use crate::state::filled_cells;
use vstd::prelude::*;

verus! {

/// Bits of the float 1e-12, which keeps unit lengths finite.
pub const L2_EPS: u32 = 0x2B8C_BCCC;

/// The maximum after the score `z`.
pub open spec fn raised(z: u32, m: u32) -> u32 {
    if f32_greater(z, m) {
        z
    } else {
        m
    }
}

/// The maximum of a probe after the scores.
pub open spec fn running_max(scores: Seq<u32>) -> u32
    decreases scores.len(),
{
    if scores.len() == 0 {
        NEG_INFINITY
    } else {
        raised(scores.last(), running_max(scores.drop_last()))
    }
}

/// The running maximum is the largest score so far: it is one of them, or
/// negative infinity, and no score is above it.
pub proof fn law_running_max_is_the_largest(scores: Seq<u32>)
    ensures
        running_max(scores) == NEG_INFINITY || scores.contains(running_max(scores)),
        !f32_nan(running_max(scores)),
        forall|i: int| 0 <= i < scores.len() ==> !f32_greater(#[trigger] scores[i], running_max(scores)),
    decreases scores.len(),
{
    if scores.len() > 0 {
        let before = scores.drop_last();
        law_running_max_is_the_largest(before);
        let m = running_max(before);
        if before.contains(m) {
            let j = choose|j: int| 0 <= j < before.len() && before[j] == m;
            assert(scores[j] == m);
        }
        assert(scores[scores.len() - 1] == scores.last());
        assert forall|i: int| 0 <= i < scores.len() implies !f32_greater(
            #[trigger] scores[i],
            running_max(scores),
        ) by {
            if i < scores.len() - 1 {
                assert(scores[i] == before[i]);
            }
        }
    }
}

/// The accumulators of one probe.
#[verifier::ext_equal]
pub struct ProbeState {
    /// The largest score.
    pub m: u32,
    /// The sum of the weights.
    pub s: u32,
    /// The weighted sum of the cells.
    pub acc: Seq<u32>,
}

/// The score of a cell for a probe.
pub open spec fn cell_score(n: Num<u32>, probe: Seq<u32>, cell: Seq<u32>) -> u32 {
    n.over(dot_in_order(n, cell, probe), n.root(n.number(probe.len() as int)))
}

/// The factor on what was summed before a score.
pub open spec fn rescale(n: Num<u32>, z: u32, m: u32) -> u32 {
    if m == NEG_INFINITY {
        n.zero
    } else {
        n.exponential(n.minus(m, z))
    }
}

/// The accumulators of a probe after one more cell. A score above the maximum
/// scales down what was summed before.
pub open spec fn probe_after(
    n: Num<u32>,
    p: ProbeState,
    probe: Seq<u32>,
    cell: Seq<u32>,
) -> ProbeState {
    let z = cell_score(n, probe, cell);
    let raise = f32_greater(z, p.m);
    let r = rescale(n, z, p.m);
    let s = if raise {
        n.times(p.s, r)
    } else {
        p.s
    };
    let acc = if raise {
        p.acc.map_values(|v: u32| n.times(v, r))
    } else {
        p.acc
    };
    let m = raised(z, p.m);
    let w = n.exponential(n.minus(z, m));
    ProbeState {
        m,
        s: n.plus(s, w),
        acc: Seq::new(acc.len(), |i: int| n.plus(acc[i], n.times(w, cell[i]))),
    }
}

/// The accumulators of a probe before any cell.
pub open spec fn probe_start(d: int) -> ProbeState {
    ProbeState { m: NEG_INFINITY, s: 0, acc: Seq::new(d as nat, |i: int| 0u32) }
}

/// The accumulators of a probe after the cells.
pub open spec fn probe_over(n: Num<u32>, probe: Seq<u32>, cells: Seq<Seq<u32>>) -> ProbeState
    decreases cells.len(),
{
    if cells.len() == 0 {
        probe_start(probe.len() as int)
    } else {
        probe_after(n, probe_over(n, probe, cells.drop_last()), probe, cells.last())
    }
}

/// What a probe pools from the cells.
pub open spec fn probe_pooled(n: Num<u32>, probe: Seq<u32>, cells: Seq<Seq<u32>>) -> Seq<u32> {
    let p = probe_over(n, probe, cells);
    p.acc.map_values(|v: u32| n.times(v, n.over(n.one, p.s)))
}

/// The scores of the cells for a probe.
pub open spec fn cell_scores(n: Num<u32>, probe: Seq<u32>, cells: Seq<Seq<u32>>) -> Seq<u32> {
    cells.map_values(|c: Seq<u32>| cell_score(n, probe, c))
}

/// The maximum that a probe keeps is the largest of its scores.
pub proof fn law_pool_keeps_the_largest_score(
    n: Num<u32>,
    probe: Seq<u32>,
    cells: Seq<Seq<u32>>,
)
    ensures
        probe_over(n, probe, cells).m == running_max(cell_scores(n, probe, cells)),
        forall|i: int|
            0 <= i < cells.len() ==> !f32_greater(
                cell_score(n, probe, #[trigger] cells[i]),
                probe_over(n, probe, cells).m,
            ),
    decreases cells.len(),
{
    let scores = cell_scores(n, probe, cells);
    if cells.len() > 0 {
        law_pool_keeps_the_largest_score(n, probe, cells.drop_last());
        assert(scores.drop_last() =~= cell_scores(n, probe, cells.drop_last()));
    }
    law_running_max_is_the_largest(scores);
    assert forall|i: int| 0 <= i < cells.len() implies !f32_greater(
        cell_score(n, probe, #[trigger] cells[i]),
        probe_over(n, probe, cells).m,
    ) by {
        assert(scores[i] == cell_score(n, probe, cells[i]));
    }
}

/// Pooling over cells, one accumulator for each probe.
pub struct ProbePool {
    pub num_probes: usize,
    pub d: usize,
    /// `[num_probes * d]`.
    pub probes: Vec<u32>,
    /// Largest score of every probe.
    pub m: Vec<u32>,
    /// Sum of the weights of every probe.
    pub s: Vec<u32>,
    /// Weighted sum of the cells of every probe.
    pub acc: Vec<Vec<u32>>,
    pub cells: usize,
}

/// What is wrong with a probe matrix, if anything is.
pub open spec fn pool_fault(len: int, num_probes: int, d: int) -> Option<&'static str> {
    if num_probes == 0 || d == 0 {
        Some("probe pool needs a non-empty probe matrix")
    } else if len != num_probes * d {
        Some("probe matrix length does not match num_probes * d")
    } else {
        None
    }
}

/// Probe `k` of a probe matrix.
pub open spec fn probe_row(probes: Seq<u32>, k: int, d: int) -> Seq<u32> {
    probes.subrange(k * d, k * d + d)
}

/// The pooled vectors of the first `k` probes, one behind the other.
pub open spec fn pooled_of(
    n: Num<u32>,
    probes: Seq<u32>,
    d: int,
    cells: Seq<Seq<u32>>,
    k: int,
) -> Seq<u32>
    decreases k,
{
    if k <= 0 {
        Seq::empty()
    } else {
        pooled_of(n, probes, d, cells, k - 1) + probe_pooled(
            n,
            probe_row(probes, k - 1, d),
            cells,
        )
    }
}

proof fn lemma_probe_row(k: int, n: int, d: int)
    requires
        0 <= k < n,
        0 <= d,
    ensures
        0 <= k * d,
        k * d + d <= n * d,
{
    assert(0 <= k * d && k * d + d <= n * d) by (nonlinear_arith)
        requires
            0 <= k,
            k + 1 <= n,
            0 <= d,
    ;
}

impl ProbePool {
    /// Well-formedness: the buffers have the sizes of the probe matrix.
    pub open spec fn wf(&self) -> bool {
        &&& self.num_probes > 0
        &&& self.d > 0
        &&& self.probes@.len() == self.num_probes * self.d
        &&& self.m@.len() == self.num_probes
        &&& self.s@.len() == self.num_probes
        &&& self.acc@.len() == self.num_probes
        &&& forall|k: int| 0 <= k < self.num_probes ==> (#[trigger] self.acc@[k])@.len() == self.d
    }

    /// The accumulators of a probe.
    pub open spec fn state(&self, k: int) -> ProbeState {
        ProbeState { m: self.m@[k], s: self.s@[k], acc: self.acc@[k]@ }
    }

    /// The pool has taken in the cells.
    pub open spec fn holds(&self, n: Num<u32>, cells: Seq<Seq<u32>>) -> bool {
        &&& self.wf()
        &&& self.cells == cells.len()
        &&& forall|k: int|
            0 <= k < self.num_probes ==> #[trigger] self.state(k) == probe_over(
                n,
                probe_row(self.probes@, k, self.d as int),
                cells,
            )
    }

    /// A pool over a row-major probe matrix.
    pub fn new(probes: &[u32], num_probes: usize, d: usize) -> (r: Result<ProbePool, &'static str>)
        ensures
            match pool_fault(probes@.len() as int, num_probes as int, d as int) {
                Some(e) => r is Err && r->Err_0 == e,
                None => {
                    &&& r is Ok
                    &&& forall|n: Num<u32>| #[trigger] r->Ok_0.holds(n, Seq::empty())
                    &&& r->Ok_0.probes@ == probes@
                    &&& r->Ok_0.num_probes == num_probes
                    &&& r->Ok_0.d == d
                },
            },
    {
        if num_probes == 0 || d == 0 {
            return Err("probe pool needs a non-empty probe matrix");
        }
        if !is_product(probes.len(), num_probes, d) {
            return Err("probe matrix length does not match num_probes * d");
        }
        let mut pool = ProbePool {
            num_probes,
            d,
            probes: copy_words(probes),
            m: Vec::new(),
            s: Vec::new(),
            acc: Vec::new(),
            cells: 0,
        };
        pool.clear();
        Ok(pool)
    }

    /// Empty accumulators for every probe.
    fn clear(&mut self)
        requires
            old(self).num_probes > 0,
            old(self).d > 0,
            old(self).probes@.len() == old(self).num_probes * old(self).d,
        ensures
            final(self).probes == old(self).probes,
            final(self).num_probes == old(self).num_probes,
            final(self).d == old(self).d,
            forall|n: Num<u32>| #[trigger] final(self).holds(n, Seq::empty()),
    {
        let mut acc: Vec<Vec<u32>> = Vec::new();
        let mut k: usize = 0;
        while k < self.num_probes
            invariant
                k <= self.num_probes,
                acc@.len() == k,
                forall|j: int|
                    0 <= j < k ==> (#[trigger] acc@[j])@ == Seq::new(
                        self.d as nat,
                        |i: int| 0u32,
                    ),
            decreases self.num_probes - k,
        {
            acc.push(filled_cells(0u32, self.d));
            k = k + 1;
        }
        self.m = filled_cells(NEG_INFINITY, self.num_probes);
        self.s = filled_cells(0u32, self.num_probes);
        self.acc = acc;
        self.cells = 0;
        proof {
            assert forall|n: Num<u32>| #[trigger] self.holds(n, Seq::empty()) by {
                let none = Seq::<Seq<u32>>::empty();
                assert forall|k: int| 0 <= k < self.num_probes implies #[trigger] self.state(k)
                    == probe_over(n, probe_row(self.probes@, k, self.d as int), none) by {
                    lemma_probe_row(k, self.num_probes as int, self.d as int);
                    let start = probe_start(self.d as int);
                    assert(self.state(k) =~= start);
                }
            }
        }
    }

    /// Number of probes.
    pub fn num_probes(&self) -> (n: usize)
        ensures
            n == self.num_probes,
    {
        self.num_probes
    }

    /// Width of the pooled output.
    pub fn pooled_len(&self) -> (n: usize)
        requires
            self.wf(),
        ensures
            n == self.num_probes * self.d,
    {
        let total: usize = self.probes.len();
        self.num_probes * self.d
    }

    /// Cells taken in so far.
    pub fn cells(&self) -> (n: usize)
        ensures
            n == self.cells,
    {
        self.cells
    }

    /// Take in one cell.
    pub fn push<
        U: Fn(Unary, u32) -> u32 + Sync,
        B: Fn(Binary, u32, u32) -> u32 + Sync,
        C: Fn(usize) -> u32 + Sync,
    >(&mut self, ar: &Arith<U, B, C>, cell: &[u32])
        requires
            ar.wf(),
            old(self).wf(),
            old(self).cells < usize::MAX,
            cell@.len() == old(self).d,
        ensures
            final(self).wf(),
            final(self).cells == old(self).cells + 1,
            final(self).probes == old(self).probes,
            final(self).num_probes == old(self).num_probes,
            final(self).d == old(self).d,
            forall|k: int|
                0 <= k < old(self).num_probes ==> #[trigger] final(self).state(k) == probe_after(
                    ar@,
                    old(self).state(k),
                    probe_row(old(self).probes@, k, old(self).d as int),
                    cell@,
                ),
            forall|cells: Seq<Seq<u32>>| #[trigger]
                old(self).holds(ar@, cells) ==> final(self).holds(ar@, cells.push(cell@)),
    {
        let ghost before = *self;
        let d: usize = self.d;
        let total: usize = self.probes.len();
        let mut k: usize = 0;
        while k < self.num_probes
            invariant
                k <= self.num_probes,
                ar.wf(),
                self.wf(),
                before.wf(),
                self.probes == before.probes,
                self.num_probes == before.num_probes,
                self.d == before.d,
                self.cells == before.cells,
                d == self.d,
                total == self.probes@.len(),
                cell@.len() == d,
                forall|j: int|
                    0 <= j < k ==> #[trigger] self.state(j) == probe_after(
                        ar@,
                        before.state(j),
                        probe_row(before.probes@, j, d as int),
                        cell@,
                    ),
                forall|j: int| k <= j < self.num_probes ==> #[trigger] self.state(j) == before.state(j),
            decreases self.num_probes - k,
        {
            proof {
                lemma_probe_row(k as int, self.num_probes as int, d as int);
                assert(self.state(k as int) == before.state(k as int));
            }
            let ghost mid = *self;
            let probe = vstd::slice::slice_subrange(
                self.probes.as_slice(),
                k * d,
                k * d + d,
            );
            let dot: u32 = group_dot_serial(ar, cell, probe);
            let z: u32 = ar.div(dot, ar.sqrt(ar.number(d)));
            let m: u32 = self.m[k];
            let raise: bool = f32_gt(z, m);
            let r: u32 = if m == NEG_INFINITY {
                0
            } else {
                ar.exp(ar.sub(m, z))
            };
            let top: u32 = if raise {
                z
            } else {
                m
            };
            let w: u32 = ar.exp(ar.sub(z, top));
            let s: u32 = if raise {
                ar.mul(self.s[k], r)
            } else {
                self.s[k]
            };
            let mut acc: Vec<u32> = Vec::new();
            let mut i: usize = 0;
            while i < d
                invariant
                    i <= d,
                    ar.wf(),
                    self.wf(),
                    k < self.num_probes,
                    d == self.d,
                    cell@.len() == d,
                    *self == mid,
                    acc@.len() == i,
                    forall|j: int|
                        0 <= j < i ==> #[trigger] acc@[j] == ar@.plus(
                            if raise {
                                ar@.times(mid.acc@[k as int]@[j], r)
                            } else {
                                mid.acc@[k as int]@[j]
                            },
                            ar@.times(w, cell@[j]),
                        ),
                decreases d - i,
            {
                assert(self.acc@[k as int]@.len() == d);
                let a: u32 = if raise {
                    ar.mul(self.acc[k][i], r)
                } else {
                    self.acc[k][i]
                };
                acc.push(ar.mul_add(a, w, cell[i]));
                i = i + 1;
            }
            let total_s: u32 = ar.add(s, w);
            self.m.set(k, top);
            self.s.set(k, total_s);
            self.acc.set(k, acc);
            proof {
                let want = probe_after(
                    ar@,
                    before.state(k as int),
                    probe_row(before.probes@, k as int, d as int),
                    cell@,
                );
                assert(self.acc@[k as int]@ =~= want.acc);
                assert(self.state(k as int) =~= want);
                assert forall|j: int| 0 <= j < self.num_probes && j != k implies #[trigger] self.state(
                    j,
                ) == mid.state(j) by {}
            }
            k = k + 1;
        }
        let ghost done = *self;
        self.cells = self.cells + 1;
        proof {
            assert forall|j: int| 0 <= j < before.num_probes implies #[trigger] self.state(j)
                == probe_after(
                ar@,
                before.state(j),
                probe_row(before.probes@, j, d as int),
                cell@,
            ) by {
                assert(self.state(j) == done.state(j));
            }
            assert forall|cells: Seq<Seq<u32>>| #[trigger] before.holds(
                ar@,
                cells,
            ) implies self.holds(ar@, cells.push(cell@)) by {
                let more = cells.push(cell@);
                assert(more.drop_last() =~= cells);
                assert forall|j: int| 0 <= j < self.num_probes implies #[trigger] self.state(j)
                    == probe_over(ar@, probe_row(self.probes@, j, self.d as int), more) by {
                    assert(before.state(j) == probe_over(
                        ar@,
                        probe_row(before.probes@, j, before.d as int),
                        cells,
                    ));
                }
            }
        }
    }

    /// The pooled vectors of all probes, one behind the other. There must be a
    /// cell.
    pub fn pooled<
        U: Fn(Unary, u32) -> u32 + Sync,
        B: Fn(Binary, u32, u32) -> u32 + Sync,
        C: Fn(usize) -> u32 + Sync,
    >(&self, ar: &Arith<U, B, C>) -> (r: Result<Vec<u32>, &'static str>)
        requires
            ar.wf(),
            self.wf(),
        ensures
            self.cells == 0 ==> r is Err && r->Err_0 == "probe pool received no cells",
            self.cells > 0 ==> r is Ok && r->Ok_0@.len() == self.num_probes * self.d,
            self.cells > 0 ==> forall|cells: Seq<Seq<u32>>| #[trigger]
                self.holds(ar@, cells) ==> r->Ok_0@ == pooled_of(
                    ar@,
                    self.probes@,
                    self.d as int,
                    cells,
                    self.num_probes as int,
                ),
    {
        if self.cells == 0 {
            return Err("probe pool received no cells");
        }
        let d: usize = self.d;
        let mut out: Vec<u32> = Vec::new();
        let mut k: usize = 0;
        while k < self.num_probes
            invariant
                k <= self.num_probes,
                ar.wf(),
                self.wf(),
                d == self.d,
                out@.len() == k * d,
                forall|cells: Seq<Seq<u32>>| #[trigger]
                    self.holds(ar@, cells) ==> out@ == pooled_of(
                        ar@,
                        self.probes@,
                        d as int,
                        cells,
                        k as int,
                    ),
            decreases self.num_probes - k,
        {
            let inv: u32 = ar.div(ONE, self.s[k]);
            let ghost before = out@;
            let ghost own = self.acc@[k as int]@.map_values(|v: u32| ar@.times(v, inv));
            let mut i: usize = 0;
            assert(own.take(0) =~= Seq::<u32>::empty());
            assert(before + own.take(0) =~= before);
            while i < d
                invariant
                    i <= d,
                    k < self.num_probes,
                    ar.wf(),
                    self.wf(),
                    d == self.d,
                    own == self.acc@[k as int]@.map_values(|v: u32| ar@.times(v, inv)),
                    out@ == before + own.take(i as int),
                decreases d - i,
            {
                assert(self.acc@[k as int]@.len() == d);
                out.push(ar.mul(self.acc[k][i], inv));
                i = i + 1;
                assert(out@ =~= before + own.take(i as int));
            }
            proof {
                assert(self.acc@[k as int]@.len() == d);
                assert(own.take(d as int) =~= own);
                assert((k + 1) * d == k * d + d) by (nonlinear_arith);
                assert forall|cells: Seq<Seq<u32>>| #[trigger] self.holds(ar@, cells) implies out@
                    == pooled_of(ar@, self.probes@, d as int, cells, k + 1) by {
                    let row = probe_row(self.probes@, k as int, d as int);
                    assert(self.state(k as int) == probe_over(ar@, row, cells));
                    assert(own =~= probe_pooled(ar@, row, cells));
                }
            }
            k = k + 1;
        }
        Ok(out)
    }

    /// Start over, with the same probe matrix.
    pub fn reset(&mut self)
        requires
            old(self).wf(),
        ensures
            final(self).probes == old(self).probes,
            final(self).num_probes == old(self).num_probes,
            final(self).d == old(self).d,
            forall|n: Num<u32>| #[trigger] final(self).holds(n, Seq::empty()),
    {
        self.clear();
    }
}

/// Weights of a head. Vectors are float bits.
pub struct ProbeHeadWeights {
    /// `HEAD_CONTRASTIVE` or `HEAD_CONFIDENCE`.
    pub code: u8,
    /// `[num_probes, d_model]`.
    pub probes: Vec<u32>,
    /// `[out_dim, num_probes * d_model]`.
    pub proj: Vec<u32>,
    /// `[out_dim]`.
    pub bias: Vec<u32>,
    pub num_probes: usize,
    pub out_dim: usize,
    pub d_model: usize,
}

/// What is wrong with the shapes of a head with buffers of these lengths, if
/// anything is.
pub open spec fn head_sizes_fault(
    probes: int,
    proj: int,
    bias: int,
    num_probes: int,
    out_dim: int,
    d_model: int,
) -> Option<&'static str> {
    if probes != num_probes * d_model {
        Some("head probes shape does not match num_probes * d_model")
    } else if proj != out_dim * num_probes * d_model {
        Some("head proj shape does not match out_dim * num_probes * d_model")
    } else if bias != out_dim {
        Some("head bias length does not match out_dim")
    } else {
        None
    }
}

/// What is wrong with a head's shapes, if anything is.
pub open spec fn head_shape_fault(h: ProbeHeadWeights) -> Option<&'static str> {
    head_sizes_fault(
        h.probes@.len() as int,
        h.proj@.len() as int,
        h.bias@.len() as int,
        h.num_probes as int,
        h.out_dim as int,
        h.d_model as int,
    )
}

impl ProbeHeadWeights {
    /// Check the shapes.
    pub fn validate(&self) -> (r: Result<(), &'static str>)
        ensures
            match head_shape_fault(*self) {
                Some(e) => r is Err && r->Err_0 == e,
                None => r is Ok,
            },
    {
        if !is_product(self.probes.len(), self.num_probes, self.d_model) {
            return Err("head probes shape does not match num_probes * d_model");
        }
        if !is_product3(self.proj.len(), self.out_dim, self.num_probes, self.d_model) {
            return Err("head proj shape does not match out_dim * num_probes * d_model");
        }
        if self.bias.len() != self.out_dim {
            return Err("head bias length does not match out_dim");
        }
        Ok(())
    }

    /// An empty pool over the head's probes.
    pub fn pool(&self) -> (r: Result<ProbePool, &'static str>)
        ensures
            match pool_fault(
                self.probes@.len() as int,
                self.num_probes as int,
                self.d_model as int,
            ) {
                Some(e) => r is Err && r->Err_0 == e,
                None => {
                    &&& r is Ok
                    &&& forall|n: Num<u32>| #[trigger] r->Ok_0.holds(n, Seq::empty())
                    &&& r->Ok_0.probes@ == self.probes@
                    &&& r->Ok_0.num_probes == self.num_probes
                    &&& r->Ok_0.d == self.d_model
                },
            },
    {
        ProbePool::new(self.probes.as_slice(), self.num_probes, self.d_model)
    }

    /// Output `o` of the projection of a pooled vector.
    pub open spec fn output(&self, n: Num<u32>, pooled: Seq<u32>, o: int) -> u32 {
        let w = self.num_probes * self.d_model;
        n.plus(
            dot_in_order(n, self.proj@.subrange(o * w, o * w + w), pooled),
            self.bias@[o],
        )
    }

    /// The projection of a pooled vector.
    pub open spec fn projected(&self, n: Num<u32>, pooled: Seq<u32>) -> Seq<u32> {
        Seq::new(self.out_dim as nat, |o: int| self.output(n, pooled, o))
    }

    /// The projection of a pooled vector, scaled to unit length.
    pub open spec fn projected_unit(&self, n: Num<u32>, pooled: Seq<u32>) -> Seq<u32> {
        let out = self.projected(n, pooled);
        let inv = n.over(n.one, n.root(n.plus(sum(n, squares(n, out)), L2_EPS)));
        out.map_values(|v: u32| n.times(v, inv))
    }

    /// Project a pooled vector.
    pub fn project<
        U: Fn(Unary, u32) -> u32 + Sync,
        B: Fn(Binary, u32, u32) -> u32 + Sync,
        C: Fn(usize) -> u32 + Sync,
    >(&self, ar: &Arith<U, B, C>, pooled: &[u32]) -> (out: Vec<u32>)
        requires
            ar.wf(),
            head_shape_fault(*self) is None,
            pooled@.len() == self.num_probes * self.d_model,
        ensures
            out@ == self.projected(ar@, pooled@),
    {
        let w: usize = pooled.len();
        let total: usize = self.proj.len();
        let mut out: Vec<u32> = Vec::new();
        let mut o: usize = 0;
        while o < self.out_dim
            invariant
                o <= self.out_dim,
                ar.wf(),
                head_shape_fault(*self) is None,
                w == pooled@.len(),
                w == self.num_probes * self.d_model,
                total == self.proj@.len(),
                out@.len() == o,
                forall|j: int| 0 <= j < o ==> #[trigger] out@[j] == self.output(ar@, pooled@, j),
            decreases self.out_dim - o,
        {
            proof {
                lemma_probe_row(o as int, self.out_dim as int, w as int);
                assert(self.out_dim * self.num_probes * self.d_model == self.out_dim * (
                self.num_probes * self.d_model)) by (nonlinear_arith);
            }
            let row = vstd::slice::slice_subrange(self.proj.as_slice(), o * w, o * w + w);
            let dot: u32 = group_dot_serial(ar, row, pooled);
            out.push(ar.add(dot, self.bias[o]));
            o = o + 1;
        }
        assert(out@ =~= self.projected(ar@, pooled@));
        out
    }

    /// Project a pooled vector and scale it to unit length.
    pub fn project_normalized<
        U: Fn(Unary, u32) -> u32 + Sync,
        B: Fn(Binary, u32, u32) -> u32 + Sync,
        C: Fn(usize) -> u32 + Sync,
    >(&self, ar: &Arith<U, B, C>, pooled: &[u32]) -> (r: Vec<u32>)
        requires
            ar.wf(),
            head_shape_fault(*self) is None,
            pooled@.len() == self.num_probes * self.d_model,
        ensures
            r@ == self.projected_unit(ar@, pooled@),
    {
        let out = self.project(ar, pooled);
        let n: usize = out.len();
        let ghost sq = squares(ar@, out@);
        let mut s: u32 = 0;
        let mut i: usize = 0;
        assert(sq.take(0) =~= Seq::<u32>::empty());
        while i < n
            invariant
                i <= n,
                ar.wf(),
                n == out@.len(),
                sq == squares(ar@, out@),
                s == sum(ar@, sq.take(i as int)),
            decreases n - i,
        {
            proof {
                assert(sq.take(i + 1).drop_last() =~= sq.take(i as int));
                assert(sq.take(i + 1).last() == ar@.times(out@[i as int], out@[i as int]));
            }
            s = ar.add(s, ar.mul(out[i], out[i]));
            i = i + 1;
        }
        assert(sq.take(n as int) =~= sq);
        let inv: u32 = ar.div(ONE, ar.sqrt(ar.add(s, L2_EPS)));
        let mut r: Vec<u32> = Vec::new();
        let mut i: usize = 0;
        while i < n
            invariant
                i <= n,
                ar.wf(),
                n == out@.len(),
                r@.len() == i,
                forall|j: int| 0 <= j < i ==> #[trigger] r@[j] == ar@.times(out@[j], inv),
            decreases n - i,
        {
            r.push(ar.mul(out[i], inv));
            i = i + 1;
        }
        assert(r@ =~= self.projected_unit(ar@, pooled@));
        r
    }
}

} // verus!
