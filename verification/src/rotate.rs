//! Rotating activations into the domain of quantised weights, and rows of
//! weights back out of it.

use crate::arith::{Arith, Binary, Num, Unary};
use crate::cq::{copy_words, CqWeight};
use crate::hadamard::{fwht_normalized, transform_scaled};
use crate::matmul::product;
use vstd::arithmetic::div_mod::*;
use vstd::prelude::*;
use vstd::slice::slice_subrange;

verus! {

/// Group `g` of a padded vector.
pub open spec fn group_part(x: Seq<u32>, g: int, group: int) -> Seq<u32> {
    x.subrange(g * group, g * group + group)
}

/// Every group of a padded vector rotated.
pub open spec fn rotated(n: Num<u32>, x: Seq<u32>, group: int) -> Seq<u32> {
    Seq::new(x.len(), |i: int| transform_scaled(n, group_part(x, i / group, group))[i % group])
}

/// An activation laid out for a tensor, with the padded columns zero.
pub open spec fn padded(w: CqWeight, x: Seq<u32>) -> Seq<u32> {
    x + Seq::new((w.in_padded - w.in_feat) as nat, |i: int| 0u32)
}

/// An activation rotated into the domain of a tensor's weights.
pub open spec fn prepared(n: Num<u32>, w: CqWeight, x: Seq<u32>) -> Seq<u32> {
    rotated(n, padded(w, x), w.group as int)
}

proof fn lemma_group_at(g: int, k: int, group: int)
    requires
        0 <= g,
        0 <= k < group,
    ensures
        (g * group + k) / group == g,
        (g * group + k) % group == k,
{
    assert(g * group + k == group * g + k) by (nonlinear_arith);
    lemma_fundamental_div_mod_converse(g * group + k, group, g, k);
}

proof fn lemma_group_end(g: int, groups: int, group: int)
    requires
        0 <= g < groups,
        0 <= group,
    ensures
        0 <= g * group,
        g * group + group <= groups * group,
        (g + 1) * group == g * group + group,
{
    assert(0 <= g * group && g * group + group <= groups * group && (g + 1) * group == g * group
        + group) by (nonlinear_arith)
        requires
            0 <= g,
            g + 1 <= groups,
            0 <= group,
    ;
}

impl CqWeight {
    /// Rotate an activation of `in_feat` numbers into the domain of a tensor's
    /// weights.
    pub fn prepare_input<
        U: Fn(Unary, u32) -> u32 + Sync,
        B: Fn(Binary, u32, u32) -> u32 + Sync,
        C: Fn(usize) -> u32 + Sync,
    >(&self, ar: &Arith<U, B, C>, x: &[u32]) -> (xh: Vec<u32>)
        requires
            ar.wf(),
            self.wf(),
            x@.len() == self.in_feat,
        ensures
            xh@ == prepared(ar@, *self, x@),
            xh@.len() == self.in_padded,
    {
        let wide = self.pad_input(x);
        let ghost pad = padded(*self, x@);
        let total: usize = wide.len();
        let group: usize = self.group;
        proof {
            self.lemma_padding();
        }
        let mut xh: Vec<u32> = Vec::new();
        let mut g: usize = 0;
        while g < self.num_groups
            invariant
                g <= self.num_groups,
                ar.wf(),
                self.wf(),
                group == self.group,
                group > 0,
                wide@ == pad,
                total == wide@.len(),
                total == self.num_groups * group,
                xh@.len() == g * group,
                forall|i: int|
                    0 <= i < g * group ==> #[trigger] xh@[i] == rotated(ar@, pad, group as int)[i],
            decreases self.num_groups - g,
        {
            proof {
                lemma_group_end(g as int, self.num_groups as int, group as int);
            }
            let base: usize = g * group;
            let mut part: Vec<u32> = copy_words(
                slice_subrange(wide.as_slice(), base, base + group),
            );
            assert(part@ =~= group_part(pad, g as int, group as int));
            fwht_normalized(ar, &mut part);
            let ghost done = xh@;
            let mut k: usize = 0;
            while k < group
                invariant
                    k <= group,
                    group > 0,
                    g < self.num_groups,
                    base == g * group,
                    pad.len() == self.num_groups * group,
                    base + group <= pad.len(),
                    part@.len() == group,
                    part@ == transform_scaled(ar@, group_part(pad, g as int, group as int)),
                    xh@.len() == base + k,
                    forall|i: int|
                        0 <= i < base + k ==> #[trigger] xh@[i] == rotated(ar@, pad, group as int)[i],
                decreases group - k,
            {
                proof {
                    lemma_group_at(g as int, k as int, group as int);
                }
                xh.push(part[k]);
                k = k + 1;
            }
            g = g + 1;
        }
        assert(xh@ =~= rotated(ar@, pad, group as int));
        xh
    }
}

impl CqWeight {
    /// The products of all rows with an activation.
    pub fn matvec<
        U: Fn(Unary, u32) -> u32 + Sync,
        B: Fn(Binary, u32, u32) -> u32 + Sync,
        C: Fn(usize) -> u32 + Sync,
    >(&self, ar: &Arith<U, B, C>, x: &[u32]) -> (y: Vec<u32>)
        requires
            ar.wf(),
            self.wf(),
            x@.len() == self.in_feat,
        ensures
            y@ == Seq::new(self.out_feat as nat, |o: int| product(ar@, *self, o, prepared(ar@, *self, x@))),
    {
        let xh = self.prepare_input(ar, x);
        self.matvec_prepared(ar, xh.as_slice())
    }
}

/// The levels of one group, scaled by its norm.
pub open spec fn scaled_levels(n: Num<u32>, w: CqWeight, o: int, g: int) -> Seq<u32> {
    w.group_levels(o, g).map_values(|v: u32| n.times(v, w.norms@[o * w.num_groups + g]))
}

/// The weight in row `o` and column `col`: scaled and rotated out of its group.
pub open spec fn weight(n: Num<u32>, w: CqWeight, o: int, col: int) -> u32 {
    transform_scaled(n, scaled_levels(n, w, o, col / (w.group as int)))[col % (w.group as int)]
}

/// The weights of one row.
pub open spec fn row_weights(n: Num<u32>, w: CqWeight, o: int) -> Seq<u32> {
    Seq::new(w.in_feat as nat, |col: int| weight(n, w, o, col))
}

fn scaled_group<
    U: Fn(Unary, u32) -> u32 + Sync,
    B: Fn(Binary, u32, u32) -> u32 + Sync,
    C: Fn(usize) -> u32 + Sync,
>(ar: &Arith<U, B, C>, w: &CqWeight, o: usize, g: usize) -> (buf: Vec<u32>)
    requires
        ar.wf(),
        w.wf(),
        o < w.out_feat,
        g < w.num_groups,
    ensures
        buf@ == scaled_levels(ar@, *w, o as int, g as int),
{
    let levels = w.decode_group(o, g);
    let norm: u32 = w.norm(o, g);
    let n: usize = levels.len();
    let mut buf: Vec<u32> = Vec::new();
    let mut k: usize = 0;
    while k < n
        invariant
            k <= n,
            ar.wf(),
            n == levels@.len(),
            buf@.len() == k,
            forall|j: int| 0 <= j < k ==> #[trigger] buf@[j] == ar@.times(levels@[j], norm),
        decreases n - k,
    {
        buf.push(ar.mul(levels[k], norm));
        k = k + 1;
    }
    assert(buf@ =~= scaled_levels(ar@, *w, o as int, g as int));
    buf
}

impl CqWeight {
    /// The weights of one row.
    pub fn dequantize_row<
        U: Fn(Unary, u32) -> u32 + Sync,
        B: Fn(Binary, u32, u32) -> u32 + Sync,
        C: Fn(usize) -> u32 + Sync,
    >(&self, ar: &Arith<U, B, C>, o: usize) -> (out: Vec<u32>)
        requires
            ar.wf(),
            self.wf(),
            o < self.out_feat,
        ensures
            out@ == row_weights(ar@, *self, o as int),
    {
        let group: usize = self.group;
        proof {
            self.lemma_padding();
        }
        let mut out: Vec<u32> = Vec::new();
        let mut g: usize = 0;
        while g < self.num_groups
            invariant
                g <= self.num_groups,
                ar.wf(),
                self.wf(),
                o < self.out_feat,
                group == self.group,
                group > 0,
                self.in_feat <= self.num_groups * group,
                out@.len() == if g * group < self.in_feat {
                    g * group
                } else {
                    self.in_feat as int
                },
                forall|i: int|
                    0 <= i < out@.len() ==> #[trigger] out@[i] == weight(ar@, *self, o as int, i),
            decreases self.num_groups - g,
        {
            proof {
                lemma_group_end(g as int, self.num_groups as int, group as int);
            }
            let mut buf = scaled_group(ar, self, o, g);
            fwht_normalized(ar, &mut buf);
            let mut k: usize = 0;
            while k < group
                invariant
                    k <= group,
                    group == self.group,
                    group > 0,
                    buf@.len() == group,
                    buf@ == transform_scaled(ar@, scaled_levels(ar@, *self, o as int, g as int)),
                    out@.len() == if g * group + k < self.in_feat {
                        g * group + k
                    } else {
                        self.in_feat as int
                    },
                    forall|i: int|
                        0 <= i < out@.len() ==> #[trigger] out@[i] == weight(ar@, *self, o as int, i),
                decreases group - k,
            {
                proof {
                    lemma_group_at(g as int, k as int, group as int);
                    assert(0 <= g * group) by (nonlinear_arith)
                        requires
                            g >= 0,
                            group >= 0,
                    ;
                }
                if out.len() < self.in_feat {
                    out.push(buf[k]);
                }
                k = k + 1;
            }
            g = g + 1;
        }
        assert(out@ =~= row_weights(ar@, *self, o as int));
        out
    }
}

/// The weights of all rows, row by row.
pub open spec fn all_weights(n: Num<u32>, w: CqWeight, rows: int) -> Seq<u32>
    decreases rows,
{
    if rows <= 0 {
        Seq::empty()
    } else {
        all_weights(n, w, rows - 1) + row_weights(n, w, rows - 1)
    }
}

impl CqWeight {
    /// The weights of all rows, row by row.
    pub fn dequantize_to<
        U: Fn(Unary, u32) -> u32 + Sync,
        B: Fn(Binary, u32, u32) -> u32 + Sync,
        C: Fn(usize) -> u32 + Sync,
    >(&self, ar: &Arith<U, B, C>) -> (out: Vec<u32>)
        requires
            ar.wf(),
            self.wf(),
        ensures
            out@ == all_weights(ar@, *self, self.out_feat as int),
    {
        let mut out: Vec<u32> = Vec::new();
        let mut o: usize = 0;
        while o < self.out_feat
            invariant
                o <= self.out_feat,
                ar.wf(),
                self.wf(),
                out@ == all_weights(ar@, *self, o as int),
            decreases self.out_feat - o,
        {
            let mut row = self.dequantize_row(ar, o);
            out.append(&mut row);
            o = o + 1;
        }
        out
    }
}

} // verus!
