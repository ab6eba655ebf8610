//! Products of quantised weights with prepared activations.
//!
//! One row's product is a chain of group products in a fixed order. A batch of
//! activations, a band of rows, a band of the batch: however the work is cut,
//! every row's product is computed by that same chain.

use crate::arith::{Arith, Binary, Num, Unary};
use crate::cq::CqWeight;
use crate::dot::{dot_group, dot_group_serial, dot_in_lanes, dot_in_order, group_dot_lanes, group_dot_serial};
use vstd::prelude::*;
use vstd::slice::slice_subrange;

verus! {

/// Smallest band of rows that is worth a thread.
pub const MIN_PAR_ROWS: usize = 64;

/// Smallest band of a batch that is worth a thread.
pub const MIN_PAR_BATCH: usize = 8;

/// Multiplications below which a product stays on one thread.
pub const PAR_MIN_MACS: usize = 0x10_0000;

/// The product of one group with its part of the activation, before scaling.
pub open spec fn group_product(n: Num<u32>, w: CqWeight, o: int, g: int, x: Seq<u32>) -> u32 {
    let part = x.subrange(g * w.group, g * w.group + w.group);
    if w.per_byte != 0 {
        dot_in_lanes(n, w.group_levels(o, g), part)
    } else {
        dot_in_order(n, w.group_levels(o, g), part)
    }
}

/// The product of a row with a prepared activation, over its first `k` groups.
pub open spec fn row_product(n: Num<u32>, w: CqWeight, o: int, x: Seq<u32>, k: int) -> u32
    decreases k,
{
    if k <= 0 {
        n.zero
    } else {
        n.plus(
            row_product(n, w, o, x, k - 1),
            n.times(w.norms@[o * w.num_groups + (k - 1)], group_product(n, w, o, k - 1, x)),
        )
    }
}

/// The product of a row with a prepared activation.
pub open spec fn product(n: Num<u32>, w: CqWeight, o: int, x: Seq<u32>) -> u32 {
    row_product(n, w, o, x, w.num_groups as int)
}

/// Activation `b` of a batch.
pub open spec fn activation(xh: Seq<u32>, b: int, stride: int) -> Seq<u32> {
    xh.subrange(b * stride, b * stride + stride)
}

/// `y` holds the products of the rows `start..start + rows` with every activation
/// of a batch, activation by activation.
pub open spec fn are_products(
    y: Seq<u32>,
    n: Num<u32>,
    w: CqWeight,
    xh: Seq<u32>,
    batch: int,
    start: int,
    rows: int,
) -> bool {
    &&& y.len() == batch * rows
    &&& forall|b: int, r: int|
        #![trigger y[b * rows + r]]
        0 <= b < batch && 0 <= r < rows ==> y[b * rows + r] == product(
            n,
            w,
            start + r,
            activation(xh, b, w.in_padded as int),
        )
}

proof fn lemma_at(b: int, batch: int, r: int, rows: int)
    requires
        0 <= b < batch,
        0 <= r < rows,
    ensures
        0 <= b * rows,
        b * rows + r < batch * rows,
        b * rows + rows <= batch * rows,
{
    assert(0 <= b * rows && b * rows + rows <= batch * rows) by (nonlinear_arith)
        requires
            0 <= b,
            b + 1 <= batch,
            0 <= rows,
    ;
}

proof fn lemma_at_unique(b: int, r: int, c: int, s: int, rows: int)
    requires
        0 <= r < rows,
        0 <= s < rows,
        b * rows + r == c * rows + s,
    ensures
        b == c,
        r == s,
{
    if b < c {
        assert(b * rows + rows <= c * rows) by (nonlinear_arith)
            requires
                b + 1 <= c,
                rows >= 0,
        ;
    } else if c < b {
        assert(c * rows + rows <= b * rows) by (nonlinear_arith)
            requires
                c + 1 <= b,
                rows >= 0,
        ;
    }
}

/// The product of one group with its part of the activation, read the way the
/// width allows.
fn group_value<
    U: Fn(Unary, u32) -> u32 + Sync,
    B: Fn(Binary, u32, u32) -> u32 + Sync,
    C: Fn(usize) -> u32 + Sync,
>(ar: &Arith<U, B, C>, w: &CqWeight, o: usize, g: usize, xh: &[u32]) -> (v: u32)
    requires
        ar.wf(),
        w.wf(),
        o < w.out_feat,
        g < w.num_groups,
        xh@.len() == w.in_padded,
    ensures
        v == group_product(ar@, *w, o as int, g as int, xh@),
{
    proof {
        lemma_at(g as int, w.num_groups as int, 0, w.group as int);
    }
    let total: usize = xh.len();
    let base: usize = g * w.group;
    let part = slice_subrange(xh, base, base + w.group);
    if w.per_byte != 0 {
        let bytes = w.group_bytes(o, g);
        dot_group(ar, w.lut.as_slice(), w.per_byte, bytes, part)
    } else {
        let u = w.decode_group(o, g);
        group_dot_serial(ar, u.as_slice(), part)
    }
}

/// The product of one row with a prepared activation.
fn row_value<
    U: Fn(Unary, u32) -> u32 + Sync,
    B: Fn(Binary, u32, u32) -> u32 + Sync,
    C: Fn(usize) -> u32 + Sync,
>(ar: &Arith<U, B, C>, w: &CqWeight, o: usize, xh: &[u32]) -> (v: u32)
    requires
        ar.wf(),
        w.wf(),
        o < w.out_feat,
        xh@.len() == w.in_padded,
    ensures
        v == product(ar@, *w, o as int, xh@),
{
    let mut total: u32 = 0;
    let mut g: usize = 0;
    while g < w.num_groups
        invariant
            g <= w.num_groups,
            ar.wf(),
            w.wf(),
            o < w.out_feat,
            xh@.len() == w.in_padded,
            total == row_product(ar@, *w, o as int, xh@, g as int),
        decreases w.num_groups - g,
    {
        let s: u32 = group_value(ar, w, o, g, xh);
        total = ar.mul_add(total, w.norm(o, g), s);
        g = g + 1;
    }
    total
}

impl CqWeight {
    /// The products of the rows `start..start + rows` with a prepared activation.
    pub fn matvec_rows_serial<
        U: Fn(Unary, u32) -> u32 + Sync,
        B: Fn(Binary, u32, u32) -> u32 + Sync,
        C: Fn(usize) -> u32 + Sync,
    >(&self, ar: &Arith<U, B, C>, xh: &[u32], start: usize, rows: usize) -> (y: Vec<u32>)
        requires
            ar.wf(),
            self.wf(),
            start + rows <= self.out_feat,
            xh@.len() == self.in_padded,
        ensures
            y@ == Seq::new(rows as nat, |r: int| product(ar@, *self, start + r, xh@)),
    {
        let mut y: Vec<u32> = Vec::new();
        let mut r: usize = 0;
        while r < rows
            invariant
                r <= rows,
                ar.wf(),
                self.wf(),
                start + rows <= self.out_feat,
                xh@.len() == self.in_padded,
                y@ == Seq::new(r as nat, |i: int| product(ar@, *self, start + i, xh@)),
            decreases rows - r,
        {
            y.push(row_value(ar, self, start + r, xh));
            r = r + 1;
            assert(y@ =~= Seq::new(r as nat, |i: int| product(ar@, *self, start + i, xh@)));
        }
        y
    }
}

impl CqWeight {
    /// The products of all rows with a prepared activation.
    pub fn matvec_prepared<
        U: Fn(Unary, u32) -> u32 + Sync,
        B: Fn(Binary, u32, u32) -> u32 + Sync,
        C: Fn(usize) -> u32 + Sync,
    >(&self, ar: &Arith<U, B, C>, xh: &[u32]) -> (y: Vec<u32>)
        requires
            ar.wf(),
            self.wf(),
            xh@.len() == self.in_padded,
        ensures
            y@ == Seq::new(self.out_feat as nat, |o: int| product(ar@, *self, o, xh@)),
    {
        let y = self.matvec_rows_prepared(ar, xh, 0, self.out_feat);
        assert(y@ =~= Seq::new(self.out_feat as nat, |o: int| product(ar@, *self, o, xh@)));
        y
    }
}

/// Add the product of one group to every activation's running sum. The group is
/// decoded once.
fn add_group<
    U: Fn(Unary, u32) -> u32 + Sync,
    B: Fn(Binary, u32, u32) -> u32 + Sync,
    C: Fn(usize) -> u32 + Sync,
>(
    ar: &Arith<U, B, C>,
    w: &CqWeight,
    o: usize,
    g: usize,
    xh: &[u32],
    batch: usize,
    acc: &mut Vec<u32>,
)
    requires
        ar.wf(),
        w.wf(),
        o < w.out_feat,
        g < w.num_groups,
        xh@.len() == batch * w.in_padded,
        old(acc)@.len() == batch,
        forall|b: int|
            0 <= b < batch ==> #[trigger] old(acc)@[b] == row_product(
                ar@,
                *w,
                o as int,
                activation(xh@, b, w.in_padded as int),
                g as int,
            ),
    ensures
        final(acc)@.len() == batch,
        forall|b: int|
            0 <= b < batch ==> #[trigger] final(acc)@[b] == row_product(
                ar@,
                *w,
                o as int,
                activation(xh@, b, w.in_padded as int),
                g + 1,
            ),
{
    let u = w.decode_group(o, g);
    let norm: u32 = w.norm(o, g);
    let total: usize = xh.len();
    let stride: usize = w.in_padded;
    proof {
        lemma_at(g as int, w.num_groups as int, 0, w.group as int);
    }
    let base: usize = g * w.group;
    let ghost before = acc@;
    let mut b: usize = 0;
    while b < batch
        invariant
            b <= batch,
            ar.wf(),
            w.wf(),
            o < w.out_feat,
            g < w.num_groups,
            base == g * w.group,
            base + w.group <= stride,
            stride == w.in_padded,
            total == xh@.len(),
            xh@.len() == batch * stride,
            u@ == w.group_levels(o as int, g as int),
            norm == w.norms@[o * w.num_groups + g],
            before.len() == batch,
            acc@.len() == batch,
            forall|c: int|
                0 <= c < batch ==> #[trigger] before[c] == row_product(
                    ar@,
                    *w,
                    o as int,
                    activation(xh@, c, stride as int),
                    g as int,
                ),
            forall|c: int| b <= c < batch ==> #[trigger] acc@[c] == before[c],
            forall|c: int|
                0 <= c < b ==> #[trigger] acc@[c] == row_product(
                    ar@,
                    *w,
                    o as int,
                    activation(xh@, c, stride as int),
                    g + 1,
                ),
        decreases batch - b,
    {
        proof {
            lemma_at(b as int, batch as int, 0, stride as int);
        }
        let from: usize = b * stride + base;
        let part = slice_subrange(xh, from, from + w.group);
        assert(part@ =~= activation(xh@, b as int, stride as int).subrange(
            g * w.group,
            g * w.group + w.group,
        ));
        let s: u32 = if w.per_byte != 0 {
            group_dot_lanes(ar, u.as_slice(), part)
        } else {
            group_dot_serial(ar, u.as_slice(), part)
        };
        let v: u32 = ar.mul_add(acc[b], norm, s);
        acc.set(b, v);
        b = b + 1;
    }
}

impl CqWeight {
    /// The products of the rows `start..start + rows` with every activation of a
    /// batch.
    pub fn matmul_rows_serial<
        U: Fn(Unary, u32) -> u32 + Sync,
        B: Fn(Binary, u32, u32) -> u32 + Sync,
        C: Fn(usize) -> u32 + Sync,
    >(
        &self,
        ar: &Arith<U, B, C>,
        xh: &[u32],
        batch: usize,
        start: usize,
        rows: usize,
    ) -> (y: Vec<u32>)
        requires
            ar.wf(),
            self.wf(),
            start + rows <= self.out_feat,
            xh@.len() == batch * self.in_padded,
            batch * rows <= usize::MAX,
        ensures
            are_products(y@, ar@, *self, xh@, batch as int, start as int, rows as int),
    {
        let mut y: Vec<u32> = crate::state::filled_cells(0u32, batch * rows);
        let mut r: usize = 0;
        while r < rows
            invariant
                r <= rows,
                ar.wf(),
                self.wf(),
                start + rows <= self.out_feat,
                xh@.len() == batch * self.in_padded,
                batch * rows <= usize::MAX,
                y@.len() == batch * rows,
                forall|b: int, q: int|
                    #![trigger y@[b * rows + q]]
                    0 <= b < batch && 0 <= q < r ==> y@[b * rows + q] == product(
                        ar@,
                        *self,
                        start + q,
                        activation(xh@, b, self.in_padded as int),
                    ),
            decreases rows - r,
        {
            let o: usize = start + r;
            let mut acc: Vec<u32> = crate::state::filled_cells(0u32, batch);
            let mut g: usize = 0;
            while g < self.num_groups
                invariant
                    g <= self.num_groups,
                    ar.wf(),
                    self.wf(),
                    o < self.out_feat,
                    xh@.len() == batch * self.in_padded,
                    acc@.len() == batch,
                    forall|b: int|
                        0 <= b < batch ==> #[trigger] acc@[b] == row_product(
                            ar@,
                            *self,
                            o as int,
                            activation(xh@, b, self.in_padded as int),
                            g as int,
                        ),
                decreases self.num_groups - g,
            {
                add_group(ar, self, o, g, xh, batch, &mut acc);
                g = g + 1;
            }
            let ghost before = y@;
            let mut b: usize = 0;
            while b < batch
                invariant
                    b <= batch,
                    r < rows,
                    o == start + r,
                    batch * rows <= usize::MAX,
                    before.len() == batch * rows,
                    y@.len() == batch * rows,
                    acc@.len() == batch,
                    forall|c: int|
                        0 <= c < batch ==> #[trigger] acc@[c] == product(
                            ar@,
                            *self,
                            o as int,
                            activation(xh@, c, self.in_padded as int),
                        ),
                    forall|c: int, q: int|
                        #![trigger y@[c * rows + q]]
                        0 <= c < batch && 0 <= q < rows ==> y@[c * rows + q] == if q == r && c < b {
                            acc@[c]
                        } else {
                            before[c * rows + q]
                        },
                decreases batch - b,
            {
                proof {
                    lemma_at(b as int, batch as int, r as int, rows as int);
                }
                let ghost mid = y@;
                y.set(b * rows + r, acc[b]);
                proof {
                    assert forall|c: int, q: int|
                        #![trigger y@[c * rows + q]]
                        0 <= c < batch && 0 <= q < rows implies y@[c * rows + q] == if q == r && c < b
                        + 1 {
                        acc@[c]
                    } else {
                        before[c * rows + q]
                    } by {
                        lemma_at(c, batch as int, q, rows as int);
                        if c * rows + q == b * rows + r {
                            lemma_at_unique(c, q, b as int, r as int, rows as int);
                        } else {
                            assert(y@[c * rows + q] == mid[c * rows + q]);
                        }
                    }
                }
                b = b + 1;
            }
            proof {
                assert forall|c: int, q: int|
                    #![trigger y@[c * rows + q]]
                    0 <= c < batch && 0 <= q < r + 1 implies y@[c * rows + q] == product(
                    ar@,
                    *self,
                    start + q,
                    activation(xh@, c, self.in_padded as int),
                ) by {
                    assert(y@[c * rows + q] == y@[c * rows + q]);
                    if q < r {
                        assert(before[c * rows + q] == before[c * rows + q]);
                    }
                }
            }
            r = r + 1;
        }
        y
    }
}

/// Taking activations together gives each of them the same products, to the
/// last bit, as taking it alone.
pub proof fn law_batches_change_no_product(
    n: Num<u32>,
    w: CqWeight,
    xh: Seq<u32>,
    batch: int,
    start: int,
    rows: int,
    y: Seq<u32>,
    b: int,
    alone: Seq<u32>,
)
    requires
        0 <= b < batch,
        0 <= rows,
        are_products(y, n, w, xh, batch, start, rows),
        alone == Seq::new(
            rows as nat,
            |r: int| product(n, w, start + r, activation(xh, b, w.in_padded as int)),
        ),
    ensures
        y.subrange(b * rows, b * rows + rows) == alone,
{
    assert(0 <= b * rows && b * rows + rows <= batch * rows) by (nonlinear_arith)
        requires
            0 <= b,
            b + 1 <= batch,
            0 <= rows,
    ;
    assert(y.subrange(b * rows, b * rows + rows) =~= alone) by {
        assert forall|r: int| 0 <= r < rows implies y.subrange(
            b * rows,
            b * rows + rows,
        )[r] == alone[r] by {
            assert(y[b * rows + r] == product(
                n,
                w,
                start + r,
                activation(xh, b, w.in_padded as int),
            ));
        }
    }
}

/// The product of a row with a prepared activation, every group summed in order,
/// over its first `k` groups.
pub open spec fn plain_row_product(n: Num<u32>, w: CqWeight, o: int, x: Seq<u32>, k: int) -> u32
    decreases k,
{
    if k <= 0 {
        n.zero
    } else {
        let part = x.subrange((k - 1) * w.group, (k - 1) * w.group + w.group);
        n.plus(
            plain_row_product(n, w, o, x, k - 1),
            n.times(
                w.norms@[o * w.num_groups + (k - 1)],
                dot_in_order(n, w.group_levels(o, k - 1), part),
            ),
        )
    }
}

/// The products of all rows with a prepared activation, every group summed in
/// order.
pub open spec fn plain_products(n: Num<u32>, w: CqWeight, x: Seq<u32>) -> Seq<u32> {
    Seq::new(w.out_feat as nat, |o: int| plain_row_product(n, w, o, x, w.num_groups as int))
}

impl CqWeight {
    /// The product of a row with a prepared activation, every group summed in
    /// order: read through the decode table, or index by index.
    fn plain_row_value<
        U: Fn(Unary, u32) -> u32 + Sync,
        B: Fn(Binary, u32, u32) -> u32 + Sync,
        C: Fn(usize) -> u32 + Sync,
    >(&self, ar: &Arith<U, B, C>, o: usize, xh: &[u32], table: bool) -> (v: u32)
        requires
            ar.wf(),
            self.wf(),
            o < self.out_feat,
            xh@.len() == self.in_padded,
            table ==> self.per_byte != 0,
        ensures
            v == plain_row_product(ar@, *self, o as int, xh@, self.num_groups as int),
    {
        let width: usize = xh.len();
        let mut total: u32 = 0;
        let mut g: usize = 0;
        while g < self.num_groups
            invariant
                g <= self.num_groups,
                ar.wf(),
                self.wf(),
                o < self.out_feat,
                width == xh@.len(),
                xh@.len() == self.in_padded,
                table ==> self.per_byte != 0,
                total == plain_row_product(ar@, *self, o as int, xh@, g as int),
            decreases self.num_groups - g,
        {
            proof {
                lemma_at(g as int, self.num_groups as int, 0, self.group as int);
            }
            let base: usize = g * self.group;
            let part = slice_subrange(xh, base, base + self.group);
            let s: u32 = if table {
                let bytes = self.group_bytes(o, g);
                dot_group_serial(ar, self.lut.as_slice(), self.per_byte, bytes, part)
            } else {
                let u = self.decode_group(o, g);
                group_dot_serial(ar, u.as_slice(), part)
            };
            total = ar.mul_add(total, self.norm(o, g), s);
            g = g + 1;
        }
        total
    }

    fn plain_values<
        U: Fn(Unary, u32) -> u32 + Sync,
        B: Fn(Binary, u32, u32) -> u32 + Sync,
        C: Fn(usize) -> u32 + Sync,
    >(&self, ar: &Arith<U, B, C>, xh: &[u32], table: bool) -> (y: Vec<u32>)
        requires
            ar.wf(),
            self.wf(),
            xh@.len() == self.in_padded,
            table ==> self.per_byte != 0,
        ensures
            y@ == plain_products(ar@, *self, xh@),
    {
        let mut y: Vec<u32> = Vec::new();
        let mut o: usize = 0;
        while o < self.out_feat
            invariant
                o <= self.out_feat,
                ar.wf(),
                self.wf(),
                xh@.len() == self.in_padded,
                table ==> self.per_byte != 0,
                y@.len() == o,
                forall|i: int|
                    0 <= i < o ==> #[trigger] y@[i] == plain_products(ar@, *self, xh@)[i],
            decreases self.out_feat - o,
        {
            y.push(self.plain_row_value(ar, o, xh, table));
            o = o + 1;
        }
        assert(y@ =~= plain_products(ar@, *self, xh@));
        y
    }

    /// The products of all rows with a prepared activation, decoded index by
    /// index and summed in order.
    pub fn matvec_prepared_reference<
        U: Fn(Unary, u32) -> u32 + Sync,
        B: Fn(Binary, u32, u32) -> u32 + Sync,
        C: Fn(usize) -> u32 + Sync,
    >(&self, ar: &Arith<U, B, C>, xh: &[u32]) -> (y: Vec<u32>)
        requires
            ar.wf(),
            self.wf(),
            xh@.len() == self.in_padded,
        ensures
            y@ == plain_products(ar@, *self, xh@),
    {
        self.plain_values(ar, xh, false)
    }

    /// The same through the decode table, where there is one.
    pub fn matvec_prepared_single_acc<
        U: Fn(Unary, u32) -> u32 + Sync,
        B: Fn(Binary, u32, u32) -> u32 + Sync,
        C: Fn(usize) -> u32 + Sync,
    >(&self, ar: &Arith<U, B, C>, xh: &[u32]) -> (y: Vec<u32>)
        requires
            ar.wf(),
            self.wf(),
            xh@.len() == self.in_padded,
        ensures
            y@ == plain_products(ar@, *self, xh@),
    {
        self.plain_values(ar, xh, self.per_byte != 0)
    }

    /// Bits held for every weight, the group norms included.
    pub fn effective_bits<
        U: Fn(Unary, u32) -> u32 + Sync,
        B: Fn(Binary, u32, u32) -> u32 + Sync,
        C: Fn(usize) -> u32 + Sync,
    >(&self, ar: &Arith<U, B, C>) -> (b: u32)
        requires
            ar.wf(),
            (self.packed@.len() + self.norms@.len() * 2) * 8 <= usize::MAX,
            self.out_feat * self.in_padded <= usize::MAX,
        ensures
            b == ar@.over(
                ar@.number((self.packed@.len() + self.norms@.len() * 2) * 8 as int),
                ar@.number(self.out_feat * self.in_padded),
            ),
    {
        let packed: usize = self.packed.len();
        let norms: usize = self.norms.len();
        ar.div(ar.number((packed + norms * 2) * 8), ar.number(self.out_feat * self.in_padded))
    }
}

/// Where indices do not share bytes, the product of a row is the plain one.
pub proof fn law_plain_products_without_a_table(n: Num<u32>, w: CqWeight, o: int, x: Seq<u32>, k: int)
    requires
        w.per_byte == 0,
    ensures
        row_product(n, w, o, x, k) == plain_row_product(n, w, o, x, k),
    decreases k,
{
    if k > 0 {
        law_plain_products_without_a_table(n, w, o, x, k - 1);
    }
}

} // verus!
