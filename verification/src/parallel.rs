//! Products of quantised matrices, large ones split over threads. Whether and
//! how a product is split changes nothing of its result.

use crate::arith::{Arith, Binary, Num, Unary};
use crate::bands::{are_bands, band_len, bands_of, join_rows, law_batch_bands_change_no_product, law_row_bands_change_no_product, lemma_band_end, should_parallelise, split, Band, Split};
use crate::cq::CqWeight;
use crate::matmul::{activation, are_products, product, MIN_PAR_BATCH, MIN_PAR_ROWS};
use crate::threads::{over_bands, thread_count};
use vstd::prelude::*;
use vstd::slice::slice_subrange;

verus! {

/// Bands of a share for every thread.
fn shares(total: usize, least: usize) -> (r: (usize, Vec<Band>))
    requires
        least > 0,
    ensures
        r.0 > 0,
        are_bands(r.1@, total as int, r.0 as int),
{
    let n: usize = thread_count();
    let threads: usize = if n == 0 {
        1
    } else {
        n
    };
    let size: usize = band_len(total, threads, least);
    (size, bands_of(total, size))
}

proof fn lemma_one_activation(
    y: Seq<u32>,
    n: Num<u32>,
    w: CqWeight,
    xh: Seq<u32>,
    start: int,
    rows: int,
)
    requires
        0 <= rows,
        xh.len() == w.in_padded,
    ensures
        are_products(y, n, w, xh, 1, start, rows) <==> y == Seq::new(
            rows as nat,
            |r: int| product(n, w, start + r, xh),
        ),
{
    let want = Seq::new(rows as nat, |r: int| product(n, w, start + r, xh));
    assert(activation(xh, 0, w.in_padded as int) =~= xh);
    if are_products(y, n, w, xh, 1, start, rows) {
        assert forall|r: int| 0 <= r < rows implies y[r] == want[r] by {
            assert(y[0 * rows + r] == product(
                n,
                w,
                start + r,
                activation(xh, 0, w.in_padded as int),
            ));
        }
        assert(y =~= want);
    }
    if y == want {
        assert forall|b: int, r: int|
            #![trigger y[b * rows + r]]
            0 <= b < 1 && 0 <= r < rows implies y[b * rows + r] == product(
            n,
            w,
            start + r,
            activation(xh, b, w.in_padded as int),
        ) by {
            assert(b == 0);
            assert(0 * rows == 0);
        }
    }
}

impl CqWeight {
    /// The products of the rows `start..start + rows` with a prepared activation,
    /// split over threads.
    fn matvec_rows_par<
        U: Fn(Unary, u32) -> u32 + Sync,
        B: Fn(Binary, u32, u32) -> u32 + Sync,
        C: Fn(usize) -> u32 + Sync,
    >(&self, ar: &Arith<U, B, C>, xh: &[u32], start: usize, rows: usize) -> (y: Vec<u32>)
        requires
            ar.wf(),
            self.wf(),
            start + rows <= self.out_feat,
            xh@.len() == self.in_padded,
        ensures
            y@ == Seq::new(rows as nat, |r: int| product(ar@, *self, start + r, xh@)),
    {
        let (size, bands) = shares(rows, MIN_PAR_ROWS);
        let one = |b: Band| -> (r: Vec<u32>)
            requires
                ar.wf(),
                self.wf(),
                start + b.start + b.len <= self.out_feat,
                xh@.len() == self.in_padded,
            ensures
                r@ == Seq::new(
                    b.len as nat,
                    |i: int| product(ar@, *self, (start + b.start) + i, xh@),
                ),
            { self.matvec_rows_serial(ar, xh, start + b.start, b.len) };
        proof {
            assert forall|k: int| 0 <= k < bands@.len() implies call_requires(
                one,
                (#[trigger] bands@[k],),
            ) by {
                lemma_band_end(bands@, rows as int, size as int, k);
            }
        }
        let parts = over_bands(&bands, one);
        proof {
            assert forall|k: int| 0 <= k < parts@.len() implies are_products(
                (#[trigger] parts@[k])@,
                ar@,
                *self,
                xh@,
                1,
                start + bands@[k].start,
                bands@[k].len as int,
            ) by {
                lemma_one_activation(
                    parts@[k]@,
                    ar@,
                    *self,
                    xh@,
                    start + bands@[k].start,
                    bands@[k].len as int,
                );
            }
        }
        let y = join_rows(&parts, &bands, size, 1, rows);
        proof {
            law_row_bands_change_no_product(
                ar@,
                *self,
                xh@,
                y@,
                parts@,
                bands@,
                size as int,
                1,
                start as int,
                rows as int,
            );
            lemma_one_activation(y@, ar@, *self, xh@, start as int, rows as int);
        }
        y
    }

    /// The products of the rows `start..start + rows` with a prepared activation.
    pub fn matvec_rows_prepared<
        U: Fn(Unary, u32) -> u32 + Sync,
        B: Fn(Binary, u32, u32) -> u32 + Sync,
        C: Fn(usize) -> u32 + Sync,
    >(&self, ar: &Arith<U, B, C>, xh: &[u32], start: usize, rows: usize) -> (y: Vec<u32>)
        requires
            ar.wf(),
            self.wf(),
            start + rows <= self.out_feat,
            xh@.len() == self.in_padded,
        ensures
            y@ == Seq::new(rows as nat, |r: int| product(ar@, *self, start + r, xh@)),
    {
        if should_parallelise(rows, self.in_padded) {
            self.matvec_rows_par(ar, xh, start, rows)
        } else {
            self.matvec_rows_serial(ar, xh, start, rows)
        }
    }

    /// The products of the rows `start..start + rows` with every activation of a
    /// batch, the rows split over threads.
    fn matmul_rows_par<
        U: Fn(Unary, u32) -> u32 + Sync,
        B: Fn(Binary, u32, u32) -> u32 + Sync,
        C: Fn(usize) -> u32 + Sync,
    >(
        &self,
        ar: &Arith<U, B, C>,
        xh: &[u32],
        batch: usize,
        start: usize,
        rows: usize,
    ) -> (y: Vec<u32>)
        requires
            ar.wf(),
            self.wf(),
            start + rows <= self.out_feat,
            xh@.len() == batch * self.in_padded,
            batch * rows <= usize::MAX,
        ensures
            are_products(y@, ar@, *self, xh@, batch as int, start as int, rows as int),
    {
        let (size, bands) = shares(rows, MIN_PAR_ROWS);
        let one = |b: Band| -> (r: Vec<u32>)
            requires
                ar.wf(),
                self.wf(),
                start + b.start + b.len <= self.out_feat,
                xh@.len() == batch * self.in_padded,
                batch * b.len <= usize::MAX,
            ensures
                are_products(
                    r@,
                    ar@,
                    *self,
                    xh@,
                    batch as int,
                    start + b.start,
                    b.len as int,
                ),
            { self.matmul_rows_serial(ar, xh, batch, start + b.start, b.len) };
        proof {
            assert forall|k: int| 0 <= k < bands@.len() implies call_requires(
                one,
                (#[trigger] bands@[k],),
            ) by {
                lemma_band_end(bands@, rows as int, size as int, k);
                assert(batch * bands@[k].len <= batch * rows) by (nonlinear_arith)
                    requires
                        bands@[k].len <= rows,
                        0 <= batch,
                ;
            }
        }
        let parts = over_bands(&bands, one);
        let y = join_rows(&parts, &bands, size, batch, rows);
        proof {
            law_row_bands_change_no_product(
                ar@,
                *self,
                xh@,
                y@,
                parts@,
                bands@,
                size as int,
                batch as int,
                start as int,
                rows as int,
            );
        }
        y
    }

    /// The products of the rows `start..start + rows` with every activation of a
    /// batch, the activations split over threads.
    fn matmul_batch_par<
        U: Fn(Unary, u32) -> u32 + Sync,
        B: Fn(Binary, u32, u32) -> u32 + Sync,
        C: Fn(usize) -> u32 + Sync,
    >(
        &self,
        ar: &Arith<U, B, C>,
        xh: &[u32],
        batch: usize,
        start: usize,
        rows: usize,
    ) -> (y: Vec<u32>)
        requires
            ar.wf(),
            self.wf(),
            start + rows <= self.out_feat,
            xh@.len() == batch * self.in_padded,
            batch * rows <= usize::MAX,
        ensures
            are_products(y@, ar@, *self, xh@, batch as int, start as int, rows as int),
    {
        let stride: usize = self.in_padded;
        let total: usize = xh.len();
        let (size, bands) = shares(batch, MIN_PAR_BATCH);
        let one = |b: Band| -> (r: Vec<u32>)
            requires
                ar.wf(),
                self.wf(),
                start + rows <= self.out_feat,
                stride == self.in_padded,
                total == xh@.len(),
                b.start * stride + b.len * stride <= total,
                b.len * rows <= usize::MAX,
            ensures
                are_products(
                    r@,
                    ar@,
                    *self,
                    xh@.subrange(b.start * stride, b.start * stride + b.len * stride),
                    b.len as int,
                    start as int,
                    rows as int,
                ),
            {
                proof {
                    assert(0 <= b.start * stride && 0 <= b.len * stride) by (nonlinear_arith);
                }
                let from: usize = b.start * stride;
                let part = slice_subrange(xh, from, from + b.len * stride);
                self.matmul_rows_serial(ar, part, b.len, start, rows)
            };
        proof {
            assert forall|k: int| 0 <= k < bands@.len() implies call_requires(
                one,
                (#[trigger] bands@[k],),
            ) by {
                lemma_band_end(bands@, batch as int, size as int, k);
                let b = bands@[k];
                assert(b.start * stride + b.len * stride <= batch * stride) by (nonlinear_arith)
                    requires
                        b.start + b.len <= batch,
                        0 <= stride,
                ;
                assert(b.len * rows <= batch * rows) by (nonlinear_arith)
                    requires
                        b.len <= batch,
                        0 <= rows,
                ;
            }
        }
        let parts = over_bands(&bands, one);
        self.join_batches(ar, xh, batch, start, rows, size, &bands, parts)
    }

    /// Put the products of the bands of a batch one behind the other.
    fn join_batches<
        U: Fn(Unary, u32) -> u32 + Sync,
        B: Fn(Binary, u32, u32) -> u32 + Sync,
        C: Fn(usize) -> u32 + Sync,
    >(
        &self,
        ar: &Arith<U, B, C>,
        xh: &[u32],
        batch: usize,
        start: usize,
        rows: usize,
        size: usize,
        bands: &Vec<Band>,
        parts: Vec<Vec<u32>>,
    ) -> (y: Vec<u32>)
        requires
            size > 0,
            are_bands(bands@, batch as int, size as int),
            parts@.len() == bands@.len(),
            xh@.len() == batch * self.in_padded,
            forall|k: int|
                0 <= k < parts@.len() ==> are_products(
                    (#[trigger] parts@[k])@,
                    ar@,
                    *self,
                    xh@.subrange(
                        bands@[k].start * self.in_padded,
                        bands@[k].start * self.in_padded + bands@[k].len * self.in_padded,
                    ),
                    bands@[k].len as int,
                    start as int,
                    rows as int,
                ),
        ensures
            are_products(y@, ar@, *self, xh@, batch as int, start as int, rows as int),
    {
        let ghost d = self.in_padded as int;
        let ghost mut done: int = 0;
        let mut y: Vec<u32> = Vec::new();
        proof {
            assert(0 * rows == 0 && 0 * d == 0) by (nonlinear_arith);
        }
        let n: usize = parts.len();
        let mut k: usize = 0;
        while k < n
            invariant
                k <= n,
                n == parts@.len(),
                n == bands@.len(),
                size > 0,
                d == self.in_padded,
                are_bands(bands@, batch as int, size as int),
                xh@.len() == batch * d,
                0 <= done <= batch,
                done == if k < n {
                    bands@[k as int].start as int
                } else {
                    batch as int
                },
                forall|j: int|
                    0 <= j < parts@.len() ==> are_products(
                        (#[trigger] parts@[j])@,
                        ar@,
                        *self,
                        xh@.subrange(
                            bands@[j].start * d,
                            bands@[j].start * d + bands@[j].len * d,
                        ),
                        bands@[j].len as int,
                        start as int,
                        rows as int,
                    ),
                are_products(
                    y@,
                    ar@,
                    *self,
                    xh@.take(done * d),
                    done,
                    start as int,
                    rows as int,
                ),
            decreases n - k,
        {
            let ghost first = y@;
            let ghost part = parts@[k as int]@;
            let mut more = crate::cq::copy_words(parts[k].as_slice());
            y.append(&mut more);
            proof {
                lemma_band_end(bands@, batch as int, size as int, k as int);
                let b = bands@[k as int];
                let end = b.start + b.len;
                let both = xh@.take(end * d);
                assert(0 <= done * d && done * d + b.len * d == end * d && end * d <= batch * d)
                    by (nonlinear_arith)
                    requires
                        0 <= done,
                        end == done + b.len,
                        end <= batch,
                        0 <= d,
                ;
                assert(both.take(done * d) =~= xh@.take(done * d));
                assert(both.skip(done * d) =~= xh@.subrange(done * d, done * d + b.len * d));
                law_batch_bands_change_no_product(
                    ar@,
                    *self,
                    both,
                    first,
                    part,
                    done,
                    end as int,
                    start as int,
                    rows as int,
                );
                done = end as int;
            }
            k = k + 1;
        }
        assert(xh@.take(batch * d) =~= xh@);
        y
    }

    /// The products of the rows `start..start + rows` with every activation of a
    /// batch.
    pub fn matmul_rows_prepared<
        U: Fn(Unary, u32) -> u32 + Sync,
        B: Fn(Binary, u32, u32) -> u32 + Sync,
        C: Fn(usize) -> u32 + Sync,
    >(
        &self,
        ar: &Arith<U, B, C>,
        xh: &[u32],
        batch: usize,
        start: usize,
        rows: usize,
    ) -> (y: Vec<u32>)
        requires
            ar.wf(),
            self.wf(),
            start + rows <= self.out_feat,
            xh@.len() == batch * self.in_padded,
            batch * rows <= usize::MAX,
        ensures
            are_products(y@, ar@, *self, xh@, batch as int, start as int, rows as int),
    {
        match split(rows, batch, self.in_padded) {
            Split::Rows => self.matmul_rows_par(ar, xh, batch, start, rows),
            Split::Batch => self.matmul_batch_par(ar, xh, batch, start, rows),
            Split::Serial => self.matmul_rows_serial(ar, xh, batch, start, rows),
        }
    }
}

} // verus!
