//! How a product is split over threads, and put together again.

use crate::arith::Num;
use crate::cq::CqWeight;
use crate::matmul::{activation, are_products, product, MIN_PAR_BATCH, MIN_PAR_ROWS, PAR_MIN_MACS};
use vstd::arithmetic::div_mod::*;
use vstd::prelude::*;

verus! {

/// A run of rows or activations.
#[derive(Debug, Clone, Copy, PartialEq, Eq)]
pub struct Band {
    pub start: usize,
    pub len: usize,
}

/// The larger of two numbers.
pub open spec fn at_least(a: int, b: int) -> int {
    if a < b {
        b
    } else {
        a
    }
}

/// How many items a band holds: an equal share for every thread, but no fewer
/// than are worth one.
pub open spec fn band_size(total: int, threads: int, least: int) -> int {
    at_least((total + threads - 1) / threads, least)
}

/// `bands` cuts `total` items into runs of `size`, the last possibly shorter.
pub open spec fn are_bands(bands: Seq<Band>, total: int, size: int) -> bool {
    &&& forall|k: int|
        0 <= k < bands.len() ==> {
            let b = #[trigger] bands[k];
            &&& b.start == k * size
            &&& 0 < b.len <= size
            &&& b.start + b.len == if k + 1 == bands.len() {
                total
            } else {
                (k + 1) * size
            }
        }
    &&& bands.len() == 0 <==> total == 0
}

/// How many items a band holds.
pub fn band_len(total: usize, threads: usize, least: usize) -> (n: usize)
    requires
        threads > 0,
    ensures
        n == band_size(total as int, threads as int, least as int),
{
    proof {
        lemma_div_ceil(total as int, threads as int);
    }
    let share: usize = total / threads + if total % threads == 0 {
        0usize
    } else {
        1usize
    };
    if share < least {
        least
    } else {
        share
    }
}

/// Cut `total` items into bands of `size`.
pub fn bands_of(total: usize, size: usize) -> (bands: Vec<Band>)
    requires
        size > 0,
    ensures
        are_bands(bands@, total as int, size as int),
{
    let mut bands: Vec<Band> = Vec::new();
    let mut start: usize = 0;
    assert(bands@.len() * size == 0) by (nonlinear_arith)
        requires
            bands@.len() == 0,
    ;
    while start < total
        invariant
            start <= total,
            size > 0,
            start < total ==> start == bands@.len() * size,
            bands@.len() == 0 ==> start == 0,
            start < total ==> forall|k: int|
                0 <= k < bands@.len() ==> {
                    let b = #[trigger] bands@[k];
                    &&& b.start == k * size
                    &&& b.len == size
                    &&& b.start + b.len == (k + 1) * size
                },
            start == total ==> are_bands(bands@, total as int, size as int),
        decreases total - start,
    {
        let left: usize = total - start;
        let len: usize = if size < left {
            size
        } else {
            left
        };
        let ghost m = bands@.len() as int;
        bands.push(Band { start, len });
        proof {
            assert((m + 1) * size == m * size + size) by (nonlinear_arith);
        }
        start = start + len;
    }
    bands
}

proof fn lemma_div_ceil(total: int, threads: int)
    requires
        0 <= total,
        0 < threads,
    ensures
        (total + threads - 1) / threads == total / threads + if total % threads == 0 {
            0int
        } else {
            1int
        },
        total % threads != 0 ==> total / threads + 1 <= total,
{
    let q = total / threads;
    let r = total % threads;
    lemma_fundamental_div_mod(total, threads);
    lemma_mod_bound(total, threads);
    lemma_div_pos_is_pos(total, threads);
    assert(q + r <= total) by (nonlinear_arith)
        requires
            total == threads * q + r,
            threads >= 1,
            q >= 0,
    ;
    if r == 0 {
        lemma_fundamental_div_mod_converse(total + threads - 1, threads, q, threads - 1);
    } else {
        assert(total + threads - 1 == threads * (q + 1) + (r - 1)) by (nonlinear_arith)
            requires
                total == threads * q + r,
        ;
        lemma_fundamental_div_mod_converse(total + threads - 1, threads, q + 1, r - 1);
    }
}

/// How a batched product is split.
#[derive(Debug, Clone, Copy, PartialEq, Eq)]
pub enum Split {
    /// Not at all.
    Serial,
    /// By rows of the weights.
    Rows,
    /// By activations.
    Batch,
}

/// The multiplications of a batched product.
pub open spec fn work(rows: int, batch: int, width: int) -> int {
    rows * batch * width
}

/// How a batched product is split: large ones by rows where there are enough of
/// them, else by activations where there are enough of those.
pub open spec fn split_of(rows: int, batch: int, width: int) -> Split {
    if work(rows, batch, width) < PAR_MIN_MACS {
        Split::Serial
    } else if rows >= 2 * MIN_PAR_ROWS {
        Split::Rows
    } else if batch >= 2 * MIN_PAR_BATCH {
        Split::Batch
    } else {
        Split::Serial
    }
}

/// The product, or the largest number where it is larger.
fn capped_product(a: usize, b: usize) -> (r: usize)
    ensures
        r == if a * b <= usize::MAX {
            a * b
        } else {
            usize::MAX as int
        },
{
    match a.checked_mul(b) {
        Some(p) => p,
        None => usize::MAX,
    }
}

/// How a batched product is split.
pub fn split(rows: usize, batch: usize, width: usize) -> (s: Split)
    ensures
        s == split_of(rows as int, batch as int, width as int),
{
    let a: usize = capped_product(rows, batch);
    let macs: usize = capped_product(a, width);
    proof {
        let p = rows * batch;
        let w = width as int;
        assert(p >= 0) by (nonlinear_arith)
            requires
                p == rows * batch,
        ;
        if a == p {
        } else if w == 0 {
            assert(p * w == 0) by (nonlinear_arith)
                requires
                    w == 0,
            ;
            assert(a * w == 0) by (nonlinear_arith)
                requires
                    w == 0,
            ;
        } else {
            assert(p * w >= p) by (nonlinear_arith)
                requires
                    p >= 0,
                    w >= 1,
            ;
            assert(a * w >= a) by (nonlinear_arith)
                requires
                    a >= 0,
                    w >= 1,
            ;
        }
    }
    if macs >= PAR_MIN_MACS {
        if rows >= 2 * MIN_PAR_ROWS {
            return Split::Rows;
        }
        if batch >= 2 * MIN_PAR_BATCH {
            return Split::Batch;
        }
    }
    Split::Serial
}

/// Whether a product with one activation is split.
pub fn should_parallelise(rows: usize, width: usize) -> (r: bool)
    ensures
        r == (rows >= 2 * MIN_PAR_ROWS && rows * width >= PAR_MIN_MACS),
{
    rows >= 2 * MIN_PAR_ROWS && capped_product(rows, width) >= PAR_MIN_MACS
}

/// Bands cover every item once: each starts where the one before it ends, and
/// none is shorter than is worth a thread but the last.
pub proof fn law_bands_cover_everything_once(bands: Seq<Band>, total: int, size: int, i: int)
    requires
        are_bands(bands, total, size),
        size > 0,
        0 <= i < total,
    ensures
        ({
            let k = i / size;
            &&& 0 <= k < bands.len()
            &&& bands[k].start <= i < bands[k].start + bands[k].len
            &&& forall|j: int|
                0 <= j < bands.len() && (#[trigger] bands[j]).start <= i < bands[j].start
                    + bands[j].len ==> j == k
        }),
{
    let k = i / size;
    let m = bands.len() as int;
    lemma_fundamental_div_mod(i, size);
    lemma_mod_bound(i, size);
    lemma_div_pos_is_pos(i, size);
    assert(k * size <= i < (k + 1) * size) by (nonlinear_arith)
        requires
            i == size * k + i % size,
            0 <= i % size < size,
    ;
    let last = bands[m - 1];
    assert((m - 1 + 1) * size == m * size);
    assert((m - 1) * size + size == m * size) by (nonlinear_arith);
    if k >= m {
        assert(m * size <= k * size) by (nonlinear_arith)
            requires
                m <= k,
                size > 0,
        ;
    }
    assert(bands[k].start == k * size);
    assert forall|j: int|
        0 <= j < bands.len() && (#[trigger] bands[j]).start <= i < bands[j].start
            + bands[j].len implies j == k by {
        if j < k {
            assert((j + 1) * size <= k * size) by (nonlinear_arith)
                requires
                    j + 1 <= k,
                    size > 0,
            ;
            assert((j + 1) * size == j * size + size) by (nonlinear_arith);
        } else if j > k {
            assert((k + 1) * size <= j * size) by (nonlinear_arith)
                requires
                    k + 1 <= j,
                    size > 0,
            ;
        }
    }
}

/// `y` holds the columns of every band of every activation: `parts[k]` holds
/// those of band `k`, activation by activation.
pub open spec fn joins_rows(
    y: Seq<u32>,
    parts: Seq<Vec<u32>>,
    bands: Seq<Band>,
    batch: int,
    rows: int,
    done: int,
) -> bool {
    &&& y.len() == batch * rows
    &&& forall|k: int, b: int, r: int|
        #![trigger y[b * rows + (bands[k].start + r)]]
        #![trigger parts[k]@[b * bands[k].len + r]]
        0 <= k < done && 0 <= b < batch && 0 <= r < bands[k].len ==> y[b * rows + (bands[k].start
            + r)] == parts[k]@[b * bands[k].len + r]
}

proof fn lemma_cell_in(b: int, batch: int, i: int, rows: int)
    requires
        0 <= b < batch,
        0 <= i < rows,
    ensures
        0 <= b * rows,
        0 <= b * rows + i < batch * rows,
{
    assert(0 <= b * rows && b * rows + rows <= batch * rows) by (nonlinear_arith)
        requires
            0 <= b,
            b + 1 <= batch,
            0 <= rows,
    ;
}

proof fn lemma_cell_differs(b: int, i: int, c: int, j: int, rows: int)
    requires
        0 <= i < rows,
        0 <= j < rows,
        b * rows + i == c * rows + j,
    ensures
        b == c,
        i == j,
{
    if b < c {
        assert(b * rows + rows <= c * rows) by (nonlinear_arith)
            requires
                b + 1 <= c,
                rows >= 0,
        ;
    } else if c < b {
        assert(c * rows + rows <= b * rows) by (nonlinear_arith)
            requires
                c + 1 <= b,
                rows >= 0,
        ;
    }
}

/// Where a band ends.
pub proof fn lemma_band_end(bands: Seq<Band>, total: int, size: int, k: int)
    requires
        are_bands(bands, total, size),
        size > 0,
        0 <= k < bands.len(),
    ensures
        bands[k].start + bands[k].len <= total,
        forall|j: int|
            0 <= j < k ==> (#[trigger] bands[j]).start + bands[j].len <= bands[k].start,
{
    let m = bands.len() as int;
    assert forall|j: int| 0 <= j < k implies (#[trigger] bands[j]).start + bands[j].len
        <= bands[k].start by {
        assert((j + 1) * size <= k * size) by (nonlinear_arith)
            requires
                j + 1 <= k,
                size > 0,
        ;
    }
    if k + 1 < m {
        let last = bands[m - 1];
        assert((k + 1) * size <= (m - 1) * size) by (nonlinear_arith)
            requires
                k + 1 <= m - 1,
                size > 0,
        ;
        assert(last.start == (m - 1) * size);
    }
}

/// Copy one band's columns into place.
fn place_band(
    y: &mut Vec<u32>,
    part: &Vec<u32>,
    band: Band,
    batch: usize,
    rows: usize,
)
    requires
        old(y)@.len() == batch * rows,
        part@.len() == batch * band.len,
        band.start + band.len <= rows,
    ensures
        final(y)@.len() == batch * rows,
        forall|b: int, i: int|
            #![trigger final(y)@[b * rows + i]]
            0 <= b < batch && 0 <= i < rows ==> final(y)@[b * rows + i] == if band.start <= i
                < band.start + band.len {
                part@[b * band.len + (i - band.start)]
            } else {
                old(y)@[b * rows + i]
            },
{
    let ghost before = y@;
    let total: usize = y.len();
    let n_part: usize = part.len();
    let mut b: usize = 0;
    while b < batch
        invariant
            b <= batch,
            total == batch * rows,
            n_part == part@.len(),
            before.len() == batch * rows,
            y@.len() == batch * rows,
            part@.len() == batch * band.len,
            band.start + band.len <= rows,
            forall|c: int, i: int|
                #![trigger y@[c * rows + i]]
                0 <= c < batch && 0 <= i < rows ==> y@[c * rows + i] == if c < b && band.start <= i
                    < band.start + band.len {
                    part@[c * band.len + (i - band.start)]
                } else {
                    before[c * rows + i]
                },
        decreases batch - b,
    {
        let mut r: usize = 0;
        while r < band.len
            invariant
                b < batch,
                r <= band.len,
                total == batch * rows,
                n_part == part@.len(),
                before.len() == batch * rows,
                y@.len() == batch * rows,
                part@.len() == batch * band.len,
                band.start + band.len <= rows,
                forall|c: int, i: int|
                    #![trigger y@[c * rows + i]]
                    0 <= c < batch && 0 <= i < rows ==> y@[c * rows + i] == if (c < b
                        && band.start <= i < band.start + band.len) || (c == b && band.start <= i
                        < band.start + r) {
                        part@[c * band.len + (i - band.start)]
                    } else {
                        before[c * rows + i]
                    },
            decreases band.len - r,
        {
            proof {
                lemma_cell_in(b as int, batch as int, band.start + r, rows as int);
                lemma_cell_in(b as int, batch as int, r as int, band.len as int);
            }
            let ghost mid = y@;
            let at: usize = b * rows + (band.start + r);
            y.set(at, part[b * band.len + r]);
            proof {
                assert forall|c: int, i: int|
                    #![trigger y@[c * rows + i]]
                    0 <= c < batch && 0 <= i < rows implies y@[c * rows + i] == if (c < b
                    && band.start <= i < band.start + band.len) || (c == b && band.start <= i
                    < band.start + (r + 1)) {
                    part@[c * band.len + (i - band.start)]
                } else {
                    before[c * rows + i]
                } by {
                    lemma_cell_in(c, batch as int, i, rows as int);
                    if c * rows + i == at {
                        lemma_cell_differs(c, i, b as int, band.start + r, rows as int);
                    } else {
                        assert(y@[c * rows + i] == mid[c * rows + i]);
                    }
                }
            }
            r = r + 1;
        }
        b = b + 1;
    }
}

/// Put the columns of row bands together. `parts[k]` holds those of band `k`,
/// which are bands of `size` rows.
pub fn join_rows(
    parts: &Vec<Vec<u32>>,
    bands: &Vec<Band>,
    size: usize,
    batch: usize,
    rows: usize,
) -> (y: Vec<u32>)
    requires
        batch * rows <= usize::MAX,
        size > 0,
        are_bands(bands@, rows as int, size as int),
        parts@.len() == bands@.len(),
        forall|k: int|
            0 <= k < parts@.len() ==> (#[trigger] parts@[k])@.len() == batch * bands@[k].len,
    ensures
        joins_rows(
            y@,
            parts@,
            bands@,
            batch as int,
            rows as int,
            bands@.len() as int,
        ),
{
    let mut y: Vec<u32> = crate::state::filled_cells(0u32, batch * rows);
    let mut k: usize = 0;
    while k < bands.len()
        invariant
            k <= bands@.len(),
            size > 0,
            are_bands(bands@, rows as int, size as int),
            parts@.len() == bands@.len(),
            forall|k: int|
                0 <= k < parts@.len() ==> (#[trigger] parts@[k])@.len() == batch * bands@[k].len,
            joins_rows(y@, parts@, bands@, batch as int, rows as int, k as int),
        decreases bands@.len() - k,
    {
        proof {
            lemma_band_end(bands@, rows as int, size as int, k as int);
        }
        let ghost before = y@;
        place_band(&mut y, &parts[k], bands[k], batch, rows);
        proof {
            assert forall|j: int, b: int, r: int|
                #![trigger y@[b * rows + (bands@[j].start + r)]]
                #![trigger parts@[j]@[b * bands@[j].len + r]]
                0 <= j < k + 1 && 0 <= b < batch && 0 <= r < bands@[j].len implies y@[b * rows + (
            bands@[j].start + r)] == parts@[j]@[b * bands@[j].len + r] by {
                lemma_band_end(bands@, rows as int, size as int, j);
                let i = bands@[j].start + r;
                assert(y@[b * rows + i] == y@[b * rows + i]);
                if j < k {
                    assert(before[b * rows + i] == parts@[j]@[b * bands@[j].len + r]);
                } else {
                    assert(i - bands@[j].start == r);
                }
            }
        }
        k = k + 1;
    }
    y
}

/// Splitting a product by rows changes no result: where every part holds the
/// products of its band, the whole holds those of all rows.
pub proof fn law_row_bands_change_no_product(
    n: Num<u32>,
    w: CqWeight,
    xh: Seq<u32>,
    y: Seq<u32>,
    parts: Seq<Vec<u32>>,
    bands: Seq<Band>,
    size: int,
    batch: int,
    start: int,
    rows: int,
)
    requires
        0 <= batch,
        0 <= rows,
        size > 0,
        are_bands(bands, rows, size),
        parts.len() == bands.len(),
        joins_rows(y, parts, bands, batch, rows, bands.len() as int),
        forall|k: int|
            0 <= k < parts.len() ==> are_products(
                (#[trigger] parts[k])@,
                n,
                w,
                xh,
                batch,
                start + bands[k].start,
                bands[k].len as int,
            ),
    ensures
        are_products(y, n, w, xh, batch, start, rows),
{
    assert forall|b: int, r: int|
        #![trigger y[b * rows + r]]
        0 <= b < batch && 0 <= r < rows implies y[b * rows + r] == product(
        n,
        w,
        start + r,
        activation(xh, b, w.in_padded as int),
    ) by {
        law_bands_cover_everything_once(bands, rows, size, r);
        let k = r / size;
        let j = r - bands[k].start;
        let part = parts[k]@;
        assert(are_products(
            part,
            n,
            w,
            xh,
            batch,
            start + bands[k].start,
            bands[k].len as int,
        ));
        assert(part[b * bands[k].len + j] == product(
            n,
            w,
            (start + bands[k].start) + j,
            activation(xh, b, w.in_padded as int),
        ));
        assert(y[b * rows + (bands[k].start + j)] == part[b * bands[k].len + j]);
    }
}

/// Splitting a product by activations changes no result: the products of the
/// first and of the other activations, one behind the other, are those of the
/// whole batch.
pub proof fn law_batch_bands_change_no_product(
    n: Num<u32>,
    w: CqWeight,
    xh: Seq<u32>,
    first: Seq<u32>,
    rest: Seq<u32>,
    a: int,
    batch: int,
    start: int,
    rows: int,
)
    requires
        0 <= a <= batch,
        0 <= rows,
        xh.len() == batch * w.in_padded,
        are_products(first, n, w, xh.take(a * w.in_padded), a, start, rows),
        are_products(rest, n, w, xh.skip(a * w.in_padded), batch - a, start, rows),
    ensures
        are_products(first + rest, n, w, xh, batch, start, rows),
{
    let y = first + rest;
    let d = w.in_padded as int;
    assert(a * rows + (batch - a) * rows == batch * rows) by (nonlinear_arith);
    assert(0 <= a * d <= batch * d) by (nonlinear_arith)
        requires
            0 <= a <= batch,
            0 <= d,
    ;
    assert forall|b: int, r: int|
        #![trigger y[b * rows + r]]
        0 <= b < batch && 0 <= r < rows implies y[b * rows + r] == product(
        n,
        w,
        start + r,
        activation(xh, b, d),
    ) by {
        if b < a {
            lemma_cell_in(b, a, r, rows);
            assert(first[b * rows + r] == product(
                n,
                w,
                start + r,
                activation(xh.take(a * d), b, d),
            ));
            assert(b * d + d <= a * d && 0 <= b * d) by (nonlinear_arith)
                requires
                    0 <= b,
                    b + 1 <= a,
                    0 <= d,
            ;
            assert(activation(xh.take(a * d), b, d) =~= activation(xh, b, d));
        } else {
            let c = b - a;
            lemma_cell_in(c, batch - a, r, rows);
            assert(b * rows == a * rows + c * rows) by (nonlinear_arith)
                requires
                    b == a + c,
            ;
            assert(b * d == a * d + c * d) by (nonlinear_arith)
                requires
                    b == a + c,
            ;
            assert(b * d + d <= batch * d) by (nonlinear_arith)
                requires
                    b + 1 <= batch,
                    0 <= d,
            ;
            assert(0 <= c * d) by (nonlinear_arith)
                requires
                    0 <= c,
                    0 <= d,
            ;
            assert(rest[c * rows + r] == product(
                n,
                w,
                start + r,
                activation(xh.skip(a * d), c, d),
            ));
            assert(activation(xh.skip(a * d), c, d) =~= activation(xh, b, d));
            assert(y[b * rows + r] == rest[c * rows + r]);
        }
    }
}

} // verus!
