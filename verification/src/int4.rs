//! Matrices quantised to 4 bits, with one scale for every group of rows and every
//! column.

use crate::arith::{Arith, Binary, Num, Unary};
use crate::bits::{f32_greater, f32_gt, f32_nan, SIGN_BIT};
use crate::hadamard::integers;
use crate::heads::raised;
use crate::quant::{law_packed_rows_read_back, pack_rows, packed_value, pair_byte, quant_shape, unpack_pair, GROUP_SIZE};
use vstd::arithmetic::div_mod::*;
use vstd::arithmetic::mul::*;
use vstd::prelude::*;
use vstd::slice::slice_subrange;

verus! {

/// Bits of the smallest scale, 1e-8.
pub const SCALE_MIN: u32 = 0x322B_CC77;

/// Bits of 7, the largest quantised value.
pub const SEVEN: u32 = 0x40E0_0000;

/// A float without its sign.
pub open spec fn magnitude(v: u32) -> u32 {
    if v >= SIGN_BIT {
        (v - SIGN_BIT) as u32
    } else {
        v
    }
}

/// Rows that share a scale.
pub open spec fn group_rows(in_feat: int) -> int {
    if in_feat < GROUP_SIZE {
        in_feat
    } else {
        GROUP_SIZE as int
    }
}

/// Groups of a matrix with `in_feat` rows.
pub open spec fn group_total(in_feat: int) -> int {
    (in_feat + group_rows(in_feat) - 1) / group_rows(in_feat)
}

/// Packed row pairs of a matrix with `in_feat` rows. Of an odd number of rows the
/// last one has a pair of its own.
pub open spec fn pair_total(in_feat: int) -> int {
    (group_total(in_feat) * group_rows(in_feat) + 1) / 2
}

/// The largest magnitude among the first `k` rows of a group, in one column.
pub open spec fn largest(w: Seq<u32>, in_feat: int, out_feat: int, first: int, k: int, o: int) -> u32
    decreases k,
{
    if k <= 0 {
        0
    } else {
        let before = largest(w, in_feat, out_feat, first, k - 1, o);
        let row = first + k - 1;
        if row < in_feat {
            raised(magnitude(w[row * out_feat + o]), before)
        } else {
            before
        }
    }
}

/// The scale of a group in one column: the largest magnitude over seven, and no
/// less than the smallest scale.
pub open spec fn scale_of(n: Num<u32>, w: Seq<u32>, in_feat: int, out_feat: int, g: int, o: int) -> u32 {
    let rows = group_rows(in_feat);
    n.larger(n.over(largest(w, in_feat, out_feat, g * rows, rows, o), SEVEN), SCALE_MIN)
}

/// The nearest value from -8 to 7, as a caller supplies it.
pub open spec fn nearest_of<F: Fn(u32) -> i8>(f: F, v: u32) -> i8 {
    choose|q: i8| call_ensures(f, (v,), q)
}

/// A caller's way to the nearest value is a function into -8 to 7.
pub open spec fn is_nearest<F: Fn(u32) -> i8>(f: F) -> bool {
    &&& forall|v: u32| #[trigger] call_requires(f, (v,))
    &&& forall|v: u32, q: i8, r: i8|
        #[trigger] call_ensures(f, (v,), q) && #[trigger] call_ensures(f, (v,), r) ==> q == r
    &&& forall|v: u32, q: i8| #[trigger] call_ensures(f, (v,), q) ==> -8 <= q <= 7
}

/// The quantised values of a matrix, row-major.
pub open spec fn quantised<F: Fn(u32) -> i8>(
    n: Num<u32>,
    f: F,
    w: Seq<u32>,
    in_feat: int,
    out_feat: int,
) -> Seq<i8> {
    Seq::new(
        (in_feat * out_feat) as nat,
        |i: int|
            nearest_of(
                f,
                n.over(
                    w[i],
                    scale_of(
                        n,
                        w,
                        in_feat,
                        out_feat,
                        (i / out_feat) / group_rows(in_feat),
                        i % out_feat,
                    ),
                ),
            ),
    )
}

/// A signed quantised value as a number.
pub open spec fn signed<T>(n: Num<T>, v: int) -> T {
    if v < 0 {
        n.minus(n.zero, n.number(-v))
    } else {
        n.number(v)
    }
}

/// A matrix of 4-bit values, two rows to a byte, with its scales as float bits.
pub struct QuantizedWeight {
    /// `data[pair * out_feat + o]` holds rows `2 * pair` and `2 * pair + 1` of
    /// column `o`.
    pub data: Vec<u8>,
    /// `scales[g * out_feat + o]` is the scale of group `g` in column `o`.
    pub scales: Vec<u32>,
    pub in_feat: usize,
    pub out_feat: usize,
    pub num_groups: usize,
}

/// The number at one row and column: the packed value times its scale.
pub open spec fn dequantised<T>(
    n: Num<T>,
    data: Seq<u8>,
    scales: Seq<T>,
    in_feat: int,
    out_feat: int,
    row: int,
    o: int,
) -> T {
    n.times(
        signed(n, packed_value(data, out_feat, row, o)),
        scales[(row / group_rows(in_feat)) * out_feat + o],
    )
}

/// Entry `row` of an input, zero in padding rows.
pub open spec fn input_at<T>(n: Num<T>, in_feat: int, x: Seq<T>, row: int) -> T {
    if row < in_feat {
        x[row]
    } else {
        n.zero
    }
}

/// What a pair of rows adds to a column of the product.
pub open spec fn pair_term<T>(
    n: Num<T>,
    data: Seq<u8>,
    scales: Seq<T>,
    in_feat: int,
    out_feat: int,
    x: Seq<T>,
    pair: int,
    o: int,
) -> T {
    let lo = signed(n, packed_value(data, out_feat, 2 * pair, o));
    let hi = signed(n, packed_value(data, out_feat, 2 * pair + 1, o));
    n.times(
        n.plus(
            n.times(lo, input_at(n, in_feat, x, 2 * pair)),
            n.times(hi, input_at(n, in_feat, x, 2 * pair + 1)),
        ),
        scales[(2 * pair / group_rows(in_feat)) * out_feat + o],
    )
}

/// A column of the product over the first `k` pairs of rows.
pub open spec fn column<T>(
    n: Num<T>,
    data: Seq<u8>,
    scales: Seq<T>,
    in_feat: int,
    out_feat: int,
    x: Seq<T>,
    k: int,
    o: int,
) -> T
    decreases k,
{
    if k <= 0 {
        n.zero
    } else {
        n.plus(
            column(n, data, scales, in_feat, out_feat, x, k - 1, o),
            pair_term(n, data, scales, in_feat, out_feat, x, k - 1, o),
        )
    }
}

proof fn lemma_cell(a: int, n: int, b: int, m: int)
    requires
        0 <= a < n,
        0 <= b < m,
    ensures
        0 <= a * m,
        a * m + b < n * m,
        a * m + m <= n * m,
        (a * m + b) / m == a,
        (a * m + b) % m == b,
{
    assert(0 <= a * m && a * m + m <= n * m) by (nonlinear_arith)
        requires
            0 <= a,
            a + 1 <= n,
            0 <= m,
    ;
    lemma_mul_is_commutative(a, m);
    lemma_fundamental_div_mod_converse(a * m + b, m, a, b);
}

/// The sizes of a matrix with `in_feat` rows.
proof fn lemma_totals(in_feat: int)
    requires
        0 < in_feat,
    ensures
        0 < group_total(in_feat) <= in_feat,
        group_total(in_feat) * group_rows(in_feat) >= in_feat,
        group_total(in_feat) * group_rows(in_feat) < in_feat + group_rows(in_feat),
        0 <= pair_total(in_feat) <= in_feat,
        in_feat <= 2 * pair_total(in_feat) <= group_total(in_feat) * group_rows(in_feat) + 1,
        in_feat < GROUP_SIZE ==> group_total(in_feat) == 1,
        in_feat < GROUP_SIZE ==> 2 * pair_total(in_feat) <= in_feat + 1,
        in_feat >= GROUP_SIZE ==> 2 * pair_total(in_feat) == GROUP_SIZE * group_total(in_feat),
{
    let g = group_rows(in_feat);
    let t = group_total(in_feat);
    lemma_fundamental_div_mod(in_feat + g - 1, g);
    assert(in_feat + g - 1 == g * t + (in_feat + g - 1) % g);
    lemma_mul_is_commutative(g, t);
    if in_feat < GROUP_SIZE {
        assert(t == 1) by (nonlinear_arith)
            requires
                in_feat + g - 1 == g * t + (in_feat + g - 1) % g,
                g == in_feat,
                0 <= (in_feat + g - 1) % g < g,
                g > 0,
        ;
    } else {
        assert(g == 32);
        assert(32 * t <= in_feat + 31);
    }
}

/// The rows of a packed pair belong to one group, where both are rows of the
/// matrix or of its padding.
proof fn lemma_pair_in_group(in_feat: int, pair: int)
    requires
        0 < in_feat,
        0 <= pair < pair_total(in_feat),
    ensures
        2 * pair + 1 < in_feat || in_feat >= GROUP_SIZE ==> (2 * pair) / group_rows(in_feat) == (2
            * pair + 1) / group_rows(in_feat),
        0 <= (2 * pair) / group_rows(in_feat) < group_total(in_feat),
{
    let g = group_rows(in_feat);
    let t = group_total(in_feat);
    lemma_totals(in_feat);
    if in_feat < GROUP_SIZE {
        assert(t * g == g) by (nonlinear_arith)
            requires
                t == 1,
        ;
        assert(2 * pair < g);
        lemma_basic_div(2 * pair, g);
        if 2 * pair + 1 < g {
            lemma_basic_div(2 * pair + 1, g);
        }
    } else {
        assert(g == 32);
        assert(2 * pair + 1 < 32 * t);
    }
}

impl QuantizedWeight {
    /// Well-formedness: the buffers have the sizes of the shape.
    pub open spec fn wf(&self) -> bool {
        &&& 0 < self.in_feat <= usize::MAX - GROUP_SIZE
        &&& self.num_groups == group_total(self.in_feat as int)
        &&& self.data@.len() == pair_total(self.in_feat as int) * self.out_feat
        &&& self.scales@.len() == self.num_groups * self.out_feat
    }

    /// The matrix holds the quantised values and scales of `w`.
    pub open spec fn is_quantised<F: Fn(u32) -> i8>(&self, n: Num<u32>, f: F, w: Seq<u32>) -> bool {
        let i = self.in_feat as int;
        let c = self.out_feat as int;
        &&& forall|g: int, o: int|
            #![trigger self.scales@[g * c + o]]
            0 <= g < self.num_groups && 0 <= o < c ==> self.scales@[g * c + o] == scale_of(
                n,
                w,
                i,
                c,
                g,
                o,
            )
        &&& forall|p: int, o: int|
            #![trigger self.data@[p * c + o]]
            0 <= p < pair_total(i) && 0 <= o < c ==> self.data@[p * c + o] == pair_byte(
                quantised(n, f, w, i, c),
                i,
                c,
                p,
                o,
            )
    }

    /// Quantise a matrix of `in_feat` rows and `out_feat` columns.
    pub fn quantize<
        U: Fn(Unary, u32) -> u32 + Sync,
        B: Fn(Binary, u32, u32) -> u32 + Sync,
        C: Fn(usize) -> u32 + Sync,
        F: Fn(u32) -> i8,
    >(
        ar: &Arith<U, B, C>,
        nearest: &F,
        w: &[u32],
        in_feat: usize,
        out_feat: usize,
    ) -> (r: QuantizedWeight)
        requires
            ar.wf(),
            is_nearest(*nearest),
            0 < in_feat <= usize::MAX - GROUP_SIZE,
            w@.len() == in_feat * out_feat,
        ensures
            r.wf(),
            r.in_feat == in_feat,
            r.out_feat == out_feat,
            r.is_quantised(ar@, *nearest, w@),
    {
        let shape = quant_shape(in_feat);
        let total: usize = w.len();
        proof {
            lemma_totals(in_feat as int);
            lemma_mul_inequality(group_total(in_feat as int), in_feat as int, out_feat as int);
            lemma_mul_inequality(pair_total(in_feat as int), in_feat as int, out_feat as int);
        }
        let scales = group_scales(ar, w, in_feat, out_feat, shape.num_groups);
        let cells: usize = scales.len();
        let mut q: Vec<i8> = Vec::new();
        let ghost want = quantised(ar@, *nearest, w@, in_feat as int, out_feat as int);
        let mut i: usize = 0;
        while i < total
            invariant
                i <= total,
                total == w@.len(),
                w@.len() == in_feat * out_feat,
                ar.wf(),
                is_nearest(*nearest),
                0 < in_feat,
                shape.group == group_rows(in_feat as int),
                shape.num_groups == group_total(in_feat as int),
                cells == scales@.len(),
                scales@.len() == shape.num_groups * out_feat,
                forall|g: int, o: int|
                    #![trigger scales@[g * out_feat + o]]
                    0 <= g < shape.num_groups && 0 <= o < out_feat ==> scales@[g * out_feat + o]
                        == scale_of(ar@, w@, in_feat as int, out_feat as int, g, o),
                want == quantised(ar@, *nearest, w@, in_feat as int, out_feat as int),
                q@.len() == i,
                forall|j: int| 0 <= j < i ==> #[trigger] q@[j] == want[j],
                forall|j: int| 0 <= j < i ==> -8 <= #[trigger] q@[j] <= 7,
            decreases total - i,
        {
            proof {
                if out_feat == 0 {
                    assert(in_feat * out_feat == 0) by (nonlinear_arith)
                        requires
                            out_feat == 0,
                    ;
                }
            }
            let row: usize = i / out_feat;
            let o: usize = i % out_feat;
            let g: usize = row / shape.group;
            proof {
                lemma_row_group(in_feat as int, out_feat as int, i as int);
                lemma_cell(g as int, shape.num_groups as int, o as int, out_feat as int);
            }
            let v: u32 = ar.div(w[i], scales[g * out_feat + o]);
            let n: i8 = nearest(v);
            assert(n == nearest_of(*nearest, v));
            q.push(n);
            i = i + 1;
        }
        assert(q@ =~= want);
        let data = pack_rows(q.as_slice(), in_feat, out_feat, shape.num_pairs);
        QuantizedWeight { data, scales, in_feat, out_feat, num_groups: shape.num_groups }
    }
}

proof fn lemma_row_group(in_feat: int, out_feat: int, i: int)
    requires
        0 < in_feat,
        0 < out_feat,
        0 <= i < in_feat * out_feat,
    ensures
        0 <= i / out_feat < in_feat,
        0 <= i % out_feat < out_feat,
        0 <= (i / out_feat) / group_rows(in_feat) < group_total(in_feat),
{
    let row = i / out_feat;
    let g = group_rows(in_feat);
    lemma_fundamental_div_mod(i, out_feat);
    assert(0 <= row < in_feat) by (nonlinear_arith)
        requires
            i == out_feat * row + i % out_feat,
            0 <= i % out_feat < out_feat,
            0 <= i < in_feat * out_feat,
    ;
    lemma_totals(in_feat);
    lemma_fundamental_div_mod(row, g);
    let k = row / g;
    assert(0 <= k < group_total(in_feat)) by (nonlinear_arith)
        requires
            row == g * k + row % g,
            0 <= row % g < g,
            0 <= row < in_feat,
            group_total(in_feat) * g >= in_feat,
    ;
}

/// The scales of all groups.
fn group_scales<U: Fn(Unary, u32) -> u32 + Sync, B: Fn(Binary, u32, u32) -> u32 + Sync, C: Fn(usize) -> u32 + Sync>(
    ar: &Arith<U, B, C>,
    w: &[u32],
    in_feat: usize,
    out_feat: usize,
    groups: usize,
) -> (scales: Vec<u32>)
    requires
        ar.wf(),
        0 < in_feat <= usize::MAX - GROUP_SIZE,
        w@.len() == in_feat * out_feat,
        groups == group_total(in_feat as int),
        groups * out_feat <= usize::MAX,
    ensures
        scales@.len() == groups * out_feat,
        forall|g: int, o: int|
            #![trigger scales@[g * out_feat + o]]
            0 <= g < groups && 0 <= o < out_feat ==> scales@[g * out_feat + o] == scale_of(
                ar@,
                w@,
                in_feat as int,
                out_feat as int,
                g,
                o,
            ),
{
    let rows: usize = if in_feat < GROUP_SIZE {
        in_feat
    } else {
        GROUP_SIZE
    };
    let cells: usize = groups * out_feat;
    let mut scales: Vec<u32> = Vec::new();
    let mut c: usize = 0;
    while c < cells
        invariant
            c <= cells,
            cells == groups * out_feat,
            ar.wf(),
            0 < in_feat <= usize::MAX - GROUP_SIZE,
            w@.len() == in_feat * out_feat,
            rows == group_rows(in_feat as int),
            groups == group_total(in_feat as int),
            scales@.len() == c,
            forall|i: int|
                0 <= i < c ==> #[trigger] scales@[i] == scale_of(
                    ar@,
                    w@,
                    in_feat as int,
                    out_feat as int,
                    i / (out_feat as int),
                    i % (out_feat as int),
                ),
        decreases cells - c,
    {
        proof {
            if out_feat == 0 {
                assert(groups * out_feat == 0) by (nonlinear_arith)
                    requires
                        out_feat == 0,
                ;
            }
            lemma_fundamental_div_mod(c as int, out_feat as int);
            let k = c as int / out_feat as int;
            assert(0 <= k < groups) by (nonlinear_arith)
                requires
                    c == out_feat * k + c as int % out_feat as int,
                    0 <= c as int % (out_feat as int) < out_feat,
                    0 <= c < groups * out_feat,
            ;
            lemma_totals(in_feat as int);
            assert(k * rows + rows <= groups * rows) by (nonlinear_arith)
                requires
                    k + 1 <= groups,
                    rows >= 0,
            ;
            assert(0 <= k * rows) by (nonlinear_arith)
                requires
                    0 <= k,
                    rows >= 0,
            ;
        }
        let g: usize = c / out_feat;
        let o: usize = c % out_feat;
        let m: u32 = largest_in_group(w, in_feat, out_feat, g * rows, rows, o);
        scales.push(ar.max(ar.div(m, SEVEN), SCALE_MIN));
        c = c + 1;
    }
    proof {
        assert forall|g: int, o: int|
            #![trigger scales@[g * out_feat + o]]
            0 <= g < groups && 0 <= o < out_feat implies scales@[g * out_feat + o] == scale_of(
            ar@,
            w@,
            in_feat as int,
            out_feat as int,
            g,
            o,
        ) by {
            lemma_cell(g, groups as int, o, out_feat as int);
        }
    }
    scales
}

/// The largest magnitude of one group and column.
fn largest_in_group(
    w: &[u32],
    in_feat: usize,
    out_feat: usize,
    first: usize,
    rows: usize,
    o: usize,
) -> (m: u32)
    requires
        w@.len() == in_feat * out_feat,
        o < out_feat,
        first + rows <= usize::MAX,
    ensures
        m == largest(w@, in_feat as int, out_feat as int, first as int, rows as int, o as int),
{
    let total: usize = w.len();
    let mut m: u32 = 0;
    let mut k: usize = 0;
    while k < rows
        invariant
            k <= rows,
            total == w@.len(),
            w@.len() == in_feat * out_feat,
            o < out_feat,
            first + rows <= usize::MAX,
            m == largest(w@, in_feat as int, out_feat as int, first as int, k as int, o as int),
        decreases rows - k,
    {
        let row: usize = first + k;
        if row < in_feat {
            proof {
                lemma_cell(row as int, in_feat as int, o as int, out_feat as int);
            }
            let v: u32 = w[row * out_feat + o];
            let v: u32 = if v >= SIGN_BIT {
                v - SIGN_BIT
            } else {
                v
            };
            if f32_gt(v, m) {
                m = v;
            }
        }
        k = k + 1;
    }
    m
}

/// A signed quantised value as a number.
fn signed_number<U: Fn(Unary, u32) -> u32 + Sync, B: Fn(Binary, u32, u32) -> u32 + Sync, C: Fn(usize) -> u32 + Sync>(
    ar: &Arith<U, B, C>,
    v: i8,
) -> (r: u32)
    requires
        ar.wf(),
    ensures
        r == signed(ar@, v as int),
{
    if v < 0 {
        ar.sub(0, ar.number((-(v as i16)) as usize))
    } else {
        ar.number(v as usize)
    }
}

impl QuantizedWeight {
    /// Write the numbers of the matrix out, row by row.
    pub fn dequantize_to<
        U: Fn(Unary, u32) -> u32 + Sync,
        B: Fn(Binary, u32, u32) -> u32 + Sync,
        C: Fn(usize) -> u32 + Sync,
    >(&self, ar: &Arith<U, B, C>, out: &mut Vec<u32>)
        requires
            ar.wf(),
            self.wf(),
            old(out)@.len() == self.in_feat * self.out_feat,
        ensures
            final(out)@.len() == old(out)@.len(),
            forall|row: int, o: int|
                #![trigger final(out)@[row * self.out_feat + o]]
                0 <= row < self.in_feat && 0 <= o < self.out_feat ==> final(out)@[row
                    * self.out_feat + o] == dequantised(
                    ar@,
                    self.data@,
                    self.scales@,
                    self.in_feat as int,
                    self.out_feat as int,
                    row,
                    o,
                ),
    {
        let total: usize = out.len();
        let bytes: usize = self.data.len();
        let cells: usize = self.scales.len();
        let group: usize = if self.in_feat < GROUP_SIZE {
            self.in_feat
        } else {
            GROUP_SIZE
        };
        let ghost pairs = pair_total(self.in_feat as int);
        proof {
            lemma_totals(self.in_feat as int);
        }
        let mut i: usize = 0;
        while i < total
            invariant
                i <= total,
                total == out@.len(),
                total == self.in_feat * self.out_feat,
                bytes == self.data@.len(),
                cells == self.scales@.len(),
                ar.wf(),
                self.wf(),
                group == group_rows(self.in_feat as int),
                pairs == pair_total(self.in_feat as int),
                self.in_feat <= 2 * pairs,
                forall|j: int|
                    0 <= j < i ==> #[trigger] out@[j] == dequantised(
                        ar@,
                        self.data@,
                        self.scales@,
                        self.in_feat as int,
                        self.out_feat as int,
                        j / (self.out_feat as int),
                        j % (self.out_feat as int),
                    ),
            decreases total - i,
        {
            proof {
                if self.out_feat == 0 {
                    assert(self.in_feat * self.out_feat == 0) by (nonlinear_arith)
                        requires
                            self.out_feat == 0,
                    ;
                }
                lemma_row_group(self.in_feat as int, self.out_feat as int, i as int);
            }
            let row: usize = i / self.out_feat;
            let o: usize = i % self.out_feat;
            proof {
                lemma_cell((row / 2) as int, pairs, o as int, self.out_feat as int);
                lemma_cell(
                    (row / group) as int,
                    self.num_groups as int,
                    o as int,
                    self.out_feat as int,
                );
            }
            let both = unpack_pair(self.data[(row / 2) * self.out_feat + o]);
            let v: i8 = if row % 2 == 0 {
                both.0
            } else {
                both.1
            };
            let scale: u32 = self.scales[(row / group) * self.out_feat + o];
            out.set(i, ar.mul(signed_number(ar, v), scale));
            i = i + 1;
        }
        proof {
            assert forall|row: int, o: int|
                #![trigger out@[row * self.out_feat + o]]
                0 <= row < self.in_feat && 0 <= o < self.out_feat implies out@[row * self.out_feat
                + o] == dequantised(
                ar@,
                self.data@,
                self.scales@,
                self.in_feat as int,
                self.out_feat as int,
                row,
                o,
            ) by {
                lemma_cell(row, self.in_feat as int, o, self.out_feat as int);
            }
        }
    }

    /// The product of an input of `in_feat` numbers with the matrix, pair of rows
    /// by pair of rows.
    pub open spec fn product(&self, n: Num<u32>, x: Seq<u32>) -> Seq<u32> {
        Seq::new(
            self.out_feat as nat,
            |o: int|
                column(
                    n,
                    self.data@,
                    self.scales@,
                    self.in_feat as int,
                    self.out_feat as int,
                    x,
                    pair_total(self.in_feat as int),
                    o,
                ),
        )
    }

    /// One column of the product.
    fn column_value<
        U: Fn(Unary, u32) -> u32 + Sync,
        B: Fn(Binary, u32, u32) -> u32 + Sync,
        C: Fn(usize) -> u32 + Sync,
    >(&self, ar: &Arith<U, B, C>, x: &[u32], o: usize) -> (v: u32)
        requires
            ar.wf(),
            self.wf(),
            x@.len() == self.in_feat,
            o < self.out_feat,
        ensures
            v == self.product(ar@, x@)[o as int],
    {
        let bytes: usize = self.data.len();
        let cells: usize = self.scales.len();
        let group: usize = if self.in_feat < GROUP_SIZE {
            self.in_feat
        } else {
            GROUP_SIZE
        };
        proof {
            lemma_totals(self.in_feat as int);
        }
        let padded: usize = self.num_groups * group;
        let pairs: usize = padded / 2 + padded % 2;
        let mut acc: u32 = 0;
        let mut p: usize = 0;
        while p < pairs
            invariant
                p <= pairs,
                ar.wf(),
                self.wf(),
                x@.len() == self.in_feat,
                o < self.out_feat,
                bytes == self.data@.len(),
                cells == self.scales@.len(),
                group == group_rows(self.in_feat as int),
                pairs == pair_total(self.in_feat as int),
                2 * pairs <= usize::MAX,
                acc == column(
                    ar@,
                    self.data@,
                    self.scales@,
                    self.in_feat as int,
                    self.out_feat as int,
                    x@,
                    p as int,
                    o as int,
                ),
            decreases pairs - p,
        {
            proof {
                lemma_pair_in_group(self.in_feat as int, p as int);
                lemma_cell(p as int, pairs as int, o as int, self.out_feat as int);
                lemma_cell(
                    (2 * p) as int / group as int,
                    self.num_groups as int,
                    o as int,
                    self.out_feat as int,
                );
            }
            let r0: usize = p * 2;
            let x0: u32 = if r0 < self.in_feat {
                x[r0]
            } else {
                0
            };
            let x1: u32 = if r0 + 1 < self.in_feat {
                x[r0 + 1]
            } else {
                0
            };
            let both = unpack_pair(self.data[p * self.out_feat + o]);
            let lo: u32 = signed_number(ar, both.0);
            let hi: u32 = signed_number(ar, both.1);
            let scale: u32 = self.scales[(r0 / group) * self.out_feat + o];
            acc = ar.add(acc, ar.mul(ar.add(ar.mul(lo, x0), ar.mul(hi, x1)), scale));
            p = p + 1;
        }
        acc
    }

    /// The product of an input of `in_feat` numbers with the matrix.
    pub fn matvec<
        U: Fn(Unary, u32) -> u32 + Sync,
        B: Fn(Binary, u32, u32) -> u32 + Sync,
        C: Fn(usize) -> u32 + Sync,
    >(&self, ar: &Arith<U, B, C>, x: &[u32]) -> (y: Vec<u32>)
        requires
            ar.wf(),
            self.wf(),
            x@.len() == self.in_feat,
        ensures
            y@ == self.product(ar@, x@),
    {
        let mut y: Vec<u32> = Vec::new();
        let mut o: usize = 0;
        while o < self.out_feat
            invariant
                o <= self.out_feat,
                ar.wf(),
                self.wf(),
                x@.len() == self.in_feat,
                y@.len() == o,
                forall|i: int| 0 <= i < o ==> #[trigger] y@[i] == self.product(ar@, x@)[i],
            decreases self.out_feat - o,
        {
            y.push(self.column_value(ar, x, o));
            o = o + 1;
        }
        assert(y@ =~= self.product(ar@, x@));
        y
    }

    /// The products of the first `k` inputs of a batch, one behind the other.
    pub open spec fn products(&self, n: Num<u32>, x: Seq<u32>, k: int) -> Seq<u32>
        decreases k,
    {
        if k <= 0 {
            Seq::empty()
        } else {
            self.products(n, x, k - 1) + self.product(
                n,
                x.subrange((k - 1) * self.in_feat, (k - 1) * self.in_feat + self.in_feat),
            )
        }
    }

    /// The products of a batch of inputs with the matrix.
    pub fn matmul<
        U: Fn(Unary, u32) -> u32 + Sync,
        B: Fn(Binary, u32, u32) -> u32 + Sync,
        C: Fn(usize) -> u32 + Sync,
    >(&self, ar: &Arith<U, B, C>, x: &[u32], batch: usize) -> (y: Vec<u32>)
        requires
            ar.wf(),
            self.wf(),
            x@.len() == batch * self.in_feat,
        ensures
            y@ == self.products(ar@, x@, batch as int),
    {
        let total: usize = x.len();
        let mut y: Vec<u32> = Vec::new();
        let mut b: usize = 0;
        while b < batch
            invariant
                b <= batch,
                ar.wf(),
                self.wf(),
                total == x@.len(),
                x@.len() == batch * self.in_feat,
                y@ == self.products(ar@, x@, b as int),
            decreases batch - b,
        {
            proof {
                lemma_cell(b as int, batch as int, 0, self.in_feat as int);
            }
            let part = slice_subrange(x, b * self.in_feat, b * self.in_feat + self.in_feat);
            let mut row = self.matvec(ar, part);
            y.append(&mut row);
            b = b + 1;
        }
        y
    }
}

/// Every row comes back from quantising: the number at a row and column is its
/// nearest quantised value times the scale of its group.
pub proof fn law_every_row_comes_back<F: Fn(u32) -> i8>(
    q: QuantizedWeight,
    n: Num<u32>,
    f: F,
    w: Seq<u32>,
    row: int,
    o: int,
)
    requires
        q.wf(),
        forall|v: u32| -8 <= #[trigger] nearest_of(f, v) <= 7,
        w.len() == q.in_feat * q.out_feat,
        q.is_quantised(n, f, w),
        0 <= row < q.in_feat,
        0 <= o < q.out_feat,
    ensures
        dequantised(n, q.data@, q.scales@, q.in_feat as int, q.out_feat as int, row, o) == n.times(
            signed(
                n,
                quantised(n, f, w, q.in_feat as int, q.out_feat as int)[row * q.out_feat + o] as int,
            ),
            scale_of(
                n,
                w,
                q.in_feat as int,
                q.out_feat as int,
                row / group_rows(q.in_feat as int),
                o,
            ),
        ),
{
    let i = q.in_feat as int;
    let c = q.out_feat as int;
    let g = row / group_rows(i);
    let all = quantised(n, f, w, i, c);
    lemma_totals(i);
    lemma_cell(row, i, o, c);
    lemma_row_group(i, c, row * c + o);
    assert(q.scales@[g * c + o] == scale_of(n, w, i, c, g, o));
    assert forall|j: int| 0 <= j < all.len() implies -8 <= #[trigger] all[j] <= 7 by {
        let v = n.over(w[j], scale_of(n, w, i, c, (j / c) / group_rows(i), j % c));
        assert(-8 <= nearest_of(f, v) <= 7);
    }
    law_packed_rows_read_back(all, q.data@, i, c, pair_total(i), row, o);
}

/// The dot product of an input with the dequantised numbers of a column, over the
/// first `k` rows.
pub open spec fn dequantised_dot(
    data: Seq<u8>,
    scales: Seq<int>,
    in_feat: int,
    out_feat: int,
    x: Seq<int>,
    k: int,
    o: int,
) -> int
    decreases k,
{
    if k <= 0 {
        0
    } else {
        dequantised_dot(data, scales, in_feat, out_feat, x, k - 1, o) + input_at(
            integers(),
            in_feat,
            x,
            k - 1,
        ) * dequantised(integers(), data, scales, in_feat, out_feat, k - 1, o)
    }
}

/// Where arithmetic is exact, the product pair by pair is the product with the
/// dequantised matrix.
pub proof fn law_product_is_that_of_the_dequantised_matrix(
    data: Seq<u8>,
    scales: Seq<int>,
    in_feat: int,
    out_feat: int,
    x: Seq<int>,
    k: int,
    o: int,
)
    requires
        0 < in_feat,
        0 <= k <= pair_total(in_feat),
    ensures
        column(integers(), data, scales, in_feat, out_feat, x, k, o) == dequantised_dot(
            data,
            scales,
            in_feat,
            out_feat,
            x,
            2 * k,
            o,
        ),
    decreases k,
{
    if k > 0 {
        let n = integers();
        let p = k - 1;
        law_product_is_that_of_the_dequantised_matrix(data, scales, in_feat, out_feat, x, p, o);
        lemma_pair_in_group(in_feat, p);
        let s = scales[(2 * p / group_rows(in_feat)) * out_feat + o];
        let lo = signed(n, packed_value(data, out_feat, 2 * p, o));
        let hi = signed(n, packed_value(data, out_feat, 2 * p + 1, o));
        let x0 = input_at(n, in_feat, x, 2 * p);
        let x1 = input_at(n, in_feat, x, 2 * p + 1);
        let t = scales[((2 * p + 1) / group_rows(in_feat)) * out_feat + o];
        assert(x1 * (hi * t) == x1 * (hi * s)) by (nonlinear_arith)
            requires
                s == t || x1 == 0,
        ;
        assert((lo * x0 + hi * x1) * s == x0 * (lo * s) + x1 * (hi * s)) by (nonlinear_arith);
        let one = dequantised_dot(data, scales, in_feat, out_feat, x, 2 * p + 1, o);
        assert(one == dequantised_dot(data, scales, in_feat, out_feat, x, 2 * p, o) + x0 * (lo * s));
        assert(dequantised_dot(data, scales, in_feat, out_feat, x, 2 * k, o) == one + x1 * (hi * t));
    }
}

/// A scale covers its group: it is the largest magnitude among the entries of the group
/// and column over seven, which none of them is above, and no less than one
/// hundred-millionth.
pub proof fn law_scales_cover_their_group(
    n: Num<u32>,
    w: Seq<u32>,
    in_feat: int,
    out_feat: int,
    g: int,
    o: int,
    top: u32,
)
    requires
        top == largest(
            w,
            in_feat,
            out_feat,
            g * group_rows(in_feat),
            group_rows(in_feat),
            o,
        ),
    ensures
        scale_of(n, w, in_feat, out_feat, g, o) == n.larger(n.over(top, 0x40E0_0000), 0x322B_CC77),
        forall|row: int|
            g * group_rows(in_feat) <= row < g * group_rows(in_feat) + group_rows(in_feat) && row
                < in_feat ==> !f32_greater(magnitude(#[trigger] w[row * out_feat + o]), top),
        top == 0 || exists|row: int|
            g * group_rows(in_feat) <= row < in_feat && top == magnitude(
                #[trigger] w[row * out_feat + o],
            ),
{
    lemma_largest(w, in_feat, out_feat, g * group_rows(in_feat), group_rows(in_feat), o);
}

proof fn lemma_largest(w: Seq<u32>, in_feat: int, out_feat: int, first: int, k: int, o: int)
    ensures
        !f32_nan(largest(w, in_feat, out_feat, first, k, o)),
        forall|row: int|
            first <= row < first + k && row < in_feat ==> !f32_greater(
                magnitude(#[trigger] w[row * out_feat + o]),
                largest(w, in_feat, out_feat, first, k, o),
            ),
        largest(w, in_feat, out_feat, first, k, o) == 0 || exists|row: int|
            first <= row < in_feat && largest(w, in_feat, out_feat, first, k, o) == magnitude(
                #[trigger] w[row * out_feat + o],
            ),
    decreases k,
{
    if k > 0 {
        lemma_largest(w, in_feat, out_feat, first, k - 1, o);
        let last = first + k - 1;
        assert forall|row: int| first <= row < first + k && row < in_feat implies !f32_greater(
            magnitude(#[trigger] w[row * out_feat + o]),
            largest(w, in_feat, out_feat, first, k, o),
        ) by {
            assert(row == last || row < last);
        }
    }
}

} // verus!
