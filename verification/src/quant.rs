//! Group-wise 4-bit weights: shapes and nibble packing.
//!
//! Two rows share a byte: the low nibble holds the even row, the high nibble
//! the odd one, each as a signed 4-bit value. `data[pair * out_feat + o]` holds
//! rows `2 * pair` and `2 * pair + 1` of column `o`.

use vstd::arithmetic::div_mod::*;
use vstd::arithmetic::mul::*;
use vstd::prelude::*;

verus! {

/// Rows that share one scale.
pub const GROUP_SIZE: usize = 32;

/// The value of a signed nibble. Bit 3 is the sign: with it set the high bits
/// of `nibble` do not matter, without it they are kept as they stand.
pub open spec fn nibble_value(nibble: u8) -> int {
    if (nibble / 8) % 2 == 1 {
        nibble % 16 - 16
    } else if nibble < 128 {
        nibble as int
    } else {
        nibble - 256
    }
}

/// Sign-extend a 4-bit value.
pub fn sign_extend4(nibble: u8) -> (v: i8)
    ensures
        v == nibble_value(nibble),
{
    if (nibble / 8) % 2 == 1 {
        (nibble % 16) as i8 - 16
    } else if nibble < 128 {
        nibble as i8
    } else {
        (nibble - 128) as i8 - 127 - 1
    }
}

/// The nibble of a value in -8..=7.
pub open spec fn nibble_of(q: int) -> int {
    if q < 0 {
        q + 16
    } else {
        q
    }
}

/// Two signed 4-bit values in one byte.
pub fn pack_pair(q0: i8, q1: i8) -> (b: u8)
    requires
        -8 <= q0 <= 7,
        -8 <= q1 <= 7,
    ensures
        b == nibble_of(q0 as int) + 16 * nibble_of(q1 as int),
{
    let lo: u8 = if q0 < 0 {
        (q0 + 16) as u8
    } else {
        q0 as u8
    };
    let hi: u8 = if q1 < 0 {
        (q1 + 16) as u8
    } else {
        q1 as u8
    };
    lo + 16 * hi
}

/// The two signed 4-bit values of a byte: even row, odd row.
pub fn unpack_pair(b: u8) -> (r: (i8, i8))
    ensures
        r.0 == nibble_value((b % 16) as u8),
        r.1 == nibble_value((b / 16) as u8),
{
    (sign_extend4(b % 16), sign_extend4(b / 16))
}

/// Unpacking a packed pair gives the pair back.
pub proof fn law_unpack_undoes_pack(q0: int, q1: int)
    requires
        -8 <= q0 <= 7,
        -8 <= q1 <= 7,
    ensures
        ({
            let b = (nibble_of(q0) + 16 * nibble_of(q1)) as u8;
            nibble_value((b % 16) as u8) == q0 && nibble_value((b / 16) as u8) == q1
        }),
{
}

/// The sizes of a packed matrix with `in_feat` rows.
#[derive(Debug, Clone, Copy, PartialEq, Eq)]
pub struct QuantShape {
    /// Rows per group.
    pub group: usize,
    /// Rows after padding to whole groups.
    pub in_padded: usize,
    pub num_groups: usize,
    /// Packed row pairs. The last one may hold a single row.
    pub num_pairs: usize,
}

/// The sizes of a matrix with `in_feat` rows: groups of `GROUP_SIZE` rows, or
/// of all rows where there are fewer, and as many groups as it takes.
pub open spec fn is_quant_shape(s: QuantShape, in_feat: int) -> bool {
    &&& s.group == if in_feat < GROUP_SIZE {
        in_feat
    } else {
        GROUP_SIZE as int
    }
    &&& s.num_groups == (in_feat + s.group - 1) / (s.group as int)
    &&& s.in_padded == s.num_groups * s.group
    &&& s.num_pairs == (s.in_padded + 1) / 2
}

/// The sizes of a packed matrix with `in_feat` rows.
pub fn quant_shape(in_feat: usize) -> (s: QuantShape)
    requires
        0 < in_feat <= usize::MAX - GROUP_SIZE,
    ensures
        is_quant_shape(s, in_feat as int),
        s.in_padded >= in_feat,
        s.in_padded - in_feat < s.group,
{
    let group: usize = if in_feat < GROUP_SIZE {
        in_feat
    } else {
        GROUP_SIZE
    };
    let rest: usize = in_feat % group;
    let pad: usize = if rest == 0 {
        0
    } else {
        group - rest
    };
    let in_padded: usize = in_feat + pad;
    let num_groups: usize = in_padded / group;
    proof {
        let g = group as int;
        let q = in_feat as int / g;
        lemma_fundamental_div_mod(in_feat as int, g);
        if rest == 0 {
            lemma_div_is(in_feat + g - 1, g, q, g - 1);
            lemma_div_is(in_padded as int, g, q, 0);
            lemma_mul_is_commutative(q, g);
        } else {
            lemma_mul_is_distributive_add(g, q, 1);
            lemma_div_is(in_feat + g - 1, g, q + 1, rest - 1);
            lemma_div_is(in_padded as int, g, q + 1, 0);
            lemma_mul_is_commutative(q + 1, g);
        }
    }
    QuantShape { group, in_padded, num_groups, num_pairs: in_padded / 2 + in_padded % 2 }
}

proof fn lemma_div_is(x: int, g: int, q: int, r: int)
    requires
        g > 0,
        0 <= r < g,
        x == g * q + r,
    ensures
        x / g == q,
{
    lemma_mul_is_commutative(g, q);
    lemma_fundamental_div_mod_converse(x, g, q, r);
}

/// The quantised value of row `row` and column `o`, zero in padding rows.
pub open spec fn row_value(q: Seq<i8>, in_feat: int, out_feat: int, row: int, o: int) -> int {
    if row < in_feat {
        q[row * out_feat + o] as int
    } else {
        0
    }
}

/// The byte of a row pair and a column.
pub open spec fn pair_byte(q: Seq<i8>, in_feat: int, out_feat: int, pair: int, o: int) -> int {
    nibble_of(row_value(q, in_feat, out_feat, 2 * pair, o)) + 16 * nibble_of(
        row_value(q, in_feat, out_feat, 2 * pair + 1, o),
    )
}

proof fn lemma_index(a: int, n: int, b: int, m: int)
    requires
        0 <= a < n,
        0 <= b < m,
    ensures
        0 <= a * m + b < n * m,
{
    assert(a * m + b < n * m) by (nonlinear_arith)
        requires
            0 <= a < n,
            0 <= b < m,
    ;
    assert(0 <= a * m) by (nonlinear_arith)
        requires
            0 <= a,
            0 < m,
    ;
}

/// Pack quantised values, row-major `[in_feat, out_feat]`, two rows to a byte.
pub fn pack_rows(q: &[i8], in_feat: usize, out_feat: usize, num_pairs: usize) -> (data: Vec<u8>)
    requires
        q@.len() == in_feat * out_feat,
        num_pairs * out_feat <= usize::MAX,
        2 * num_pairs + 1 <= usize::MAX,
        forall|i: int| 0 <= i < q@.len() ==> -8 <= #[trigger] q@[i] <= 7,
    ensures
        data@.len() == num_pairs * out_feat,
        forall|pair: int, o: int|
            #![trigger data@[pair * out_feat + o]]
            0 <= pair < num_pairs && 0 <= o < out_feat ==> data@[pair * out_feat + o] == pair_byte(
                q@,
                in_feat as int,
                out_feat as int,
                pair,
                o,
            ),
{
    let mut data: Vec<u8> = Vec::new();
    let total: usize = q.len();
    let mut pair: usize = 0;
    proof {
        assert(0 * out_feat == 0);
    }
    while pair < num_pairs
        invariant
            pair <= num_pairs,
            total == q@.len(),
            q@.len() == in_feat * out_feat,
            num_pairs * out_feat <= usize::MAX,
            2 * num_pairs + 1 <= usize::MAX,
            forall|i: int| 0 <= i < q@.len() ==> -8 <= #[trigger] q@[i] <= 7,
            data@.len() == pair * out_feat,
            forall|p: int, o: int|
                #![trigger data@[p * out_feat + o]]
                0 <= p < pair && 0 <= o < out_feat ==> data@[p * out_feat + o] == pair_byte(
                    q@,
                    in_feat as int,
                    out_feat as int,
                    p,
                    o,
                ),
        decreases num_pairs - pair,
    {
        let r0: usize = pair * 2;
        let r1: usize = pair * 2 + 1;
        let mut o: usize = 0;
        while o < out_feat
            invariant
                o <= out_feat,
                pair < num_pairs,
                r0 == 2 * pair,
                r1 == 2 * pair + 1,
                total == q@.len(),
                q@.len() == in_feat * out_feat,
                num_pairs * out_feat <= usize::MAX,
                forall|i: int| 0 <= i < q@.len() ==> -8 <= #[trigger] q@[i] <= 7,
                data@.len() == pair * out_feat + o,
                forall|p: int, c: int|
                    #![trigger data@[p * out_feat + c]]
                    0 <= p < pair && 0 <= c < out_feat || p == pair && 0 <= c < o ==> data@[p
                        * out_feat + c] == pair_byte(q@, in_feat as int, out_feat as int, p, c),
            decreases out_feat - o,
        {
            proof {
                lemma_index(pair as int, num_pairs as int, o as int, out_feat as int);
                if r0 < in_feat {
                    lemma_index(r0 as int, in_feat as int, o as int, out_feat as int);
                }
                if r1 < in_feat {
                    lemma_index(r1 as int, in_feat as int, o as int, out_feat as int);
                    assert(r0 as int * out_feat as int <= r1 as int * out_feat as int)
                        by (nonlinear_arith)
                        requires
                            r0 <= r1,
                    ;
                }
            }
            let v0: i8 = if r0 < in_feat {
                q[r0 * out_feat + o]
            } else {
                0
            };
            let v1: i8 = if r1 < in_feat {
                q[r1 * out_feat + o]
            } else {
                0
            };
            let ghost before = data@;
            data.push(pack_pair(v0, v1));
            proof {
                assert forall|p: int, c: int|
                    #![trigger data@[p * out_feat + c]]
                    0 <= p < pair && 0 <= c < out_feat || p == pair && 0 <= c < o
                        + 1 implies data@[p * out_feat + c] == pair_byte(
                    q@,
                    in_feat as int,
                    out_feat as int,
                    p,
                    c,
                ) by {
                    if p < pair {
                        lemma_index(p, pair as int, c, out_feat as int);
                        assert(data@[p * out_feat + c] == before[p * out_feat + c]);
                    } else if c < o {
                        lemma_index(p, pair + 1, c, out_feat as int);
                        assert(data@[p * out_feat + c] == before[p * out_feat + c]);
                    }
                }
            }
            o = o + 1;
        }
        proof {
            assert((pair + 1) * out_feat == pair * out_feat + out_feat) by (nonlinear_arith);
        }
        pair = pair + 1;
    }
    data
}

/// The value that packed data holds for row `row` and column `o`.
pub open spec fn packed_value(data: Seq<u8>, out_feat: int, row: int, o: int) -> int {
    let b = data[(row / 2) * out_feat + o];
    if row % 2 == 0 {
        nibble_value((b % 16) as u8)
    } else {
        nibble_value((b / 16) as u8)
    }
}

/// Reading packed data gives back what was packed, in every row that has its
/// pair.
pub proof fn law_packed_rows_read_back(
    q: Seq<i8>,
    data: Seq<u8>,
    in_feat: int,
    out_feat: int,
    num_pairs: int,
    row: int,
    o: int,
)
    requires
        forall|i: int| 0 <= i < q.len() ==> -8 <= #[trigger] q[i] <= 7,
        q.len() == in_feat * out_feat,
        data.len() == num_pairs * out_feat,
        forall|p: int, c: int|
            #![trigger data[p * out_feat + c]]
            0 <= p < num_pairs && 0 <= c < out_feat ==> data[p * out_feat + c] == pair_byte(
                q,
                in_feat,
                out_feat,
                p,
                c,
            ),
        0 <= row < in_feat,
        row < 2 * num_pairs,
        0 <= o < out_feat,
    ensures
        packed_value(data, out_feat, row, o) == q[row * out_feat + o],
{
    let p = row / 2;
    assert(data[p * out_feat + o] == pair_byte(q, in_feat, out_feat, p, o));
    let a = row_value(q, in_feat, out_feat, 2 * p, o);
    let b = row_value(q, in_feat, out_feat, 2 * p + 1, o);
    if 2 * p < in_feat {
        lemma_index(2 * p, in_feat, o, out_feat);
    }
    if 2 * p + 1 < in_feat {
        lemma_index(2 * p + 1, in_feat, o, out_feat);
    }
    law_unpack_undoes_pack(a, b);
}

} // verus!
