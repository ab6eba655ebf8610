//! Codebook-quantised weights.
//!
//! A logical `[out, in]` matrix is stored so that one output row is contiguous.
//! Each row is cut into groups, padded up to a whole number of them. Per group
//! the blob holds the codebook index of every weight and one 16-bit norm:
//! packed indices of all rows first, then the norms of all rows.
//!
//! Widths are 2, 3 or 4 bits against a codebook, or ternary, which has three
//! levels of its own and packs four 2-bit codes to a byte.

use crate::bits::{f16_to_f32, f16_value, SIGN_BIT};
use crate::dot::unpacked;
use crate::le::{le16, u16_at};
use crate::pow2::{check_pow2, is_pow2};
use crate::text::to_bytes;
use vstd::arithmetic::div_mod::*;
use vstd::arithmetic::mul::*;
use vstd::arithmetic::power2::*;
use vstd::bits::{lemma_u32_shl_is_mul, lemma_u8_shr_is_div};
use vstd::prelude::*;
use vstd::slice::slice_subrange;

verus! {

/// Record width that marks a ternary tensor. It is no bit count.
pub const TERNARY_RECORD_BITS: u8 = 5;

/// Length of a codebook: 4 levels for 2 bits, 8 for 3 bits, 16 for 4 bits.
pub const CODEBOOK_LEN: usize = 28;

/// Largest quantisation group.
pub const MAX_GROUP: usize = 1024;

/// Bits of the ternary level of a group of one weight.
pub const TERNARY_CENTROID: u32 = 0x3F9C_AC3E;

/// Bits of the ternary level of a group of two weights.
pub const TERNARY_CENTROID_ODD: u32 = 0x3F5D_919F;

/// Why a tensor was refused.
#[derive(Debug, Clone, Copy, PartialEq, Eq, Structural)]
pub enum CqError {
    /// The record width is not 2, 3, 4 or [`TERNARY_RECORD_BITS`].
    UnsupportedBits(u8),
    /// The group is zero, not a multiple of 8, not a power of two, or above
    /// [`MAX_GROUP`].
    BadGroup(usize),
    /// The codebook is not [`CODEBOOK_LEN`] long.
    BadCodebookLen(usize),
    /// The blob is shorter than the packed indices and norms.
    ShortBlob { need: usize, got: usize },
    /// A dimension is zero.
    EmptyShape,
}

/// The levels of one width within a codebook.
pub open spec fn codebook_part(codebook: Seq<u32>, bits: u8) -> Result<Seq<u32>, CqError> {
    if codebook.len() != CODEBOOK_LEN {
        Err(CqError::BadCodebookLen(codebook.len() as usize))
    } else if bits == 2 {
        Ok(codebook.subrange(0, 4))
    } else if bits == 3 {
        Ok(codebook.subrange(4, 12))
    } else if bits == 4 {
        Ok(codebook.subrange(12, 28))
    } else {
        Err(CqError::UnsupportedBits(bits))
    }
}

/// Cut one width's levels out of a codebook.
pub fn codebook_slice(codebook: &[u32], bits: u8) -> (r: Result<&[u32], CqError>)
    ensures
        match codebook_part(codebook@, bits) {
            Ok(levels) => r is Ok && r->Ok_0@ == levels,
            Err(e) => r is Err && r->Err_0 == e,
        },
{
    if codebook.len() != CODEBOOK_LEN {
        return Err(CqError::BadCodebookLen(codebook.len()));
    }
    if bits == 2 {
        Ok(slice_subrange(codebook, 0, 4))
    } else if bits == 3 {
        Ok(slice_subrange(codebook, 4, 12))
    } else if bits == 4 {
        Ok(slice_subrange(codebook, 12, 28))
    } else {
        Err(CqError::UnsupportedBits(bits))
    }
}

/// Bits that one index takes.
pub open spec fn index_width(bits: u8) -> int {
    if bits == TERNARY_RECORD_BITS {
        2
    } else {
        bits as int
    }
}

/// Bytes of one packed row.
pub fn packed_row_bytes(in_padded: usize, bits: u8) -> (n: usize)
    requires
        in_padded * index_width(bits) <= usize::MAX,
    ensures
        n == in_padded * index_width(bits) / 8,
{
    let effective: usize = if bits == TERNARY_RECORD_BITS {
        2
    } else {
        bits as usize
    };
    in_padded * effective / 8
}

/// Bit `i` of a row, least significant bit of each byte first.
pub open spec fn row_bit(row: Seq<u8>, i: int) -> int {
    ((row[i / 8] >> ((i % 8) as u8)) & 1) as int
}

/// The number that the `n` bits from `bit` on spell, least significant first.
pub open spec fn bit_field(row: Seq<u8>, bit: int, n: nat) -> int
    decreases n,
{
    if n == 0 {
        0
    } else {
        bit_field(row, bit, (n - 1) as nat) + pow2((n - 1) as nat) * row_bit(row, bit + n - 1)
    }
}


proof fn lemma_low_bits_step(y: u32, n: u32)
    by (bit_vector)
    requires
        1 <= n <= 8,
    ensures
        y & (((1u32 << n) - 1) as u32) == (y & (((1u32 << ((n - 1) as u32)) - 1) as u32)) + (((y >> ((n
            - 1) as u32)) & 1) << ((n - 1) as u32)),
{
}

proof fn lemma_shifted_bit(w: u32, s: u32, k: u32)
    by (bit_vector)
    requires
        s < 8,
        k < 8,
    ensures
        ((w >> s) >> k) & 1 == (w >> ((s + k) as u32)) & 1,
{
}

proof fn lemma_word_bit(lo: u8, hi: u8, j: u32)
    by (bit_vector)
    requires
        j < 16,
    ensures
        j < 8 ==> (((lo as u32) | ((hi as u32) << 8)) >> j) & 1 == ((lo >> (j as u8)) & 1) as u32,
        j >= 8 ==> (((lo as u32) | ((hi as u32) << 8)) >> j) & 1 == ((hi >> ((j - 8) as u8)) & 1) as u32,
{
}

proof fn lemma_one_bit(b: u32, k: u32)
    by (bit_vector)
    requires
        k < 8,
    ensures
        (b & 1) << k == (b & 1) * (1u32 << k),
        (b & 1) * (1u32 << k) <= 128,
{
}

proof fn lemma_no_bits(y: u32)
    by (bit_vector)
    ensures
        y & (((1u32 << 0u32) - 1) as u32) == 0,
{
}

proof fn lemma_field(row: Seq<u8>, bit: int, lo: u8, hi: u8, s: u32, n: u32)
    requires
        0 <= bit,
        s == bit % 8,
        n <= 8,
        lo == row[bit / 8],
        s + n > 8 ==> hi == row[bit / 8 + 1],
    ensures
        ((((lo as u32) | ((hi as u32) << 8)) >> s) & (((1u32 << n) - 1) as u32)) == bit_field(
            row,
            bit,
            n as nat,
        ),
    decreases n,
{
    let w = (lo as u32) | ((hi as u32) << 8);
    let y = w >> s;
    if n == 0 {
        lemma_no_bits(y);
    } else {
        let k = (n - 1) as u32;
        lemma_field(row, bit, lo, hi, s, k);
        lemma_low_bits_step(y, n);
        lemma_shifted_bit(w, s, k);
        let j = (s + k) as u32;
        lemma_word_bit(lo, hi, j);
        lemma_one_bit(w >> j, k);
        lemma_u32_pow2_no_overflow(k);
        lemma_u32_shl_is_mul(1, k);
        let i = bit + n - 1;
        if j < 8 {
            assert(i / 8 == bit / 8 && i % 8 == j);
        } else {
            assert(i / 8 == bit / 8 + 1 && i % 8 == j - 8);
        }
        let b = row_bit(row, i);
        assert(((w >> j) & 1) as int == b);
        lemma_mul_is_commutative(b, pow2(k as nat) as int);
    }
}

/// Read a field of `bits` bits that starts at bit offset `bit`. `mask` selects
/// the field.
pub fn read_bits(row: &[u8], bit: usize, bits: usize, mask: u32) -> (r: u32)
    requires
        1 <= bits <= 8,
        mask == pow2(bits as nat) - 1,
        bit + bits <= row@.len() * 8,
    ensures
        r == bit_field(row@, bit as int, bits as nat),
{
    let byte: usize = bit / 8;
    let shift: usize = bit % 8;
    let lo: u8 = row[byte];
    let hi: u8 = if shift + bits > 8 {
        row[byte + 1]
    } else {
        0
    };
    let w: u32 = (lo as u32) | ((hi as u32) << 8);
    proof {
        lemma_field(row@, bit as int, lo, hi, shift as u32, bits as u32);
        lemma_pow2_pos(bits as nat);
        lemma_u32_pow2_no_overflow(bits as u32);
        lemma_u32_shl_is_mul(1, bits as u32);
    }
    (w >> (shift as u32)) & mask
}

proof fn lemma_u32_pow2_no_overflow(n: u32)
    requires
        n <= 8,
    ensures
        pow2(n as nat) <= 256,
{
    lemma2_to64();
    if n < 8 {
        lemma_pow2_strictly_increases(n as nat, 8);
    }
}

proof fn lemma_field_bound(row: Seq<u8>, bit: int, n: nat)
    ensures
        0 <= bit_field(row, bit, n) < pow2(n),
    decreases n,
{
    lemma2_to64();
    if n > 0 {
        lemma_field_bound(row, bit, (n - 1) as nat);
        lemma_pow2_unfold(n);
        let b = row[(bit + n - 1) / 8] >> (((bit + n - 1) % 8) as u8);
        assert(b & 1 <= 1) by (bit_vector);
        let p = pow2((n - 1) as nat) as int;
        let r = row_bit(row, bit + n - 1);
        assert(0 <= p * r <= p) by (nonlinear_arith)
            requires
                0 <= r <= 1,
                p >= 0,
        ;
    }
}

/// The codebook level that a stored code selects. Ternary codes 3, 0 and 1 are
/// the levels -c, 0 and c; the unused code 2 selects the zero level.
pub open spec fn level_index(bits: u8, code: int) -> int {
    if bits == TERNARY_RECORD_BITS {
        if code == 3 {
            0
        } else if code == 1 {
            2
        } else {
            1
        }
    } else {
        code
    }
}

/// How many levels a width has.
pub open spec fn level_count(bits: u8) -> int {
    if bits == TERNARY_RECORD_BITS {
        3
    } else {
        pow2(bits as nat) as int
    }
}

/// A width that tensors can have.
pub open spec fn is_width(bits: u8) -> bool {
    bits == 2 || bits == 3 || bits == 4 || bits == TERNARY_RECORD_BITS
}

proof fn lemma_level_in_range(row: Seq<u8>, bit: int, bits: u8)
    requires
        is_width(bits),
    ensures
        0 <= level_index(bits, bit_field(row, bit, index_width(bits) as nat)) < level_count(bits),
{
    lemma_field_bound(row, bit, index_width(bits) as nat);
}

/// How many indices share a byte: none where the width does not divide it.
pub open spec fn indices_per_byte(bits: u8) -> int {
    if index_width(bits) == 2 {
        4
    } else if index_width(bits) == 4 {
        2
    } else {
        0
    }
}

/// The level that the `k`th index in a byte selects.
pub open spec fn byte_level(levels: Seq<u32>, bits: u8, byte: u8, k: int) -> u32 {
    levels[level_index(
        bits,
        bit_field(seq![byte], k * index_width(bits), index_width(bits) as nat),
    )]
}

/// A table of the levels that each byte holds.
pub open spec fn is_lut(lut: Seq<u32>, levels: Seq<u32>, bits: u8) -> bool {
    let p = indices_per_byte(bits);
    &&& lut.len() == 256 * p
    &&& forall|byte: int, k: int|
        #![trigger lut[byte * p + k]]
        0 <= byte < 256 && 0 <= k < p ==> lut[byte * p + k] == byte_level(
            levels,
            bits,
            byte as u8,
            k,
        )
}

fn level_at(row: &[u8], bit: usize, levels: &Vec<u32>, bits: u8) -> (v: u32)
    requires
        is_width(bits),
        levels@.len() == level_count(bits),
        bit + index_width(bits) <= row@.len() * 8,
    ensures
        v == levels@[level_index(bits, bit_field(row@, bit as int, index_width(bits) as nat))],
{
    let width: usize = if bits == TERNARY_RECORD_BITS {
        2
    } else {
        bits as usize
    };
    proof {
        lemma2_to64();
        lemma_level_in_range(row@, bit as int, bits);
    }
    let mask: u32 = if width == 2 {
        3
    } else if width == 3 {
        7
    } else {
        15
    };
    let code: u32 = read_bits(row, bit, width, mask);
    let idx: usize = if bits == TERNARY_RECORD_BITS {
        if code == 3 {
            0
        } else if code == 1 {
            2
        } else {
            1
        }
    } else {
        code as usize
    };
    levels[idx]
}

/// Build the byte-decode table for widths that divide a byte: how many indices
/// share a byte, and their levels for every byte. Zero and no table for 3 bits.
fn build_lut(bits: u8, levels: &Vec<u32>) -> (r: (usize, Vec<u32>))
    requires
        is_width(bits),
        levels@.len() == level_count(bits),
    ensures
        r.0 == indices_per_byte(bits),
        is_lut(r.1@, levels@, bits),
{
    let p: usize = if bits == 2 || bits == TERNARY_RECORD_BITS {
        4
    } else if bits == 4 {
        2
    } else {
        0
    };
    let width: usize = if bits == TERNARY_RECORD_BITS {
        2
    } else {
        bits as usize
    };
    let mut lut: Vec<u32> = Vec::new();
    if p == 0 {
        return (p, lut);
    }
    let mut byte: usize = 0;
    while byte < 256
        invariant
            byte <= 256,
            p == indices_per_byte(bits),
            p == 2 || p == 4,
            width == index_width(bits),
            width * p == 8,
            is_width(bits),
            levels@.len() == level_count(bits),
            lut@.len() == byte * p,
            forall|b: int, k: int|
                #![trigger lut@[b * p + k]]
                0 <= b < byte && 0 <= k < p ==> lut@[b * p + k] == byte_level(
                    levels@,
                    bits,
                    b as u8,
                    k,
                ),
        decreases 256 - byte,
    {
        let mut one: Vec<u8> = Vec::new();
        one.push(byte as u8);
        assert(one@ =~= seq![byte as u8]);
        let mut k: usize = 0;
        while k < p
            invariant
                k <= p,
                byte < 256,
                p == indices_per_byte(bits),
                p == 2 || p == 4,
                width == index_width(bits),
                width * p == 8,
                is_width(bits),
                levels@.len() == level_count(bits),
                one@ == seq![byte as u8],
                lut@.len() == byte * p + k,
                forall|b: int, c: int|
                    #![trigger lut@[b * p + c]]
                    (0 <= b < byte && 0 <= c < p) || (b == byte && 0 <= c < k) ==> lut@[b * p + c]
                        == byte_level(levels@, bits, b as u8, c),
            decreases p - k,
        {
            assert(k * width + width <= 8) by (nonlinear_arith)
                requires
                    k + 1 <= p,
                    width * p == 8,
            ;
            let ghost before = lut@;
            lut.push(level_at(one.as_slice(), k * width, levels, bits));
            proof {
                assert forall|b: int, c: int|
                    #![trigger lut@[b * p + c]]
                    (0 <= b < byte && 0 <= c < p) || (b == byte && 0 <= c < k + 1) implies lut@[b
                    * p + c] == byte_level(levels@, bits, b as u8, c) by {
                    if b < byte {
                        assert(b * p + c < byte * p) by (nonlinear_arith)
                            requires
                                0 <= b < byte,
                                0 <= c < p,
                        ;
                        assert(0 <= b * p) by (nonlinear_arith)
                            requires
                                0 <= b,
                        ;
                        assert(lut@[b * p + c] == before[b * p + c]);
                    } else if c < k {
                        assert(lut@[b * p + c] == before[b * p + c]);
                    }
                }
            }
            k = k + 1;
        }
        assert((byte + 1) * p == byte * p + p) by (nonlinear_arith);
        byte = byte + 1;
    }
    (p, lut)
}

/// The positive ternary level of a group: a group four times as large has half
/// the level, which lowers the exponent by one.
pub open spec fn ternary_level(group: int) -> int
    decreases group,
{
    if group <= 1 {
        TERNARY_CENTROID as int
    } else if group <= 2 {
        TERNARY_CENTROID_ODD as int
    } else {
        ternary_level(group / 4) - 0x80_0000
    }
}

/// The levels of a tensor.
pub open spec fn levels_for(group: int, bits: u8, codebook: Seq<u32>) -> Result<
    Seq<u32>,
    CqError,
> {
    if bits == TERNARY_RECORD_BITS {
        let s = ternary_level(group);
        Ok(seq![(s + SIGN_BIT) as u32, 0u32, s as u32])
    } else {
        codebook_part(codebook, bits)
    }
}

/// A group size that tensors can have.
pub open spec fn is_group(group: int) -> bool {
    0 < group <= MAX_GROUP && group % 8 == 0 && is_pow2(group)
}

/// How many groups a row takes.
pub open spec fn group_count(in_feat: int, group: int) -> int {
    (in_feat + group - 1) / group
}

/// Bytes of the packed indices of all rows.
pub open spec fn packed_len(out_feat: int, in_feat: int, group: int, bits: u8) -> int {
    out_feat * (group_count(in_feat, group) * group * index_width(bits) / 8)
}

/// Bytes of a tensor: packed indices and 16-bit norms.
pub open spec fn blob_len(out_feat: int, in_feat: int, group: int, bits: u8) -> int {
    packed_len(out_feat, in_feat, group, bits) + out_feat * group_count(in_feat, group) * 2
}

/// A size for an error report, cut off at what a `usize` holds.
pub open spec fn clamp_size(n: int) -> usize {
    if n > usize::MAX {
        usize::MAX
    } else {
        n as usize
    }
}

/// Why a tensor is refused, if it is. A padded width that cannot be addressed
/// counts as a blob too short for it.
pub open spec fn cq_fault(
    len: int,
    out_feat: int,
    in_feat: int,
    group: int,
    bits: u8,
    codebook: Seq<u32>,
) -> Option<CqError> {
    if out_feat == 0 || in_feat == 0 {
        Some(CqError::EmptyShape)
    } else if !is_group(group) {
        Some(CqError::BadGroup(group as usize))
    } else {
        match levels_for(group, bits, codebook) {
            Err(e) => Some(e),
            Ok(_levels) => if blob_len(out_feat, in_feat, group, bits) > len || group_count(
                in_feat,
                group,
            ) * group > usize::MAX {
                Some(
                    CqError::ShortBlob {
                        need: clamp_size(blob_len(out_feat, in_feat, group, bits)),
                        got: len as usize,
                    },
                )
            } else {
                None
            },
        }
    }
}

/// A quantised weight matrix, logically `[out_feat, in_feat]`.
pub struct CqWeight {
    /// Packed indices, `out_feat` rows of `row_bytes`.
    pub packed: Vec<u8>,
    /// Norm of every group, `[out_feat * num_groups]`, as float bits.
    pub norms: Vec<u32>,
    /// Levels by byte value, `256 * per_byte`. Empty where `per_byte` is zero.
    pub lut: Vec<u32>,
    /// Indices that share a byte, or zero.
    pub per_byte: usize,
    pub row_bytes: usize,
    pub num_groups: usize,
    pub out_feat: usize,
    /// Logical width of a row.
    pub in_feat: usize,
    /// Width rounded up to a whole number of groups.
    pub in_padded: usize,
    pub group: usize,
    /// Record width: 2, 3, 4, or 5 for ternary.
    pub bits: u8,
    /// The levels, as float bits.
    pub levels: Vec<u32>,
}

impl CqWeight {
    /// Well-formedness: the sizes follow from shape, group and width, and the
    /// decode table from the levels.
    pub open spec fn wf(&self) -> bool {
        &&& self.out_feat > 0
        &&& self.in_feat > 0
        &&& is_group(self.group as int)
        &&& is_width(self.bits)
        &&& self.num_groups == group_count(self.in_feat as int, self.group as int)
        &&& self.in_padded == self.num_groups * self.group
        &&& self.row_bytes == self.in_padded * index_width(self.bits) / 8
        &&& self.packed@.len() == self.out_feat * self.row_bytes
        &&& self.norms@.len() == self.out_feat * self.num_groups
        &&& self.levels@.len() == level_count(self.bits)
        &&& self.per_byte == indices_per_byte(self.bits)
        &&& is_lut(self.lut@, self.levels@, self.bits)
    }

    /// The packed indices of one row.
    pub open spec fn row(&self, o: int) -> Seq<u8> {
        self.packed@.subrange(o * self.row_bytes, (o + 1) * self.row_bytes)
    }

    /// The level of the weight in row `o` and column `col`, before scaling and
    /// rotation.
    pub open spec fn level(&self, o: int, col: int) -> u32 {
        self.levels@[level_index(
            self.bits,
            bit_field(
                self.row(o),
                col * index_width(self.bits),
                index_width(self.bits) as nat,
            ),
        )]
    }

    /// The levels of one group, in column order.
    pub open spec fn group_levels(&self, o: int, g: int) -> Seq<u32> {
        Seq::new(self.group as nat, |k: int| self.level(o, g * self.group + k))
    }

    /// The tensor is the one that `blob` holds.
    pub open spec fn is_from(&self, blob: Seq<u8>, codebook: Seq<u32>) -> bool {
        let n_packed = packed_len(
            self.out_feat as int,
            self.in_feat as int,
            self.group as int,
            self.bits,
        );
        &&& self.packed@ == blob.subrange(0, n_packed)
        &&& forall|i: int|
            0 <= i < self.norms@.len() ==> #[trigger] self.norms@[i] == f16_value(
                le16(blob, n_packed + 2 * i) as u16,
            )
        &&& levels_for(self.group as int, self.bits, codebook) == Ok::<Seq<u32>, CqError>(
            self.levels@,
        )
    }
}

fn ternary_levels(group: usize) -> (levels: Vec<u32>)
    requires
        is_group(group as int),
    ensures
        levels_for(group as int, TERNARY_RECORD_BITS, Seq::empty()) == Ok::<Seq<u32>, CqError>(
            levels@,
        ),
        levels@.len() == 3,
{
    let mut g: usize = group;
    let mut drop: u32 = 0;
    while g > 2
        invariant
            g <= 1024,
            ternary_level(group as int) == ternary_level(g as int) - drop,
            drop <= 5 * 0x80_0000,
            g > 256 ==> drop == 0,
            g > 64 ==> drop <= 0x80_0000,
            g > 16 ==> drop <= 2 * 0x80_0000,
            g > 4 ==> drop <= 3 * 0x80_0000,
            g > 2 ==> drop <= 4 * 0x80_0000,
        decreases g,
    {
        g = g / 4;
        drop = drop + 0x80_0000;
    }
    let base: u32 = if g <= 1 {
        TERNARY_CENTROID
    } else {
        TERNARY_CENTROID_ODD
    };
    let s: u32 = base - drop;
    let mut levels: Vec<u32> = Vec::new();
    levels.push(s + SIGN_BIT);
    levels.push(0);
    levels.push(s);
    assert(levels@ =~= seq![(s + SIGN_BIT) as u32, 0u32, s]);
    levels
}

fn clamp(n: u128) -> (r: usize)
    ensures
        r == clamp_size(n as int),
{
    if n > usize::MAX as u128 {
        usize::MAX
    } else {
        n as usize
    }
}


proof fn lemma_group_count(in_feat: int, group: int)
    requires
        in_feat > 0,
        group > 0,
    ensures
        group_count(in_feat, group) == (in_feat - 1) / group + 1,
        in_feat <= group_count(in_feat, group) * group < in_feat + group,
        group_count(in_feat, group) >= 1,
{
    let q = (in_feat - 1) / group;
    let r = (in_feat - 1) % group;
    lemma_fundamental_div_mod(in_feat - 1, group);
    lemma_mul_is_commutative(group, q);
    assert((q + 1) * group == q * group + group) by (nonlinear_arith);
    lemma_fundamental_div_mod_converse(in_feat + group - 1, group, q + 1, r);
    lemma_div_pos_is_pos(in_feat - 1, group);
}

impl CqWeight {
    /// Read a tensor from its blob: packed indices followed by 16-bit norms.
    ///
    /// `codebook` holds the levels of 2, 3 and 4 bits one behind the other, as
    /// float bits. A ternary tensor does not look at it.
    pub fn from_blob(
        blob: &[u8],
        out_feat: usize,
        in_feat: usize,
        group: usize,
        bits: u8,
        codebook: &[u32],
    ) -> (r: Result<CqWeight, CqError>)
        ensures
            match cq_fault(
                blob@.len() as int,
                out_feat as int,
                in_feat as int,
                group as int,
                bits,
                codebook@,
            ) {
                Some(e) => r is Err && r->Err_0 == e,
                None => r is Ok && r->Ok_0.wf() && r->Ok_0.is_from(blob@, codebook@)
                    && r->Ok_0.out_feat == out_feat && r->Ok_0.in_feat == in_feat && r->Ok_0.group
                    == group && r->Ok_0.bits == bits,
            },
    {
        let len: usize = blob.len();
        if out_feat == 0 || in_feat == 0 {
            return Err(CqError::EmptyShape);
        }
        if group == 0 || group > MAX_GROUP || group % 8 != 0 || !check_pow2(group) {
            return Err(CqError::BadGroup(group));
        }
        let levels: Vec<u32> = if bits == TERNARY_RECORD_BITS {
            ternary_levels(group)
        } else {
            match codebook_slice(codebook, bits) {
                Ok(l) => {
                    proof {
                        lemma2_to64();
                    }
                    copy_words(l)
                },
                Err(e) => {
                    return Err(e);
                },
            }
        };
        let width: u128 = if bits == TERNARY_RECORD_BITS {
            2
        } else {
            bits as u128
        };
        let groups: u128 = (in_feat as u128 - 1) / (group as u128) + 1;
        proof {
            lemma_group_count(in_feat as int, group as int);
            assert(groups == group_count(in_feat as int, group as int));
            assert(groups <= 0x2000_0000_0000_0000) by {
                lemma_div_is_ordered_by_denominator(in_feat - 1, 8, group as int);
            }
            assert(groups * (group as u128) < 0x1_0000_0000_0000_0400);
        }
        let padded: u128 = groups * (group as u128);
        proof {
            assert(0 <= padded * width <= 4 * padded) by (nonlinear_arith)
                requires
                    0 <= width <= 4,
                    padded >= 0,
            ;
        }
        let row: u128 = padded * width / 8;
        proof {
            lemma_size_bound(out_feat as int, row as int, groups as int);
        }
        let n_packed: u128 = (out_feat as u128) * row;
        let n_norm: u128 = (out_feat as u128) * groups;
        let need: u128 = n_packed + n_norm * 2;
        if need > len as u128 || padded > usize::MAX as u128 {
            return Err(CqError::ShortBlob { need: clamp(need), got: len });
        }
        proof {
            assert(row <= n_packed) by (nonlinear_arith)
                requires
                    n_packed == out_feat * row,
                    out_feat >= 1,
                    row >= 0,
            ;
            assert(groups <= n_norm) by (nonlinear_arith)
                requires
                    n_norm == out_feat * groups,
                    out_feat >= 1,
                    groups >= 0,
            ;
        }
        let split: usize = n_packed as usize;
        let count: usize = n_norm as usize;
        let packed: Vec<u8> = to_bytes(slice_subrange(blob, 0, split));
        let mut norms: Vec<u32> = Vec::new();
        let mut i: usize = 0;
        while i < count
            invariant
                i <= count,
                len == blob@.len(),
                split + 2 * count <= len,
                norms@.len() == i,
                forall|j: int|
                    0 <= j < i ==> #[trigger] norms@[j] == f16_value(
                        le16(blob@, split + 2 * j) as u16,
                    ),
            decreases count - i,
        {
            norms.push(f16_to_f32(u16_at(blob, split + 2 * i)));
            i = i + 1;
        }
        let (per_byte, lut) = build_lut(bits, &levels);
        Ok(
            CqWeight {
                packed,
                norms,
                lut,
                per_byte,
                row_bytes: row as usize,
                num_groups: groups as usize,
                out_feat,
                in_feat,
                in_padded: padded as usize,
                group,
                bits,
                levels,
            },
        )
    }

    /// Bytes of packed indices, without the norms.
    pub fn packed_bytes(&self) -> (n: usize)
        ensures
            n == self.packed@.len(),
    {
        self.packed.len()
    }

    /// Length of an activation prepared for this tensor.
    pub fn prepared_len(&self) -> (n: usize)
        ensures
            n == self.in_padded,
    {
        self.in_padded
    }

    /// An activation of `in_feat` words laid out for rotation, with the padded
    /// columns zero.
    pub fn pad_input(&self, x: &[u32]) -> (xh: Vec<u32>)
        requires
            self.wf(),
            x@.len() == self.in_feat,
        ensures
            xh@ == x@ + Seq::new((self.in_padded - self.in_feat) as nat, |i: int| 0u32),
    {
        proof {
            lemma_group_count(self.in_feat as int, self.group as int);
        }
        let mut xh: Vec<u32> = copy_words(x);
        while xh.len() < self.in_padded
            invariant
                self.in_feat <= xh@.len() <= self.in_padded,
                x@.len() == self.in_feat,
                xh@ == x@ + Seq::new((xh@.len() - self.in_feat) as nat, |i: int| 0u32),
            decreases self.in_padded - xh@.len(),
        {
            let ghost before = xh@;
            xh.push(0);
            assert(xh@ =~= x@ + Seq::new((xh@.len() - self.in_feat) as nat, |i: int| 0u32));
        }
        xh
    }

    /// The norm of one group, as float bits.
    pub fn norm(&self, o: usize, g: usize) -> (v: u32)
        requires
            self.wf(),
            o < self.out_feat,
            g < self.num_groups,
        ensures
            v == self.norms@[o * self.num_groups + g],
    {
        proof {
            lemma_cell(o as int, self.out_feat as int, g as int, self.num_groups as int);
        }
        let total: usize = self.norms.len();
        self.norms[o * self.num_groups + g]
    }

    /// The levels of one group, in column order, as float bits: what scaling by
    /// the norm and rotating turns into weights.
    pub fn decode_group(&self, o: usize, g: usize) -> (buf: Vec<u32>)
        requires
            self.wf(),
            o < self.out_feat,
            g < self.num_groups,
        ensures
            buf@ == self.group_levels(o as int, g as int),
    {
        proof {
            self.lemma_sizes(o as int, g as int);
        }
        let total: usize = self.packed.len();
        let start: usize = o * self.row_bytes;
        let row = slice_subrange(self.packed.as_slice(), start, start + self.row_bytes);
        assert(row@ =~= self.row(o as int)) by {
            assert((o + 1) * self.row_bytes == o * self.row_bytes + self.row_bytes)
                by (nonlinear_arith);
        }
        let base: usize = g * self.group;
        let mut buf: Vec<u32> = Vec::new();
        let mut k: usize = 0;
        while k < self.group
            invariant
                k <= self.group,
                self.wf(),
                o < self.out_feat,
                g < self.num_groups,
                base == g * self.group,
                base + self.group <= self.in_padded,
                row@ == self.row(o as int),
                row@.len() == self.row_bytes,
                buf@ == Seq::new(k as nat, |j: int| self.level(o as int, g * self.group + j)),
            decreases self.group - k,
        {
            let col: usize = base + k;
            proof {
                self.lemma_column(col as int);
                lemma_level_in_range(row@, col * index_width(self.bits), self.bits);
                lemma_padded_multiple(self.num_groups as int, self.group as int);
            }
            let v: u32 = if self.per_byte != 0 {
                let p: usize = self.per_byte;
                let byte: u8 = row[col / p];
                proof {
                    lemma_byte_field(row@, col as int, self.bits);
                    lemma_lut_index(byte as int, (col % p) as int, p as int);
                    assert(self.lut@[byte as int * p as int + (col % p) as int] == byte_level(
                        self.levels@,
                        self.bits,
                        byte,
                        (col % p) as int,
                    ));
                }
                self.lut[byte as usize * p + col % p]
            } else {
                level_in_row(row, col, self.in_padded, &self.levels)
            };
            buf.push(v);
            assert(buf@ =~= Seq::new((k + 1) as nat, |j: int| self.level(o as int, g * self.group + j)));
            k = k + 1;
        }
        assert(buf@ =~= self.group_levels(o as int, g as int));
        buf
    }

    /// The packed bytes of one group, where indices share bytes: read through
    /// the decode table, they are the levels of the group.
    pub fn group_bytes(&self, o: usize, g: usize) -> (b: &[u8])
        requires
            self.wf(),
            self.per_byte != 0,
            o < self.out_feat,
            g < self.num_groups,
        ensures
            b@.len() * self.per_byte == self.group,
            unpacked(self.lut@, b@, self.per_byte as int) == self.group_levels(
                o as int,
                g as int,
            ),
    {
        proof {
            self.lemma_sizes(o as int, g as int);
        }
        let total: usize = self.packed.len();
        let p: usize = self.per_byte;
        let n: usize = self.group / p;
        let ghost first = o * self.row_bytes;
        proof {
            assert(p == 2 || p == 4);
            assert(self.group == n * p) by {
                assert(p == 2 ==> self.group == n * 2);
                assert(p == 4 ==> self.group == n * 4);
            }
            let last = g * self.group + self.group - 1;
            self.lemma_column(last);
            assert(g * (n * p) == (g * n) * p) by (nonlinear_arith);
            let gn = g * n;
            assert(p == 2 ==> last / 2 == gn + n - 1);
            assert(p == 4 ==> last / 4 == gn + n - 1);
            assert(gn + n <= self.row_bytes);
            assert(0 <= gn) by (nonlinear_arith)
                requires
                    gn == g * n,
            ;
        }
        let start: usize = o * self.row_bytes + g * n;
        let b = slice_subrange(self.packed.as_slice(), start, start + n);
        proof {
            let gn = g * n;
            let row = self.row(o as int);
            assert(row =~= self.packed@.subrange(first, first + self.row_bytes)) by {
                assert((o + 1) * self.row_bytes == o * self.row_bytes + self.row_bytes)
                    by (nonlinear_arith);
            }
            let u = unpacked(self.lut@, b@, p as int);
            assert forall|k: int| 0 <= k < self.group implies u[k] == self.group_levels(
                o as int,
                g as int,
            )[k] by {
                let col = g * self.group + k;
                assert(col / (p as int) == gn + k / (p as int) && col % (p as int) == k % (
                p as int)) by {
                    assert(p == 2 ==> (2 * gn + k) / 2 == gn + k / 2 && (2 * gn + k) % 2 == k % 2);
                    assert(p == 4 ==> (4 * gn + k) / 4 == gn + k / 4 && (4 * gn + k) % 4 == k % 4);
                }
                self.lemma_column(col);
                lemma_byte_field(row, col, self.bits);
                let byte = row[col / (p as int)];
                assert(byte == b@[k / (p as int)]);
                lemma_lut_index(byte as int, k % (p as int), p as int);
                assert(self.lut@[byte as int * p as int + k % (p as int)] == byte_level(
                    self.levels@,
                    self.bits,
                    byte,
                    k % (p as int),
                ));
            }
            assert(u =~= self.group_levels(o as int, g as int));
        }
        b
    }

    /// The padded width covers the logical one, and groups are powers of two.
    pub proof fn lemma_padding(&self)
        requires
            self.wf(),
        ensures
            0 < self.group,
            is_pow2(self.group as int),
            self.in_feat <= self.in_padded,
            self.in_padded == self.num_groups * self.group,
    {
        lemma_group_count(self.in_feat as int, self.group as int);
    }

    proof fn lemma_sizes(&self, o: int, g: int)
        requires
            self.wf(),
            0 <= o < self.out_feat,
            0 <= g < self.num_groups,
        ensures
            0 <= o * self.row_bytes,
            o * self.row_bytes + self.row_bytes <= self.packed@.len(),
            0 <= g * self.group,
            g * self.group + self.group <= self.in_padded,
            self.row(o).len() == self.row_bytes,
    {
        let rb = self.row_bytes as int;
        let of = self.out_feat as int;
        assert(o * rb + rb <= of * rb && 0 <= o * rb && (o + 1) * rb == o * rb + rb)
            by (nonlinear_arith)
            requires
                0 <= o < of,
                rb >= 0,
        ;
        let ng = self.num_groups as int;
        let gr = self.group as int;
        assert(g * gr + gr <= ng * gr && 0 <= g * gr) by (nonlinear_arith)
            requires
                0 <= g < ng,
                gr >= 0,
        ;
    }

    proof fn lemma_column(&self, col: int)
        requires
            self.wf(),
            0 <= col < self.in_padded,
        ensures
            (col + 1) * index_width(self.bits) <= self.row_bytes * 8,
            self.bits == 3 ==> col * 3 + 3 <= self.row_bytes * 8,
            self.per_byte != 0 ==> col / (self.per_byte as int) < self.row_bytes,
    {
        lemma_padded_multiple(self.num_groups as int, self.group as int);
        let w = index_width(self.bits);
        assert(self.in_padded % 8 == 0);
        let e = self.in_padded as int / 8;
        assert(self.in_padded == 8 * e);
        assert((8 * e) * w == 8 * (e * w)) by (nonlinear_arith);
        assert(self.row_bytes == e * w);
        assert((col + 1) * w <= (8 * e) * w) by (nonlinear_arith)
            requires
                col + 1 <= 8 * e,
                w >= 0,
        ;
        if self.per_byte == 4 {
            assert(e * w == e * 2);
            assert(col / 4 < 2 * e);
        } else if self.per_byte == 2 {
            assert(e * w == e * 4);
            assert(col / 2 < 4 * e);
        }
    }
}

/// The level of a column of three-bit indices. `width` columns make a row.
fn level_in_row(row: &[u8], col: usize, width: usize, levels: &Vec<u32>) -> (v: u32)
    requires
        width % 8 == 0,
        col < width,
        row@.len() == width * 3 / 8,
        levels@.len() == level_count(3),
    ensures
        v == levels@[level_index(3, bit_field(row@, col * 3, 3))],
{
    // Eight columns take three bytes, so a column's bits lie within the three
    // bytes of its eight.
    let first: usize = col / 8 * 3;
    let part = slice_subrange(row, first, first + 3);
    let bit: usize = (col % 8) * 3;
    proof {
        assert(col * 3 == first * 8 + bit);
        lemma_field_in_part(row@, part@, first as int, bit as int, 3);
    }
    level_at(part, bit, levels, 3)
}

proof fn lemma_padded_multiple(n: int, group: int)
    requires
        group % 8 == 0,
    ensures
        (n * group) % 8 == 0,
{
    let q = group / 8;
    assert(group == 8 * q);
    assert(n * (8 * q) == 8 * (n * q)) by (nonlinear_arith);
}

proof fn lemma_cell(a: int, n: int, b: int, m: int)
    requires
        0 <= a < n,
        0 <= b < m,
    ensures
        0 <= a * m + b < n * m,
        0 <= a * m,
{
    assert(a * m + b < n * m && 0 <= a * m) by (nonlinear_arith)
        requires
            0 <= a < n,
            0 <= b < m,
    ;
}

proof fn lemma_lut_index(byte: int, k: int, p: int)
    requires
        0 <= byte < 256,
        0 <= k < p,
        p <= 4,
    ensures
        0 <= byte * p + k < 256 * p,
{
    lemma_cell(byte, 256, k, p);
}

proof fn lemma_size_bound(out_feat: int, row: int, groups: int)
    requires
        0 < out_feat < 0x1_0000_0000_0000_0000,
        0 <= row <= 0x8000_0000_0000_0200,
        0 <= groups <= 0x2000_0000_0000_0000,
    ensures
        0 <= out_feat * row,
        0 <= out_feat * groups,
        out_feat * row + out_feat * groups * 2 <= u128::MAX,
{
    assert(0 <= out_feat * row <= 0x1_0000_0000_0000_0000 * 0x8000_0000_0000_0200)
        by (nonlinear_arith)
        requires
            0 < out_feat < 0x1_0000_0000_0000_0000,
            0 <= row <= 0x8000_0000_0000_0200,
    ;
    assert(0 <= out_feat * groups <= 0x1_0000_0000_0000_0000 * 0x2000_0000_0000_0000)
        by (nonlinear_arith)
        requires
            0 < out_feat < 0x1_0000_0000_0000_0000,
            0 <= groups <= 0x2000_0000_0000_0000,
    ;
}

/// A field within three bytes of a row is the field of those bytes.
proof fn lemma_field_in_part(row: Seq<u8>, part: Seq<u8>, first: int, bit: int, n: nat)
    requires
        0 <= first,
        0 <= bit,
        first + part.len() <= row.len(),
        part == row.subrange(first, first + part.len()),
        bit + n <= part.len() * 8,
    ensures
        bit_field(row, first * 8 + bit, n) == bit_field(part, bit, n),
    decreases n,
{
    if n > 0 {
        lemma_field_in_part(row, part, first, bit, (n - 1) as nat);
        let i = bit + n - 1;
        assert((first * 8 + i) / 8 == first + i / 8);
        assert((first * 8 + i) % 8 == i % 8);
        assert(part[i / 8] == row[first + i / 8]);
        assert(first * 8 + bit + n - 1 == first * 8 + i);
    }
}

/// Where indices share a byte, a column's field is a field of its byte.
proof fn lemma_byte_field(row: Seq<u8>, col: int, bits: u8)
    requires
        is_width(bits),
        indices_per_byte(bits) != 0,
        0 <= col,
        col / indices_per_byte(bits) < row.len(),
    ensures
        ({
            let p = indices_per_byte(bits);
            let w = index_width(bits);
            bit_field(row, col * w, w as nat) == bit_field(
                seq![row[col / p]],
                (col % p) * w,
                w as nat,
            )
        }),
{
    let p = indices_per_byte(bits);
    let w = index_width(bits);
    let first = col / p;
    let part = row.subrange(first, first + 1);
    assert(part =~= seq![row[first]]);
    if p == 4 {
        assert(col * 2 == first * 8 + (col % 4) * 2);
    } else {
        assert(col * 4 == first * 8 + (col % 2) * 4);
    }
    lemma_field_in_part(row, part, first, (col % p) * w, w as nat);
}

/// A slice of words as a vector.
pub fn copy_words(s: &[u32]) -> (v: Vec<u32>)
    ensures
        v@ == s@,
{
    let mut v: Vec<u32> = Vec::new();
    let mut i: usize = 0;
    while i < s.len()
        invariant
            i <= s@.len(),
            v@ == s@.take(i as int),
        decreases s@.len() - i,
    {
        v.push(s[i]);
        i = i + 1;
        assert(v@ =~= s@.take(i as int));
    }
    assert(s@.take(s@.len() as int) =~= s@);
    v
}

/// Codes are read bit by bit, the least significant first and from byte to byte: bit
/// `j` of the code that starts at bit `bit` of a row is bit `bit + j` of the row.
pub proof fn law_codes_are_read_bit_by_bit(row: Seq<u8>, bit: int, n: nat, j: nat)
    requires
        0 <= bit,
        bit + n <= 8 * row.len(),
        j < n,
    ensures
        0 <= bit_field(row, bit, n) < pow2(n),
        (bit_field(row, bit, n) / (pow2(j) as int)) % 2 == (row[(bit + j) / 8] as int / (pow2(
            ((bit + j) % 8) as nat,
        ) as int)) % 2,
    decreases n,
{
    let k = (n - 1) as nat;
    let b = row_bit(row, bit + k);
    lemma_row_bit(row, bit + k);
    lemma_pow2_unfold(n);
    lemma_pow2_pos(k);
    lemma_pow2_pos(j);
    let v = bit_field(row, bit, k);
    let p = pow2(k) as int;
    if k > 0 {
        law_codes_are_read_bit_by_bit(
            row,
            bit,
            k,
            if j < k {
                j
            } else {
                0
            },
        );
    } else {
        lemma2_to64();
    }
    assert(0 <= v < p);
    assert(b == 0 || b == 1);
    assert(p * b == if b == 1 {
        p
    } else {
        0
    }) by (nonlinear_arith)
        requires
            b == 0 || b == 1,
    ;
    if j == k {
        lemma_mul_is_commutative(p, b);
        lemma_fundamental_div_mod_converse(v + p * b, p, b, v);
    } else {
        let q = pow2(j) as int;
        let h = pow2((k - j - 1) as nat) as int;
        lemma_pow2_adds(j, (k - j) as nat);
        lemma_pow2_unfold((k - j) as nat);
        assert(p == q * (2 * h));
        let t = v / q;
        lemma_fundamental_div_mod(v, q);
        assert(p * b == q * (2 * (h * b))) by (nonlinear_arith)
            requires
                p == q * (2 * h),
        ;
        assert(v + p * b == q * (t + 2 * (h * b)) + v % q) by (nonlinear_arith)
            requires
                v == q * t + v % q,
                p * b == q * (2 * (h * b)),
        ;
        lemma_mul_is_commutative(q, t + 2 * (h * b));
        lemma_fundamental_div_mod_converse(v + p * b, q, t + 2 * (h * b), v % q);
        assert((t + 2 * (h * b)) % 2 == t % 2);
    }
}

proof fn lemma_row_bit(row: Seq<u8>, i: int)
    requires
        0 <= i < 8 * row.len(),
    ensures
        row_bit(row, i) == (row[i / 8] as int / (pow2((i % 8) as nat) as int)) % 2,
        0 <= row_bit(row, i) < 2,
{
    let x = row[i / 8];
    let s = (i % 8) as u8;
    lemma_u8_shr_is_div(x, s);
    let y = x >> s;
    assert(y & 1 == y % 2) by (bit_vector);
}

/// The level of a ternary group halves with every fourfold size, which takes one off
/// its exponent. It is the level of a single weight or of two, so scaled.
pub proof fn law_ternary_levels_halve_with_the_root_of_the_group(group: int)
    requires
        0 < group,
    ensures
        ternary_level(4 * group) == ternary_level(group) - 0x80_0000,
        group == 1 ==> ternary_level(group) == 0x3F9C_AC3E,
        group == 2 ==> ternary_level(group) == 0x3F5D_919F,
{
    assert(4 * group / 4 == group);
}

/// A codebook holds three tables one behind the other: four levels for two bits, eight
/// for three and sixteen for four. A ternary group, at width five, has no table but
/// three levels: zero, its level, and the same with the sign turned.
pub proof fn law_codebooks_hold_three_tables(group: int, codebook: Seq<u32>, k: int)
    requires
        codebook.len() == 28,
    ensures
        levels_for(group, 2, codebook) is Ok && levels_for(group, 2, codebook)->Ok_0.len() == 4,
        levels_for(group, 3, codebook) is Ok && levels_for(group, 3, codebook)->Ok_0.len() == 8,
        levels_for(group, 4, codebook) is Ok && levels_for(group, 4, codebook)->Ok_0.len() == 16,
        0 <= k < 4 ==> levels_for(group, 2, codebook)->Ok_0[k] == codebook[k],
        0 <= k < 8 ==> levels_for(group, 3, codebook)->Ok_0[k] == codebook[4 + k],
        0 <= k < 16 ==> levels_for(group, 4, codebook)->Ok_0[k] == codebook[12 + k],
        levels_for(group, 5, codebook) is Ok && levels_for(group, 5, codebook)->Ok_0.len() == 3,
        levels_for(group, 5, codebook)->Ok_0[1] == 0,
        levels_for(group, 5, codebook)->Ok_0[2] == ternary_level(group) as u32,
        levels_for(group, 5, codebook)->Ok_0[0] == (ternary_level(group) + 0x8000_0000) as u32,
        forall|bits: u8|
            bits < 2 || bits > 5 ==> #[trigger] levels_for(group, bits, codebook) == Err::<
                Seq<u32>,
                CqError,
            >(CqError::UnsupportedBits(bits)),
{
}

/// Groups have eight weights or a power of two more, up to 1024.
pub proof fn law_groups_are_powers_of_two_from_eight(group: int)
    ensures
        is_group(group) <==> group == 8 || group == 16 || group == 32 || group == 64 || group == 128
            || group == 256 || group == 512 || group == 1024,
{
    lemma2_to64();
    if is_group(group) {
        let k = choose|k: nat| #[trigger] pow2(k) == group;
        if k > 10 {
            lemma_pow2_strictly_increases(10, k);
        }
    }
    assert(pow2(3) == 8 && pow2(4) == 16 && pow2(5) == 32 && pow2(6) == 64 && pow2(7) == 128);
    assert(pow2(8) == 256 && pow2(9) == 512 && pow2(10) == 1024);
}

/// Codes select their levels: of a table the level with their number, and of a ternary
/// group three the negative level, zero and the unused two zero, and one the positive
/// level.
pub proof fn law_codes_select_their_levels(bits: u8, code: int)
    requires
        is_width(bits),
        0 <= code,
    ensures
        bits <= 4 ==> level_index(bits, code) == code && index_width(bits) == bits,
        bits > 4 ==> index_width(bits) == 2,
        bits > 4 && code == 3 ==> level_index(bits, code) == 0,
        bits > 4 && (code == 0 || code == 2) ==> level_index(bits, code) == 1,
        bits > 4 && code == 1 ==> level_index(bits, code) == 2,
{
}

} // verus!
