//! Reader for the `.cact` weight container. Everything is little-endian.
//!
//! ```text
//! header      120 bytes: 29 u32 fields, then rope_theta as f32
//! codebook    codebook_len * f32
//! directory   num_tensors * 44-byte records, without names
//! blobs       64-byte aligned
//! ```
//!
//! Tensors have no names: a reader has to know their order. [`CactLayout`]
//! derives every index from the header geometry, and checks the shapes it lands
//! on against that geometry.

use crate::bits::{f16_to_f32, f16_value};
use crate::cq::{clamp_size, cq_fault, CqError, CqWeight, CODEBOOK_LEN};
use crate::le::{le16, le32, le64, u16_at, u32_at, u64_at};
use crate::pow2::{check_pow2, is_pow2};
use vstd::prelude::*;
use vstd::slice::slice_subrange;

verus! {

/// The first four bytes of a container.
pub const TAG: u32 = 0x05E1_2A83;

/// Size of the header.
pub const HEADER_BYTES: usize = 120;

/// Size of a directory record.
pub const REC_BYTES: usize = 44;

/// Blob alignment.
pub const ALIGN: usize = 64;

/// A tensor of 16-bit floats.
pub const DT_FP16: u8 = 1;

/// A tensor of 32-bit floats.
pub const DT_FP32: u8 = 2;

/// A quantised tensor.
pub const DT_CQ: u8 = 3;

/// Raw bytes.
pub const DT_RAW: u8 = 4;

/// Code of the contrastive head.
pub const HEAD_CONTRASTIVE: u8 = 1;

/// Code of the confidence head.
pub const HEAD_CONFIDENCE: u8 = 2;

/// Tensors of one layer.
pub const TENSORS_PER_LAYER: usize = 14;

/// Tensors of the lane mixing.
pub const MHC_TENSORS: usize = 9;

/// Tensors of one engram site.
pub const TENSORS_PER_ENGRAM_SITE: usize = 4;

/// Why a container was refused.
#[derive(Debug, Clone, PartialEq)]
pub enum CactError {
    TooShort { need: usize, got: usize },
    BadTag(u32),
    BadCodebookLen(usize),
    /// A directory record points outside the file.
    BlobOutOfRange { index: usize, offset: u64, nbytes: u64, file: usize },
    BadNdim { index: usize, ndim: u8 },
    /// A tensor has another type than the one needed.
    DtypeMismatch { index: usize, want: u8, got: u8 },
    /// The byte length is not a whole number of elements.
    RaggedBlob { index: usize, nbytes: u64 },
    /// The geometry needs more tensors than the directory holds.
    TensorCountTooSmall { need: usize, got: usize },
    /// A tensor has a shape that the geometry does not predict.
    ShapeMismatch { index: usize, what: &'static str, want: [usize; 4], got: [usize; 4] },
    /// A geometry field has a value that cannot be.
    BadGeometry(&'static str),
    /// The number of trailing tensors fits no head count.
    BadHeadManifest { extra: usize },
    /// An unknown head code.
    UnknownHeadCode(u8),
    Cq(CqError),
}

/// Model geometry as it stands in the header.
#[derive(Debug, Clone, PartialEq)]
pub struct CactGeometry {
    pub num_tensors: usize,
    pub codebook_len: usize,
    /// Sliding-window width, or zero.
    pub kv_window: usize,
    /// Width of a cache entry in bits.
    pub kv_bits: u32,
    pub vocab_size: usize,
    pub d_model: usize,
    pub num_heads: usize,
    pub num_kv_heads: usize,
    pub num_layers: usize,
    pub head_dim: usize,
    pub max_seq_len: usize,
    /// Transform width: a power of two that is at least `d_model`.
    pub hada_n: usize,
    pub mhc_lanes: usize,
    pub engram_slots: usize,
    pub engram_sub_dim: usize,
    pub num_engram_tables: usize,
    pub engram_conv_taps: usize,
    pub engram_conv_dilation: usize,
    pub engram_orders: Vec<usize>,
    /// Layers that carry an engram site.
    pub engram_sites: Vec<usize>,
    /// Float bits.
    pub rope_theta: u32,
}

/// A geometry in mathematical integers.
#[verifier::ext_equal]
pub struct GeomModel {
    pub num_tensors: int,
    pub codebook_len: int,
    pub kv_window: int,
    pub kv_bits: int,
    pub vocab_size: int,
    pub d_model: int,
    pub num_heads: int,
    pub num_kv_heads: int,
    pub num_layers: int,
    pub head_dim: int,
    pub max_seq_len: int,
    pub hada_n: int,
    pub mhc_lanes: int,
    pub engram_slots: int,
    pub engram_sub_dim: int,
    pub num_engram_tables: int,
    pub engram_conv_taps: int,
    pub engram_conv_dilation: int,
    pub engram_orders: Seq<int>,
    pub engram_sites: Seq<int>,
    pub rope_theta: u32,
}

/// A vector of sizes in mathematical integers.
pub open spec fn ints(v: Seq<usize>) -> Seq<int> {
    v.map_values(|x: usize| x as int)
}

impl View for CactGeometry {
    type V = GeomModel;

    open spec fn view(&self) -> GeomModel {
        GeomModel {
            num_tensors: self.num_tensors as int,
            codebook_len: self.codebook_len as int,
            kv_window: self.kv_window as int,
            kv_bits: self.kv_bits as int,
            vocab_size: self.vocab_size as int,
            d_model: self.d_model as int,
            num_heads: self.num_heads as int,
            num_kv_heads: self.num_kv_heads as int,
            num_layers: self.num_layers as int,
            head_dim: self.head_dim as int,
            max_seq_len: self.max_seq_len as int,
            hada_n: self.hada_n as int,
            mhc_lanes: self.mhc_lanes as int,
            engram_slots: self.engram_slots as int,
            engram_sub_dim: self.engram_sub_dim as int,
            num_engram_tables: self.num_engram_tables as int,
            engram_conv_taps: self.engram_conv_taps as int,
            engram_conv_dilation: self.engram_conv_dilation as int,
            engram_orders: ints(self.engram_orders@),
            engram_sites: ints(self.engram_sites@),
            rope_theta: self.rope_theta,
        }
    }
}

/// Header field `k`.
pub open spec fn field(raw: Seq<u8>, k: int) -> int {
    le32(raw, 4 * k)
}

/// The header list that starts at field `base`: `n` entries, at most four.
pub open spec fn field_list(raw: Seq<u8>, base: int, n: int) -> Seq<int> {
    Seq::new(
        (if n < 4 {
            n
        } else {
            4
        }) as nat,
        |k: int| field(raw, base + k),
    )
}

/// The geometry that a header holds.
pub open spec fn header_geometry(raw: Seq<u8>) -> GeomModel {
    GeomModel {
        num_tensors: field(raw, 1),
        codebook_len: field(raw, 2),
        kv_window: field(raw, 3),
        kv_bits: field(raw, 4),
        vocab_size: field(raw, 5),
        d_model: field(raw, 6),
        num_heads: field(raw, 7),
        num_kv_heads: field(raw, 8),
        num_layers: field(raw, 9),
        head_dim: field(raw, 10),
        max_seq_len: field(raw, 11),
        hada_n: field(raw, 12),
        mhc_lanes: field(raw, 13),
        engram_slots: field(raw, 14),
        engram_sub_dim: field(raw, 15),
        num_engram_tables: field(raw, 16),
        engram_conv_taps: field(raw, 17),
        engram_conv_dilation: field(raw, 18),
        engram_orders: field_list(raw, 20, field(raw, 19)),
        engram_sites: field_list(raw, 25, field(raw, 24)),
        rope_theta: field(raw, 29) as u32,
    }
}

/// What is wrong with a geometry, if anything is.
pub open spec fn geometry_fault(g: GeomModel) -> Option<CactError> {
    if g.vocab_size == 0 {
        Some(CactError::BadGeometry("vocab"))
    } else if g.d_model == 0 {
        Some(CactError::BadGeometry("d_model"))
    } else if g.num_heads == 0 {
        Some(CactError::BadGeometry("num_heads"))
    } else if g.num_kv_heads == 0 {
        Some(CactError::BadGeometry("num_kv_heads"))
    } else if g.num_layers == 0 {
        Some(CactError::BadGeometry("num_layers"))
    } else if g.head_dim == 0 {
        Some(CactError::BadGeometry("head_dim"))
    } else if g.max_seq_len == 0 {
        Some(CactError::BadGeometry("max_seq_len"))
    } else if g.mhc_lanes == 0 {
        Some(CactError::BadGeometry("mhc_lanes"))
    } else if g.num_heads % g.num_kv_heads != 0 {
        Some(CactError::BadGeometry("num_heads % num_kv_heads"))
    } else if g.hada_n < g.d_model || !is_pow2(g.hada_n) {
        Some(CactError::BadGeometry("hada_n"))
    } else if g.engram_sites.len() > 0 && (g.engram_slots == 0 || g.engram_sub_dim == 0
        || g.num_engram_tables == 0) {
        Some(CactError::BadGeometry("engram geometry"))
    } else if exists|k: int| 0 <= k < g.engram_sites.len() && g.engram_sites[k] >= g.num_layers {
        Some(CactError::BadGeometry("engram_sites beyond num_layers"))
    } else {
        None
    }
}

/// The largest of a list of sizes, zero for an empty one.
pub open spec fn largest(s: Seq<int>) -> int
    decreases s.len(),
{
    if s.len() == 0 {
        0
    } else {
        let m = largest(s.drop_last());
        if s.last() > m {
            s.last()
        } else {
            m
        }
    }
}

/// How many tokens back the engram convolution reaches.
pub open spec fn engram_reach(g: GeomModel) -> int {
    if g.engram_sites.len() == 0 {
        0
    } else {
        g.engram_conv_taps * largest(g.engram_orders)
    }
}

/// The largest of a list of sizes.
pub fn max_of(v: &Vec<usize>) -> (m: usize)
    ensures
        m == largest(ints(v@)),
{
    let mut m: usize = 0;
    let mut i: usize = 0;
    while i < v.len()
        invariant
            i <= v@.len(),
            m == largest(ints(v@).take(i as int)),
        decreases v@.len() - i,
    {
        proof {
            assert(ints(v@).take(i + 1).drop_last() =~= ints(v@).take(i as int));
        }
        if v[i] > m {
            m = v[i];
        }
        i = i + 1;
    }
    assert(ints(v@).take(v@.len() as int) =~= ints(v@));
    m
}

impl CactGeometry {
    /// Attention width.
    pub fn attn_dim(&self) -> (n: usize)
        requires
            self.num_heads * self.head_dim <= usize::MAX,
        ensures
            n == self.num_heads * self.head_dim,
    {
        self.num_heads * self.head_dim
    }

    /// Width of the key or value projection.
    pub fn kv_dim(&self) -> (n: usize)
        requires
            self.num_kv_heads * self.head_dim <= usize::MAX,
        ensures
            n == self.num_kv_heads * self.head_dim,
    {
        self.num_kv_heads * self.head_dim
    }

    /// Query heads that share a key head.
    pub fn kv_repeat(&self) -> (n: usize)
        requires
            self.num_kv_heads > 0,
        ensures
            n == self.num_heads as int / self.num_kv_heads as int,
    {
        self.num_heads / self.num_kv_heads
    }

    /// Width of all lanes together.
    pub fn mhc_width(&self) -> (n: usize)
        requires
            self.mhc_lanes * self.d_model <= usize::MAX,
        ensures
            n == self.mhc_lanes * self.d_model,
    {
        self.mhc_lanes * self.d_model
    }

    /// How many tokens back the engram convolution reaches.
    pub fn engram_window(&self) -> (n: usize)
        requires
            engram_reach(self@) <= usize::MAX,
        ensures
            n == engram_reach(self@),
    {
        if self.engram_sites.len() == 0 {
            0
        } else {
            self.engram_conv_taps * max_of(&self.engram_orders)
        }
    }

    #[verifier::loop_isolation(false)]
    fn validate(&self) -> (r: Result<(), CactError>)
        ensures
            match geometry_fault(self@) {
                Some(e) => r is Err && r->Err_0 == e,
                None => r is Ok,
            },
    {
        if self.vocab_size == 0 {
            return Err(CactError::BadGeometry("vocab"));
        }
        if self.d_model == 0 {
            return Err(CactError::BadGeometry("d_model"));
        }
        if self.num_heads == 0 {
            return Err(CactError::BadGeometry("num_heads"));
        }
        if self.num_kv_heads == 0 {
            return Err(CactError::BadGeometry("num_kv_heads"));
        }
        if self.num_layers == 0 {
            return Err(CactError::BadGeometry("num_layers"));
        }
        if self.head_dim == 0 {
            return Err(CactError::BadGeometry("head_dim"));
        }
        if self.max_seq_len == 0 {
            return Err(CactError::BadGeometry("max_seq_len"));
        }
        if self.mhc_lanes == 0 {
            return Err(CactError::BadGeometry("mhc_lanes"));
        }
        if self.num_heads % self.num_kv_heads != 0 {
            return Err(CactError::BadGeometry("num_heads % num_kv_heads"));
        }
        if self.hada_n < self.d_model || !check_pow2(self.hada_n) {
            return Err(CactError::BadGeometry("hada_n"));
        }
        if self.engram_sites.len() > 0 {
            if self.engram_slots == 0 || self.engram_sub_dim == 0 || self.num_engram_tables == 0 {
                return Err(CactError::BadGeometry("engram geometry"));
            }
        }
        let mut k: usize = 0;
        while k < self.engram_sites.len()
            invariant
                k <= self.engram_sites@.len(),
                forall|j: int| 0 <= j < k ==> #[trigger] self.engram_sites@[j] < self.num_layers,
            decreases self.engram_sites@.len() - k,
        {
            if self.engram_sites[k] >= self.num_layers {
                assert(self@.engram_sites[k as int] >= self@.num_layers);
                return Err(CactError::BadGeometry("engram_sites beyond num_layers"));
            }
            k = k + 1;
        }
        assert forall|j: int| 0 <= j < self@.engram_sites.len() implies self@.engram_sites[j]
            < self@.num_layers by {
            assert(self.engram_sites@[j] < self.num_layers);
        }
        Ok(())
    }
}

/// One directory record.
#[derive(Debug, Clone, Copy, PartialEq, Eq)]
pub struct Record {
    pub dtype: u8,
    pub ndim: u8,
    pub shape: [usize; 4],
    pub offset: u64,
    pub nbytes: u64,
    pub group: usize,
    /// Record width of a quantised tensor.
    pub bits: u8,
}

/// Product of the first `n` dimensions.
pub open spec fn product(shape: Seq<usize>, n: int) -> int
    decreases n,
{
    if n <= 0 {
        1
    } else {
        product(shape, n - 1) * shape[n - 1]
    }
}

impl Record {
    /// Element count that the shape implies, at least one.
    pub fn numel(&self) -> (n: usize)
        requires
            self.ndim <= 4,
            forall|k: int| 0 <= k <= self.ndim ==> #[trigger] product(self.shape@, k) <= usize::MAX,
        ensures
            n == if product(self.shape@, self.ndim as int) == 0 {
                1
            } else {
                product(self.shape@, self.ndim as int)
            },
    {
        let mut n: usize = 1;
        let mut k: usize = 0;
        while k < self.ndim as usize
            invariant
                k <= self.ndim,
                self.ndim <= 4,
                n == product(self.shape@, k as int),
                forall|j: int|
                    0 <= j <= self.ndim ==> #[trigger] product(self.shape@, j) <= usize::MAX,
            decreases self.ndim - k,
        {
            assert(product(self.shape@, k + 1) <= usize::MAX);
            n = n * self.shape[k];
            k = k + 1;
        }
        if n == 0 {
            1
        } else {
            n
        }
    }
}

/// Where the directory starts.
pub open spec fn dir_start() -> int {
    HEADER_BYTES + CODEBOOK_LEN * 4
}

/// Where directory record `i` starts.
pub open spec fn rec_pos(i: int) -> int {
    dir_start() + i * REC_BYTES
}

/// `r` is directory record `i`.
pub open spec fn is_record(r: Record, raw: Seq<u8>, i: int) -> bool {
    let o = rec_pos(i);
    &&& r.dtype == raw[o]
    &&& r.ndim == raw[o + 1]
    &&& r.shape@.len() == 4
    &&& r.shape@[0] == le32(raw, o + 4)
    &&& r.shape@[1] == le32(raw, o + 8)
    &&& r.shape@[2] == le32(raw, o + 12)
    &&& r.shape@[3] == le32(raw, o + 16)
    &&& r.offset == le64(raw, o + 20)
    &&& r.nbytes == le64(raw, o + 28)
    &&& r.group == le32(raw, o + 36)
    &&& r.bits == le32(raw, o + 40) % 0x100
}

/// What is wrong with directory record `i`, if anything is.
pub open spec fn record_fault(raw: Seq<u8>, i: int) -> Option<CactError> {
    let o = rec_pos(i);
    if raw[o + 1] > 4 {
        Some(CactError::BadNdim { index: i as usize, ndim: raw[o + 1] })
    } else if le64(raw, o + 20) + le64(raw, o + 28) > raw.len() {
        Some(
            CactError::BlobOutOfRange {
                index: i as usize,
                offset: le64(raw, o + 20) as u64,
                nbytes: le64(raw, o + 28) as u64,
                file: raw.len() as usize,
            },
        )
    } else {
        None
    }
}

/// The first fault among the records from `i` on.
pub open spec fn records_fault(raw: Seq<u8>, i: int, n: int) -> Option<CactError>
    decreases n - i,
{
    if i >= n {
        None
    } else {
        match record_fault(raw, i) {
            Some(e) => Some(e),
            None => records_fault(raw, i + 1, n),
        }
    }
}

/// Why a container is refused, if it is.
pub open spec fn cact_fault(raw: Seq<u8>) -> Option<CactError> {
    if raw.len() < HEADER_BYTES {
        Some(CactError::TooShort { need: HEADER_BYTES, got: raw.len() as usize })
    } else if field(raw, 0) != TAG {
        Some(CactError::BadTag(field(raw, 0) as u32))
    } else {
        let g = header_geometry(raw);
        match geometry_fault(g) {
            Some(e) => Some(e),
            None => if g.codebook_len != CODEBOOK_LEN {
                Some(CactError::BadCodebookLen(g.codebook_len as usize))
            } else if raw.len() < rec_pos(g.num_tensors) {
                Some(
                    CactError::TooShort {
                        need: clamp_size(rec_pos(g.num_tensors)),
                        got: raw.len() as usize,
                    },
                )
            } else {
                records_fault(raw, 0, g.num_tensors)
            },
        }
    }
}

/// A parsed container. It owns the bytes; tensors are decoded on demand.
pub struct Cact {
    pub raw: Vec<u8>,
    pub geom: CactGeometry,
    /// The codebook, as float bits.
    pub codebook: Vec<u32>,
    pub records: Vec<Record>,
}

impl Cact {
    /// Well-formedness: header, codebook and directory are what the bytes hold,
    /// and the bytes were accepted.
    pub open spec fn wf(&self) -> bool {
        &&& self.raw@.len() <= isize::MAX
        &&& cact_fault(self.raw@) is None
        &&& self.geom@ == header_geometry(self.raw@)
        &&& self.codebook@.len() == CODEBOOK_LEN
        &&& forall|i: int|
            0 <= i < CODEBOOK_LEN ==> #[trigger] self.codebook@[i] == le32(
                self.raw@,
                HEADER_BYTES + 4 * i,
            )
        &&& self.records@.len() == self.geom.num_tensors
        &&& forall|i: int|
            0 <= i < self.records@.len() ==> is_record(#[trigger] self.records@[i], self.raw@, i)
    }

    /// The bytes of tensor `i`.
    pub open spec fn blob_of(&self, i: int) -> Seq<u8> {
        self.raw@.subrange(
            self.records@[i].offset as int,
            self.records@[i].offset + self.records@[i].nbytes,
        )
    }
}

proof fn lemma_no_record_fault(raw: Seq<u8>, i: int, n: int, k: int)
    requires
        records_fault(raw, i, n) is None,
        i <= k < n,
    ensures
        record_fault(raw, k) is None,
    decreases n - i,
{
    if i < k {
        lemma_no_record_fault(raw, i + 1, n, k);
    }
}

proof fn lemma_le_bounds(s: Seq<u8>, o: int)
    ensures
        0 <= le32(s, o) <= u32::MAX,
        0 <= le64(s, o) <= u64::MAX,
{
}

fn field_at(raw: &Vec<u8>, k: usize) -> (v: usize)
    requires
        k < 30,
        raw@.len() >= HEADER_BYTES,
    ensures
        v == field(raw@, k as int),
        v <= u32::MAX,
{
    u32_at(raw.as_slice(), 4 * k) as usize
}

fn field_list_at(raw: &Vec<u8>, base: usize, n: usize) -> (v: Vec<usize>)
    requires
        base + 4 <= 30,
        raw@.len() >= HEADER_BYTES,
    ensures
        ints(v@) == field_list(raw@, base as int, n as int),
{
    let count: usize = if n < 4 {
        n
    } else {
        4
    };
    let mut v: Vec<usize> = Vec::new();
    let mut k: usize = 0;
    while k < count
        invariant
            k <= count,
            count <= 4,
            base + 4 <= 30,
            raw@.len() >= HEADER_BYTES,
            v@.len() == k,
            forall|j: int| 0 <= j < k ==> #[trigger] v@[j] == field(raw@, base + j),
        decreases count - k,
    {
        v.push(field_at(raw, base + k));
        k = k + 1;
    }
    assert(ints(v@) =~= field_list(raw@, base as int, n as int));
    v
}

fn read_geometry(raw: &Vec<u8>) -> (g: CactGeometry)
    requires
        raw@.len() >= HEADER_BYTES,
    ensures
        g@ == header_geometry(raw@),
{
    let num_orders: usize = field_at(raw, 19);
    let num_sites: usize = field_at(raw, 24);
    let g = CactGeometry {
        num_tensors: field_at(raw, 1),
        codebook_len: field_at(raw, 2),
        kv_window: field_at(raw, 3),
        kv_bits: u32_at(raw.as_slice(), 16),
        vocab_size: field_at(raw, 5),
        d_model: field_at(raw, 6),
        num_heads: field_at(raw, 7),
        num_kv_heads: field_at(raw, 8),
        num_layers: field_at(raw, 9),
        head_dim: field_at(raw, 10),
        max_seq_len: field_at(raw, 11),
        hada_n: field_at(raw, 12),
        mhc_lanes: field_at(raw, 13),
        engram_slots: field_at(raw, 14),
        engram_sub_dim: field_at(raw, 15),
        num_engram_tables: field_at(raw, 16),
        engram_conv_taps: field_at(raw, 17),
        engram_conv_dilation: field_at(raw, 18),
        engram_orders: field_list_at(raw, 20, num_orders),
        engram_sites: field_list_at(raw, 25, num_sites),
        rope_theta: u32_at(raw.as_slice(), 116),
    };
    assert(g@ =~= header_geometry(raw@));
    g
}

impl Cact {
    /// Parse a container.
    pub fn from_bytes(raw: Vec<u8>) -> (r: Result<Cact, CactError>)
        requires
            raw@.len() <= isize::MAX,
        ensures
            match cact_fault(raw@) {
                Some(e) => r is Err && r->Err_0 == e,
                None => r is Ok && r->Ok_0.wf() && r->Ok_0.raw@ == raw@,
            },
    {
        let len: usize = raw.len();
        if len < HEADER_BYTES {
            return Err(CactError::TooShort { need: HEADER_BYTES, got: len });
        }
        let tag: u32 = u32_at(raw.as_slice(), 0);
        if tag != TAG {
            return Err(CactError::BadTag(tag));
        }
        let geom = read_geometry(&raw);
        match geom.validate() {
            Ok(_) => {},
            Err(e) => {
                return Err(e);
            },
        }
        if geom.codebook_len != CODEBOOK_LEN {
            return Err(CactError::BadCodebookLen(geom.codebook_len));
        }
        let dir: usize = HEADER_BYTES + CODEBOOK_LEN * 4;
        let n: usize = geom.num_tensors;
        let dir_end: u128 = dir as u128 + n as u128 * REC_BYTES as u128;
        if (len as u128) < dir_end {
            let need: usize = if dir_end > usize::MAX as u128 {
                usize::MAX
            } else {
                dir_end as usize
            };
            return Err(CactError::TooShort { need, got: len });
        }
        let mut codebook: Vec<u32> = Vec::new();
        let mut i: usize = 0;
        while i < CODEBOOK_LEN
            invariant
                i <= CODEBOOK_LEN,
                raw@.len() == len,
                len >= HEADER_BYTES + CODEBOOK_LEN * 4,
                codebook@.len() == i,
                forall|j: int|
                    0 <= j < i ==> #[trigger] codebook@[j] == le32(raw@, HEADER_BYTES + 4 * j),
            decreases CODEBOOK_LEN - i,
        {
            codebook.push(u32_at(raw.as_slice(), HEADER_BYTES + 4 * i));
            i = i + 1;
        }
        let mut records: Vec<Record> = Vec::new();
        i = 0;
        while i < n
            invariant
                i <= n,
                raw@.len() == len,
                len <= isize::MAX,
                dir == dir_start(),
                dir + n * REC_BYTES <= len,
                cact_fault(raw@) == records_fault(raw@, 0, n as int),
                records_fault(raw@, 0, n as int) == records_fault(raw@, i as int, n as int),
                records@.len() == i,
                forall|j: int| 0 <= j < i ==> is_record(#[trigger] records@[j], raw@, j),
            decreases n - i,
        {
            let o: usize = dir + i * REC_BYTES;
            proof {
                lemma_le_bounds(raw@, o + 20);
                lemma_le_bounds(raw@, o + 28);
            }
            let b = raw.as_slice();
            let ndim: u8 = b[o + 1];
            if ndim > 4 {
                return Err(CactError::BadNdim { index: i, ndim });
            }
            let rec = Record {
                dtype: b[o],
                ndim,
                shape: [
                    u32_at(b, o + 4) as usize,
                    u32_at(b, o + 8) as usize,
                    u32_at(b, o + 12) as usize,
                    u32_at(b, o + 16) as usize,
                ],
                offset: u64_at(b, o + 20),
                nbytes: u64_at(b, o + 28),
                group: u32_at(b, o + 36) as usize,
                bits: (u32_at(b, o + 40) % 0x100) as u8,
            };
            let end: u64 = rec.offset.saturating_add(rec.nbytes);
            if end > len as u64 {
                return Err(
                    CactError::BlobOutOfRange {
                        index: i,
                        offset: rec.offset,
                        nbytes: rec.nbytes,
                        file: len,
                    },
                );
            }
            assert(is_record(rec, raw@, i as int));
            records.push(rec);
            i = i + 1;
        }
        Ok(Cact { raw, geom, codebook, records })
    }

    /// A tensor's bytes lie within the file.
    pub proof fn lemma_blob_in_range(&self, i: int)
        requires
            self.wf(),
            0 <= i < self.records@.len(),
        ensures
            self.records@[i].offset + self.records@[i].nbytes <= self.raw@.len(),
            self.records@[i].ndim <= 4,
            self.blob_of(i).len() == self.records@[i].nbytes,
    {
        lemma_no_record_fault(self.raw@, 0, self.records@.len() as int, i);
        assert(is_record(self.records@[i], self.raw@, i));
    }

    /// The number of tensors.
    pub fn num_tensors(&self) -> (n: usize)
        ensures
            n == self.records@.len(),
    {
        self.records.len()
    }

    /// The directory.
    pub fn records(&self) -> (r: &[Record])
        ensures
            r@ == self.records@,
    {
        self.records.as_slice()
    }

    /// One directory record.
    pub fn record(&self, i: usize) -> (r: &Record)
        requires
            i < self.records@.len(),
        ensures
            *r == self.records@[i as int],
    {
        &self.records[i]
    }

    /// Size of the file.
    pub fn byte_len(&self) -> (n: usize)
        ensures
            n == self.raw@.len(),
    {
        self.raw.len()
    }

    fn blob(&self, i: usize) -> (b: &[u8])
        requires
            self.wf(),
            i < self.records@.len(),
        ensures
            b@ == self.blob_of(i as int),
    {
        proof {
            self.lemma_blob_in_range(i as int);
        }
        let r = &self.records[i];
        let start: usize = r.offset as usize;
        let end: usize = (r.offset + r.nbytes) as usize;
        slice_subrange(self.raw.as_slice(), start, end)
    }
}

/// The values of a float tensor, as float bits.
pub open spec fn floats_of(dtype: u8, blob: Seq<u8>) -> Seq<u32> {
    if dtype == DT_FP16 {
        Seq::new((blob.len() / 2) as nat, |k: int| f16_value(le16(blob, 2 * k) as u16))
    } else {
        Seq::new((blob.len() / 4) as nat, |k: int| le32(blob, 4 * k) as u32)
    }
}

/// Why a tensor is not one of floats, if it is not.
pub open spec fn floats_fault(r: Record, i: int) -> Option<CactError> {
    if r.dtype == DT_FP16 {
        if r.nbytes % 2 != 0 {
            Some(CactError::RaggedBlob { index: i as usize, nbytes: r.nbytes })
        } else {
            None
        }
    } else if r.dtype == DT_FP32 {
        if r.nbytes % 4 != 0 {
            Some(CactError::RaggedBlob { index: i as usize, nbytes: r.nbytes })
        } else {
            None
        }
    } else {
        Some(CactError::DtypeMismatch { index: i as usize, want: DT_FP16, got: r.dtype })
    }
}

/// Why a tensor is not a quantised one, if it is not.
pub open spec fn cq_tensor_fault(r: Record, i: int, codebook: Seq<u32>) -> Option<CactError> {
    if r.dtype != DT_CQ {
        Some(CactError::DtypeMismatch { index: i as usize, want: DT_CQ, got: r.dtype })
    } else {
        match cq_fault(
            r.nbytes as int,
            r.shape@[0] as int,
            r.shape@[1] as int,
            r.group as int,
            r.bits,
            codebook,
        ) {
            Some(e) => Some(CactError::Cq(e)),
            None => None,
        }
    }
}

impl Cact {
    /// Read a tensor of 16-bit or 32-bit floats, as float bits.
    pub fn floats(&self, i: usize) -> (r: Result<Vec<u32>, CactError>)
        requires
            self.wf(),
            i < self.records@.len(),
        ensures
            match floats_fault(self.records@[i as int], i as int) {
                Some(e) => r is Err && r->Err_0 == e,
                None => r is Ok && r->Ok_0@ == floats_of(
                    self.records@[i as int].dtype,
                    self.blob_of(i as int),
                ),
            },
    {
        proof {
            self.lemma_blob_in_range(i as int);
        }
        let dtype: u8 = self.records[i].dtype;
        let nbytes: u64 = self.records[i].nbytes;
        let blob = self.blob(i);
        let mut v: Vec<u32> = Vec::new();
        if dtype == DT_FP16 {
            if nbytes % 2 != 0 {
                return Err(CactError::RaggedBlob { index: i, nbytes });
            }
            let total: usize = blob.len();
            let n: usize = total / 2;
            let mut k: usize = 0;
            while k < n
                invariant
                    k <= n,
                    total == blob@.len(),
                    n == total / 2,
                    v@.len() == k,
                    forall|j: int|
                        0 <= j < k ==> #[trigger] v@[j] == f16_value(le16(blob@, 2 * j) as u16),
                decreases n - k,
            {
                v.push(f16_to_f32(u16_at(blob, 2 * k)));
                k = k + 1;
            }
            assert(v@ =~= floats_of(dtype, blob@));
            Ok(v)
        } else if dtype == DT_FP32 {
            if nbytes % 4 != 0 {
                return Err(CactError::RaggedBlob { index: i, nbytes });
            }
            let total: usize = blob.len();
            let n: usize = total / 4;
            let mut k: usize = 0;
            while k < n
                invariant
                    k <= n,
                    total == blob@.len(),
                    n == total / 4,
                    v@.len() == k,
                    forall|j: int| 0 <= j < k ==> #[trigger] v@[j] == le32(blob@, 4 * j),
                decreases n - k,
            {
                v.push(u32_at(blob, 4 * k));
                k = k + 1;
            }
            assert(v@ =~= floats_of(dtype, blob@));
            Ok(v)
        } else {
            Err(CactError::DtypeMismatch { index: i, want: DT_FP16, got: dtype })
        }
    }

    /// Read a quantised tensor. Its shape is `[out, in]`.
    pub fn cq(&self, i: usize) -> (r: Result<CqWeight, CactError>)
        requires
            self.wf(),
            i < self.records@.len(),
        ensures
            match cq_tensor_fault(self.records@[i as int], i as int, self.codebook@) {
                Some(e) => r is Err && r->Err_0 == e,
                None => r is Ok && r->Ok_0.wf() && r->Ok_0.is_from(
                    self.blob_of(i as int),
                    self.codebook@,
                ) && self.is_cq_shape(r->Ok_0, i as int),
            },
    {
        proof {
            self.lemma_blob_in_range(i as int);
        }
        let dtype: u8 = self.records[i].dtype;
        if dtype != DT_CQ {
            return Err(CactError::DtypeMismatch { index: i, want: DT_CQ, got: dtype });
        }
        let out_feat: usize = self.records[i].shape[0];
        let in_feat: usize = self.records[i].shape[1];
        let group: usize = self.records[i].group;
        let bits: u8 = self.records[i].bits;
        match CqWeight::from_blob(
            self.blob(i),
            out_feat,
            in_feat,
            group,
            bits,
            self.codebook.as_slice(),
        ) {
            Ok(w) => Ok(w),
            Err(e) => Err(CactError::Cq(e)),
        }
    }

    /// A quantised tensor has the shape, group and width of its record.
    pub open spec fn is_cq_shape(&self, w: CqWeight, i: int) -> bool {
        let r = self.records@[i];
        &&& w.out_feat == r.shape@[0]
        &&& w.in_feat == r.shape@[1]
        &&& w.group == r.group
        &&& w.bits == r.bits
    }

    /// The bytes of a raw tensor.
    pub fn raw_tensor(&self, i: usize) -> (r: Result<&[u8], CactError>)
        requires
            self.wf(),
            i < self.records@.len(),
        ensures
            match r {
                Ok(b) => self.records@[i as int].dtype == DT_RAW && b@ == self.blob_of(i as int),
                Err(e) => self.records@[i as int].dtype != DT_RAW && e == (
                CactError::DtypeMismatch {
                    index: i,
                    want: DT_RAW,
                    got: self.records@[i as int].dtype,
                }),
            },
    {
        let dtype: u8 = self.records[i].dtype;
        if dtype != DT_RAW {
            return Err(CactError::DtypeMismatch { index: i, want: DT_RAW, got: dtype });
        }
        Ok(self.blob(i))
    }
}

/// A geometry is sound where no size of the model is zero, the query heads share the
/// key heads evenly, the Hadamard width is a power of two that holds the model width,
/// and every memory site is a layer and has tables to read.
pub proof fn law_sound_geometries_are_accepted(g: GeomModel)
    ensures
        geometry_fault(g) is None <==> {
            &&& g.vocab_size != 0 && g.d_model != 0 && g.num_heads != 0 && g.num_kv_heads != 0
            &&& g.num_layers != 0 && g.head_dim != 0 && g.max_seq_len != 0 && g.mhc_lanes != 0
            &&& g.num_heads % g.num_kv_heads == 0
            &&& g.d_model <= g.hada_n && is_pow2(g.hada_n)
            &&& forall|k: int|
                0 <= k < g.engram_sites.len() ==> (#[trigger] g.engram_sites[k]) < g.num_layers
            &&& g.engram_sites.len() > 0 ==> g.engram_slots != 0 && g.engram_sub_dim != 0
                && g.num_engram_tables != 0
        },
{
}

} // verus!
