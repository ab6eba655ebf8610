//! Which tensor stands at which position of a container.

use crate::bits::{f32_as_u8, f32_to_u8};
use crate::cact::{floats_fault, floats_of, Cact, CactError, CactGeometry, GeomModel, Record, DT_RAW, HEAD_CONFIDENCE, HEAD_CONTRASTIVE, MHC_TENSORS, TENSORS_PER_ENGRAM_SITE, TENSORS_PER_LAYER};
use crate::cq::clamp_size;
use vstd::prelude::*;

verus! {

/// Tensor indices of one layer.
#[derive(Debug, Clone, Copy, PartialEq, Eq)]
pub struct LayerIdx {
    pub norm_in: usize,
    pub q_proj: usize,
    pub k_proj: usize,
    pub v_proj: usize,
    pub q_norm: usize,
    pub k_norm: usize,
    pub gate_proj: usize,
    pub out_proj: usize,
    pub post_norm: usize,
    pub attn_gate: usize,
    pub pre_hada: usize,
    pub d1: usize,
    pub d2: usize,
    pub d3: usize,
}

/// Tensor indices of one engram site.
#[derive(Debug, Clone, Copy, PartialEq, Eq)]
pub struct EngramIdx {
    pub tables: usize,
    pub key_proj: usize,
    pub value_proj: usize,
    pub taps: usize,
}

/// Tensor indices of the lane mixing.
#[derive(Debug, Clone, Copy, PartialEq, Eq)]
pub struct MhcIdx {
    pub a_pre: usize,
    pub a_post: usize,
    pub a_res: usize,
    pub b_pre: usize,
    pub b_post: usize,
    pub b_res: usize,
    pub phi_pre: usize,
    pub phi_post: usize,
    pub phi_res: usize,
}

/// Tensor indices of one probe head.
#[derive(Debug, Clone, Copy, PartialEq, Eq)]
pub struct HeadIdx {
    pub code: u8,
    pub probes: usize,
    pub proj: usize,
    pub bias: usize,
}

/// Every tensor index of one container.
#[derive(Debug, Clone)]
pub struct CactLayout {
    pub embedding: usize,
    pub layers: Vec<LayerIdx>,
    pub mhc: MhcIdx,
    pub engrams: Vec<EngramIdx>,
    pub final_norm: usize,
    /// The head manifest, where there are heads.
    pub head_manifest: Option<usize>,
    pub heads: Vec<HeadIdx>,
    /// The embedded tokenizer, where there is one.
    pub tokenizer: Option<usize>,
}

/// Where the tensors of layer `k` start.
pub open spec fn layer_base(k: int) -> int {
    1 + k * TENSORS_PER_LAYER
}

/// Where the lane mixing starts.
pub open spec fn mhc_base(g: GeomModel) -> int {
    layer_base(g.num_layers)
}

/// Where the tensors of engram site `k` start.
pub open spec fn engram_base(g: GeomModel, k: int) -> int {
    mhc_base(g) + MHC_TENSORS + k * TENSORS_PER_ENGRAM_SITE
}

/// Where the final norm stands.
pub open spec fn final_norm_pos(g: GeomModel) -> int {
    engram_base(g, g.engram_sites.len() as int)
}

/// How many tensors every container of this geometry has.
pub open spec fn canon_len(g: GeomModel) -> int {
    final_norm_pos(g) + 1
}

/// Where the tensors of head `k` start, behind the manifest.
pub open spec fn head_base(g: GeomModel, k: int) -> int {
    canon_len(g) + 1 + 3 * k
}

/// `l` is the layer that starts at `i`.
pub open spec fn is_layer_idx(l: LayerIdx, i: int) -> bool {
    &&& l.norm_in == i
    &&& l.q_proj == i + 1
    &&& l.k_proj == i + 2
    &&& l.v_proj == i + 3
    &&& l.q_norm == i + 4
    &&& l.k_norm == i + 5
    &&& l.gate_proj == i + 6
    &&& l.out_proj == i + 7
    &&& l.post_norm == i + 8
    &&& l.attn_gate == i + 9
    &&& l.pre_hada == i + 10
    &&& l.d1 == i + 11
    &&& l.d2 == i + 12
    &&& l.d3 == i + 13
}

/// `m` is the lane mixing that starts at `i`.
pub open spec fn is_mhc_idx(m: MhcIdx, i: int) -> bool {
    &&& m.a_pre == i
    &&& m.a_post == i + 1
    &&& m.a_res == i + 2
    &&& m.b_pre == i + 3
    &&& m.b_post == i + 4
    &&& m.b_res == i + 5
    &&& m.phi_pre == i + 6
    &&& m.phi_post == i + 7
    &&& m.phi_res == i + 8
}

/// `e` is the engram site that starts at `i`.
pub open spec fn is_engram_idx(e: EngramIdx, i: int) -> bool {
    &&& e.tables == i
    &&& e.key_proj == i + 1
    &&& e.value_proj == i + 2
    &&& e.taps == i + 3
}

/// `h` is the head that starts at `i`.
pub open spec fn is_head_idx(h: HeadIdx, i: int) -> bool {
    &&& h.probes == i
    &&& h.proj == i + 1
    &&& h.bias == i + 2
}

/// The last tensor is the tokenizer.
pub open spec fn ends_with_raw(c: Cact) -> bool {
    c.records@.len() > 0 && c.records@[c.records@.len() - 1].dtype == DT_RAW
}

/// Tensors between the final norm and the tokenizer.
pub open spec fn extra_tensors(c: Cact) -> int {
    c.records@.len() - canon_len(c.geom@) - if ends_with_raw(c) {
        1int
    } else {
        0int
    }
}

/// How many heads so many extra tensors make: none, or a manifest and three
/// for each.
pub open spec fn head_count(extra: int) -> Option<int> {
    if extra == 0 {
        Some(0)
    } else if extra >= 4 && (extra - 1) % 3 == 0 {
        Some((extra - 1) / 3)
    } else {
        None
    }
}

/// The numbers in the head manifest, as float bits.
pub open spec fn manifest(c: Cact) -> Seq<u32> {
    let i = canon_len(c.geom@);
    floats_of(c.records@[i].dtype, c.blob_of(i))
}

/// The code of head `k`.
pub open spec fn head_code(c: Cact, k: int) -> int {
    f32_as_u8(manifest(c)[k])
}

/// A head code that is known.
pub open spec fn is_head_code(code: int) -> bool {
    code == HEAD_CONTRASTIVE || code == HEAD_CONFIDENCE
}

/// What is wrong with a layout.
pub enum LayoutFault {
    Plain(CactError),
    Shape { index: int, what: &'static str, want: Seq<int>, got: Seq<int> },
}

/// `e` reports the fault `f`. A predicted size is reported up to what a
/// `usize` holds.
pub open spec fn reports(e: CactError, f: LayoutFault) -> bool {
    match f {
        LayoutFault::Plain(x) => e == x,
        LayoutFault::Shape { index, what, want, got } => match e {
            CactError::ShapeMismatch { index: i, what: w, want: a, got: b } => {
                &&& i == index
                &&& w == what
                &&& forall|k: int| 0 <= k < 4 ==> #[trigger] a@[k] == clamp_size(want[k])
                &&& forall|k: int| 0 <= k < 4 ==> #[trigger] b@[k] == got[k]
            },
            _ => false,
        },
    }
}

/// The shape of a record, unused dimensions zero.
pub open spec fn shape_of(r: Record) -> Seq<int> {
    Seq::new(
        4,
        |k: int|
            if k < r.ndim {
                r.shape@[k] as int
            } else {
                0
            },
    )
}

/// Dimensions, unused ones zero.
pub open spec fn pad4(dims: Seq<int>) -> Seq<int> {
    Seq::new(
        4,
        |k: int|
            if k < dims.len() {
                dims[k]
            } else {
                0
            },
    )
}

/// A tensor and the shape that the geometry predicts for it.
pub struct Check {
    pub index: int,
    pub what: &'static str,
    pub dims: Seq<int>,
}

/// The fault of one tensor's shape.
pub open spec fn shape_fault(c: Cact, check: Check) -> Option<LayoutFault> {
    let r = c.records@[check.index];
    if r.ndim == check.dims.len() && shape_of(r) == pad4(check.dims) {
        None
    } else {
        Some(
            LayoutFault::Shape {
                index: check.index,
                what: check.what,
                want: pad4(check.dims),
                got: shape_of(r),
            },
        )
    }
}

/// The first of two faults.
pub open spec fn first_of(a: Option<LayoutFault>, b: Option<LayoutFault>) -> Option<LayoutFault> {
    match a {
        Some(f) => Some(f),
        None => b,
    }
}

/// The first fault among the checks from `k` on.
pub open spec fn first_fault(c: Cact, checks: Seq<Check>, k: int) -> Option<LayoutFault>
    decreases checks.len() - k,
{
    if k < 0 || k >= checks.len() {
        None
    } else {
        first_of(shape_fault(c, checks[k]), first_fault(c, checks, k + 1))
    }
}

/// The shapes of the layer that starts at `i`.
pub open spec fn layer_checks(g: GeomModel, i: int) -> Seq<Check> {
    let d = g.d_model;
    let attn = g.num_heads * g.head_dim;
    let kv = g.num_kv_heads * g.head_dim;
    seq![
        Check { index: i, what: "norm_in", dims: seq![d] },
        Check { index: i + 1, what: "q_proj", dims: seq![attn, d] },
        Check { index: i + 2, what: "k_proj", dims: seq![kv, d] },
        Check { index: i + 3, what: "v_proj", dims: seq![kv, d] },
        Check { index: i + 4, what: "q_norm", dims: seq![g.head_dim] },
        Check { index: i + 5, what: "k_norm", dims: seq![g.head_dim] },
        Check { index: i + 6, what: "gate_proj", dims: seq![attn, d] },
        Check { index: i + 7, what: "out_proj", dims: seq![d, attn] },
        Check { index: i + 8, what: "post_norm", dims: seq![d] },
        Check { index: i + 9, what: "attn_gate", dims: seq![1int] },
        Check { index: i + 10, what: "pre_hada", dims: seq![d] },
        Check { index: i + 11, what: "d1", dims: seq![g.hada_n] },
        Check { index: i + 12, what: "d2", dims: seq![g.hada_n] },
        Check { index: i + 13, what: "d3", dims: seq![g.hada_n] },
    ]
}

/// The shapes of the lane mixing that starts at `i`.
pub open spec fn mhc_checks(g: GeomModel, i: int) -> Seq<Check> {
    let l = g.num_layers;
    let n = g.mhc_lanes;
    let w = g.mhc_lanes * g.d_model;
    seq![
        Check { index: i, what: "mhc_a_pre", dims: seq![l] },
        Check { index: i + 1, what: "mhc_a_post", dims: seq![l] },
        Check { index: i + 2, what: "mhc_a_res", dims: seq![l] },
        Check { index: i + 3, what: "mhc_b_pre", dims: seq![l, n] },
        Check { index: i + 4, what: "mhc_b_post", dims: seq![l, n] },
        Check { index: i + 5, what: "mhc_b_res", dims: seq![l, n, n] },
        Check { index: i + 6, what: "mhc_phi_pre", dims: seq![l * n, w] },
        Check { index: i + 7, what: "mhc_phi_post", dims: seq![l * n, w] },
        Check { index: i + 8, what: "mhc_phi_res", dims: seq![l * n * n, w] },
    ]
}

/// The shapes of the engram site that starts at `i`.
pub open spec fn engram_checks(g: GeomModel, i: int) -> Seq<Check> {
    let e = g.num_engram_tables * g.engram_sub_dim;
    seq![
        Check {
            index: i,
            what: "engram tables",
            dims: seq![g.num_engram_tables * g.engram_slots, g.engram_sub_dim],
        },
        Check { index: i + 1, what: "engram key_proj", dims: seq![g.d_model, e] },
        Check { index: i + 2, what: "engram value_proj", dims: seq![g.d_model, e] },
        Check { index: i + 3, what: "engram taps", dims: seq![g.engram_conv_taps, g.d_model] },
    ]
}

/// The first fault among the layers from `k` on.
pub open spec fn layers_fault(c: Cact, k: int) -> Option<LayoutFault>
    decreases c.geom@.num_layers - k,
{
    if k >= c.geom@.num_layers {
        None
    } else {
        first_of(
            first_fault(c, layer_checks(c.geom@, layer_base(k)), 0),
            layers_fault(c, k + 1),
        )
    }
}

/// The first fault among the engram sites from `k` on.
pub open spec fn engrams_fault(c: Cact, k: int) -> Option<LayoutFault>
    decreases c.geom@.engram_sites.len() - k,
{
    if k >= c.geom@.engram_sites.len() {
        None
    } else {
        first_of(
            first_fault(c, engram_checks(c.geom@, engram_base(c.geom@, k)), 0),
            engrams_fault(c, k + 1),
        )
    }
}

/// The fault of the head that starts at `i`. Its probe and output counts are
/// its own; there must be a probe.
pub open spec fn head_fault(c: Cact, i: int) -> Option<LayoutFault> {
    let d = c.geom@.d_model;
    let probes = c.records@[i].shape@[0] as int;
    let out = c.records@[i + 1].shape@[0] as int;
    if probes == 0 {
        Some(
            LayoutFault::Shape {
                index: i,
                what: "head probes",
                want: seq![1int, d, 0int, 0int],
                got: seq![0int, 0int, 0int, 0int],
            },
        )
    } else {
        first_fault(
            c,
            seq![
                Check { index: i, what: "head probes", dims: seq![probes, d] },
                Check { index: i + 1, what: "head proj", dims: seq![out, probes * d] },
                Check { index: i + 2, what: "head bias", dims: seq![out] },
            ],
            0,
        )
    }
}

/// The first fault among the heads from `k` on.
pub open spec fn heads_fault(c: Cact, k: int, n: int) -> Option<LayoutFault>
    decreases n - k,
{
    if k >= n {
        None
    } else {
        first_of(head_fault(c, head_base(c.geom@, k)), heads_fault(c, k + 1, n))
    }
}

/// The first shape that the geometry does not predict.
pub open spec fn shapes_fault(c: Cact, n_heads: int) -> Option<LayoutFault> {
    let g = c.geom@;
    first_of(
        shape_fault(
            c,
            Check { index: 0, what: "embedding", dims: seq![g.vocab_size, g.d_model] },
        ),
        first_of(
            layers_fault(c, 0),
            first_of(
                first_fault(c, mhc_checks(g, mhc_base(g)), 0),
                first_of(
                    engrams_fault(c, 0),
                    first_of(
                        shape_fault(
                            c,
                            Check {
                                index: final_norm_pos(g),
                                what: "final_norm",
                                dims: seq![g.d_model],
                            },
                        ),
                        heads_fault(c, 0, n_heads),
                    ),
                ),
            ),
        ),
    )
}

/// The first unknown head code.
pub open spec fn codes_fault(c: Cact, k: int, n: int) -> Option<LayoutFault>
    decreases n - k,
{
    if k >= n {
        None
    } else if !is_head_code(head_code(c, k)) {
        Some(LayoutFault::Plain(CactError::UnknownHeadCode(head_code(c, k) as u8)))
    } else {
        codes_fault(c, k + 1, n)
    }
}

/// What is wrong with the head manifest.
pub open spec fn manifest_fault(c: Cact, n_heads: int) -> Option<LayoutFault> {
    if n_heads == 0 {
        None
    } else {
        let i = canon_len(c.geom@);
        match floats_fault(c.records@[i], i) {
            Some(e) => Some(LayoutFault::Plain(e)),
            None => if manifest(c).len() != n_heads {
                Some(
                    LayoutFault::Plain(
                        CactError::BadHeadManifest { extra: extra_tensors(c) as usize },
                    ),
                )
            } else {
                codes_fault(c, 0, n_heads)
            },
        }
    }
}

/// Why a container has no layout, if it has none. Where the last tensor of the
/// canon is itself raw, the reported count is the largest there is.
pub open spec fn layout_fault(c: Cact) -> Option<LayoutFault> {
    let g = c.geom@;
    if c.records@.len() < canon_len(g) {
        Some(
            LayoutFault::Plain(
                CactError::TensorCountTooSmall {
                    need: clamp_size(canon_len(g)),
                    got: c.records@.len() as usize,
                },
            ),
        )
    } else if extra_tensors(c) < 0 {
        Some(LayoutFault::Plain(CactError::BadHeadManifest { extra: usize::MAX }))
    } else {
        match head_count(extra_tensors(c)) {
            None => Some(
                LayoutFault::Plain(CactError::BadHeadManifest { extra: extra_tensors(c) as usize }),
            ),
            Some(n) => first_of(manifest_fault(c, n), shapes_fault(c, n)),
        }
    }
}

/// `l` is the layout of `c`.
pub open spec fn is_layout(l: CactLayout, c: Cact) -> bool {
    let g = c.geom@;
    let n = head_count(extra_tensors(c))->0;
    &&& l.embedding == 0
    &&& l.layers@.len() == g.num_layers
    &&& forall|k: int|
        0 <= k < l.layers@.len() ==> is_layer_idx(#[trigger] l.layers@[k], layer_base(k))
    &&& is_mhc_idx(l.mhc, mhc_base(g))
    &&& l.engrams@.len() == g.engram_sites.len()
    &&& forall|k: int|
        0 <= k < l.engrams@.len() ==> is_engram_idx(#[trigger] l.engrams@[k], engram_base(g, k))
    &&& l.final_norm == final_norm_pos(g)
    &&& l.head_manifest == if n == 0 {
        None::<usize>
    } else {
        Some(canon_len(g) as usize)
    }
    &&& l.heads@.len() == n
    &&& forall|k: int|
        0 <= k < l.heads@.len() ==> is_head_idx(#[trigger] l.heads@[k], head_base(g, k))
            && l.heads@[k].code == head_code(c, k)
    &&& l.tokenizer == if ends_with_raw(c) {
        Some((c.records@.len() - 1) as usize)
    } else {
        None::<usize>
    }
}

/// Compare the shape of a tensor with `n` predicted dimensions.
fn want(c: &Cact, i: usize, what: &'static str, n: usize, dims: [u128; 3]) -> (r: Result<
    (),
    CactError,
>)
    requires
        c.wf(),
        i < c.records@.len(),
        1 <= n <= 3,
    ensures
        ({
            let check = Check {
                index: i as int,
                what,
                dims: dims@.take(n as int).map_values(|x: u128| x as int),
            };
            match shape_fault(*c, check) {
                Some(f) => r is Err && reports(r->Err_0, f),
                None => r is Ok,
            }
        }),
{
    proof {
        c.lemma_blob_in_range(i as int);
        assert(crate::cact::is_record(c.records@[i as int], c.raw@, i as int));
    }
    let rec: Record = c.records[i];
    let ghost ideal = dims@.take(n as int).map_values(|x: u128| x as int);
    let ndim: usize = rec.ndim as usize;
    let mut want4: [usize; 4] = [0, 0, 0, 0];
    let mut got4: [usize; 4] = [0, 0, 0, 0];
    let mut same: bool = ndim == n;
    let mut k: usize = 0;
    while k < 4
        invariant
            k <= 4,
            1 <= n <= 3,
            ndim == rec.ndim,
            ndim <= 4,
            rec.shape@.len() == 4,
            ideal == dims@.take(n as int).map_values(|x: u128| x as int),
            forall|j: int| 0 <= j < k ==> #[trigger] want4@[j] == clamp_size(pad4(ideal)[j]),
            forall|j: int| 0 <= j < k ==> #[trigger] got4@[j] == shape_of(rec)[j],
            same == (ndim == n && forall|j: int|
                0 <= j < k ==> #[trigger] shape_of(rec)[j] == pad4(ideal)[j]),
        decreases 4 - k,
    {
        let w: u128 = if k < n {
            dims[k]
        } else {
            0
        };
        let s: usize = if k < ndim {
            rec.shape[k]
        } else {
            0
        };
        assert(pad4(ideal)[k as int] == w);
        assert(shape_of(rec)[k as int] == s);
        if w > usize::MAX as u128 {
            want4[k] = usize::MAX;
        } else {
            want4[k] = w as usize;
        }
        got4[k] = s;
        if s as u128 != w {
            same = false;
        }
        k = k + 1;
    }
    if same {
        assert(shape_of(rec) =~= pad4(ideal));
        Ok(())
    } else {
        proof {
            if ndim == n && shape_of(rec) == pad4(ideal) {
                assert(forall|j: int| 0 <= j < 4 ==> #[trigger] shape_of(rec)[j] == pad4(ideal)[j]);
            }
        }
        Err(CactError::ShapeMismatch { index: i, what, want: want4, got: got4 })
    }
}


/// A tensor and its predicted shape, as data.
struct Expected {
    index: usize,
    what: &'static str,
    n: usize,
    dims: [u128; 3],
}

impl Expected {
    spec fn check(self) -> Check {
        Check {
            index: self.index as int,
            what: self.what,
            dims: self.dims@.take(self.n as int).map_values(|x: u128| x as int),
        }
    }

    spec fn wf(self) -> bool {
        1 <= self.n <= 3
    }
}

fn dim1(index: usize, what: &'static str, a: u128) -> (e: Expected)
    ensures
        e.wf(),
        e.check() == (Check { index: index as int, what, dims: seq![a as int] }),
{
    let e = Expected { index, what, n: 1, dims: [a, 0, 0] };
    assert(e.check().dims =~= seq![a as int]);
    e
}

fn dim2(index: usize, what: &'static str, a: u128, b: u128) -> (e: Expected)
    ensures
        e.wf(),
        e.check() == (Check { index: index as int, what, dims: seq![a as int, b as int] }),
{
    let e = Expected { index, what, n: 2, dims: [a, b, 0] };
    assert(e.check().dims =~= seq![a as int, b as int]);
    e
}

fn dim3(index: usize, what: &'static str, a: u128, b: u128, c: u128) -> (e: Expected)
    ensures
        e.wf(),
        e.check() == (Check { index: index as int, what, dims: seq![a as int, b as int, c as int] }),
{
    let e = Expected { index, what, n: 3, dims: [a, b, c] };
    assert(e.check().dims =~= seq![a as int, b as int, c as int]);
    e
}

spec fn checks_of(list: Seq<Expected>) -> Seq<Check> {
    list.map_values(|e: Expected| e.check())
}

/// Report the first shape of a list that is not as predicted.
fn run_checks(c: &Cact, list: &Vec<Expected>) -> (r: Result<(), CactError>)
    requires
        c.wf(),
        forall|k: int|
            0 <= k < list@.len() ==> (#[trigger] list@[k]).wf() && list@[k].index
                < c.records@.len(),
    ensures
        match first_fault(*c, checks_of(list@), 0) {
            Some(f) => r is Err && reports(r->Err_0, f),
            None => r is Ok,
        },
{
    let mut k: usize = 0;
    while k < list.len()
        invariant
            k <= list@.len(),
            c.wf(),
            forall|j: int|
                0 <= j < list@.len() ==> (#[trigger] list@[j]).wf() && list@[j].index
                    < c.records@.len(),
            first_fault(*c, checks_of(list@), 0) == first_fault(*c, checks_of(list@), k as int),
        decreases list@.len() - k,
    {
        assert(checks_of(list@)[k as int] == list@[k as int].check());
        match want(c, list[k].index, list[k].what, list[k].n, list[k].dims) {
            Ok(_) => {},
            Err(e) => {
                return Err(e);
            },
        }
        k = k + 1;
    }
    Ok(())
}

/// Header fields are 32-bit.
spec fn is_small(g: GeomModel) -> bool {
    &&& 0 <= g.vocab_size <= u32::MAX
    &&& 0 <= g.d_model <= u32::MAX
    &&& 0 <= g.num_heads <= u32::MAX
    &&& 0 <= g.num_kv_heads <= u32::MAX
    &&& 0 <= g.num_layers <= u32::MAX
    &&& 0 <= g.head_dim <= u32::MAX
    &&& 0 <= g.hada_n <= u32::MAX
    &&& 0 <= g.mhc_lanes <= u32::MAX
    &&& 0 <= g.engram_slots <= u32::MAX
    &&& 0 <= g.engram_sub_dim <= u32::MAX
    &&& 0 <= g.num_engram_tables <= u32::MAX
    &&& 0 <= g.engram_conv_taps <= u32::MAX
    &&& g.engram_sites.len() <= 4
}

proof fn lemma_small(c: Cact)
    requires
        c.wf(),
    ensures
        is_small(c.geom@),
{
}

fn times(a: usize, b: usize) -> (p: u128)
    requires
        a <= u32::MAX,
        b <= u32::MAX,
    ensures
        p == a * b,
        p <= u32::MAX * u32::MAX,
{
    assert(a * b <= u32::MAX * u32::MAX) by (nonlinear_arith)
        requires
            0 <= a <= u32::MAX,
            0 <= b <= u32::MAX,
    ;
    a as u128 * b as u128
}

fn layer_list(g: &CactGeometry, i: usize) -> (list: Vec<Expected>)
    requires
        is_small(g@),
        i + 14 <= usize::MAX,
    ensures
        checks_of(list@) == layer_checks(g@, i as int),
        forall|k: int|
            0 <= k < list@.len() ==> (#[trigger] list@[k]).wf() && list@[k].index < i + 14,
{
    let d: u128 = g.d_model as u128;
    let hd: u128 = g.head_dim as u128;
    let h: u128 = g.hada_n as u128;
    let attn: u128 = times(g.num_heads, g.head_dim);
    let kv: u128 = times(g.num_kv_heads, g.head_dim);
    let mut list: Vec<Expected> = Vec::new();
    list.push(dim1(i, "norm_in", d));
    list.push(dim2(i + 1, "q_proj", attn, d));
    list.push(dim2(i + 2, "k_proj", kv, d));
    list.push(dim2(i + 3, "v_proj", kv, d));
    list.push(dim1(i + 4, "q_norm", hd));
    list.push(dim1(i + 5, "k_norm", hd));
    list.push(dim2(i + 6, "gate_proj", attn, d));
    list.push(dim2(i + 7, "out_proj", d, attn));
    list.push(dim1(i + 8, "post_norm", d));
    list.push(dim1(i + 9, "attn_gate", 1));
    list.push(dim1(i + 10, "pre_hada", d));
    list.push(dim1(i + 11, "d1", h));
    list.push(dim1(i + 12, "d2", h));
    list.push(dim1(i + 13, "d3", h));
    assert(checks_of(list@) =~= layer_checks(g@, i as int));
    list
}

fn mhc_list(g: &CactGeometry, i: usize) -> (list: Vec<Expected>)
    requires
        is_small(g@),
        i + 9 <= usize::MAX,
    ensures
        checks_of(list@) == mhc_checks(g@, i as int),
        forall|k: int|
            0 <= k < list@.len() ==> (#[trigger] list@[k]).wf() && list@[k].index < i + 9,
{
    let l: u128 = g.num_layers as u128;
    let n: u128 = g.mhc_lanes as u128;
    let ln: u128 = times(g.num_layers, g.mhc_lanes);
    let w: u128 = times(g.mhc_lanes, g.d_model);
    assert(ln * n <= u32::MAX * u32::MAX * u32::MAX) by (nonlinear_arith)
        requires
            0 <= ln <= u32::MAX * u32::MAX,
            0 <= n <= u32::MAX,
    ;
    let lnn: u128 = ln * n;
    let mut list: Vec<Expected> = Vec::new();
    list.push(dim1(i, "mhc_a_pre", l));
    list.push(dim1(i + 1, "mhc_a_post", l));
    list.push(dim1(i + 2, "mhc_a_res", l));
    list.push(dim2(i + 3, "mhc_b_pre", l, n));
    list.push(dim2(i + 4, "mhc_b_post", l, n));
    list.push(dim3(i + 5, "mhc_b_res", l, n, n));
    list.push(dim2(i + 6, "mhc_phi_pre", ln, w));
    list.push(dim2(i + 7, "mhc_phi_post", ln, w));
    list.push(dim2(i + 8, "mhc_phi_res", lnn, w));
    assert(checks_of(list@) =~= mhc_checks(g@, i as int));
    list
}

fn engram_list(g: &CactGeometry, i: usize) -> (list: Vec<Expected>)
    requires
        is_small(g@),
        i + 4 <= usize::MAX,
    ensures
        checks_of(list@) == engram_checks(g@, i as int),
        forall|k: int|
            0 <= k < list@.len() ==> (#[trigger] list@[k]).wf() && list@[k].index < i + 4,
{
    let d: u128 = g.d_model as u128;
    let e: u128 = times(g.num_engram_tables, g.engram_sub_dim);
    let mut list: Vec<Expected> = Vec::new();
    list.push(
        dim2(
            i,
            "engram tables",
            times(g.num_engram_tables, g.engram_slots),
            g.engram_sub_dim as u128,
        ),
    );
    list.push(dim2(i + 1, "engram key_proj", d, e));
    list.push(dim2(i + 2, "engram value_proj", d, e));
    list.push(dim2(i + 3, "engram taps", g.engram_conv_taps as u128, d));
    assert(checks_of(list@) =~= engram_checks(g@, i as int));
    list
}

fn head_list(g: &CactGeometry, i: usize, probes: usize, out: usize) -> (list: Vec<Expected>)
    requires
        is_small(g@),
        i + 3 <= usize::MAX,
        probes <= u32::MAX,
    ensures
        checks_of(list@) == seq![
            Check { index: i as int, what: "head probes", dims: seq![probes as int, g@.d_model] },
            Check {
                index: i + 1,
                what: "head proj",
                dims: seq![out as int, probes * g@.d_model],
            },
            Check { index: i + 2, what: "head bias", dims: seq![out as int] },
        ],
        forall|k: int|
            0 <= k < list@.len() ==> (#[trigger] list@[k]).wf() && list@[k].index < i + 3,
{
    let mut list: Vec<Expected> = Vec::new();
    list.push(dim2(i, "head probes", probes as u128, g.d_model as u128));
    list.push(dim2(i + 1, "head proj", out as u128, times(probes, g.d_model)));
    list.push(dim1(i + 2, "head bias", out as u128));
    assert(checks_of(list@) =~= seq![
        Check { index: i as int, what: "head probes", dims: seq![probes as int, g@.d_model] },
        Check { index: i + 1, what: "head proj", dims: seq![out as int, probes * g@.d_model] },
        Check { index: i + 2, what: "head bias", dims: seq![out as int] },
    ]);
    list
}

impl CactLayout {
    /// Report the first tensor whose shape the geometry does not predict.
    ///
    /// Tensors have no names, so this is what keeps one from being read as
    /// another.
    fn check_shapes(&self, c: &Cact) -> (r: Result<(), CactError>)
        requires
            c.wf(),
            c.records@.len() >= canon_len(c.geom@),
            extra_tensors(*c) >= 0,
            head_count(extra_tensors(*c)) is Some,
            is_layout(*self, *c),
        ensures
            match shapes_fault(*c, self.heads@.len() as int) {
                Some(f) => r is Err && reports(r->Err_0, f),
                None => r is Ok,
            },
    {
        let g = &c.geom;
        let total: usize = c.records.len();
        let ghost gm = g@;
        proof {
            lemma_small(*c);
        }
        match want(
            c,
            self.embedding,
            "embedding",
            2,
            [g.vocab_size as u128, g.d_model as u128, 0],
        ) {
            Ok(_) => {},
            Err(e) => {
                assert(seq![gm.vocab_size, gm.d_model] =~= [
                    g.vocab_size as u128,
                    g.d_model as u128,
                    0u128,
                ]@.take(2).map_values(|x: u128| x as int));
                return Err(e);
            },
        }
        assert(seq![gm.vocab_size, gm.d_model] =~= [
            g.vocab_size as u128,
            g.d_model as u128,
            0u128,
        ]@.take(2).map_values(|x: u128| x as int));
        match self.check_layers(c) {
            Ok(_) => {},
            Err(e) => {
                return Err(e);
            },
        }
        match run_checks(c, &mhc_list(g, self.mhc.a_pre)) {
            Ok(_) => {},
            Err(e) => {
                return Err(e);
            },
        }
        match self.check_engrams(c) {
            Ok(_) => {},
            Err(e) => {
                return Err(e);
            },
        }
        let ghost d1 = [g.d_model as u128, 0u128, 0u128]@.take(1).map_values(|x: u128| x as int);
        assert(d1 =~= seq![gm.d_model]);
        match want(c, self.final_norm, "final_norm", 1, [g.d_model as u128, 0, 0]) {
            Ok(_) => {},
            Err(e) => {
                return Err(e);
            },
        }
        self.check_heads(c)
    }

    fn check_layers(&self, c: &Cact) -> (r: Result<(), CactError>)
        requires
            c.wf(),
            c.records@.len() >= canon_len(c.geom@),
            is_layout(*self, *c),
        ensures
            match layers_fault(*c, 0) {
                Some(f) => r is Err && reports(r->Err_0, f),
                None => r is Ok,
            },
    {
        proof {
            lemma_small(*c);
        }
        let total: usize = c.records.len();
        let mut k: usize = 0;
        while k < self.layers.len()
            invariant
                k <= self.layers@.len(),
                c.wf(),
                is_small(c.geom@),
                total == c.records@.len(),
                c.records@.len() >= canon_len(c.geom@),
                is_layout(*self, *c),
                layers_fault(*c, 0) == layers_fault(*c, k as int),
            decreases self.layers@.len() - k,
        {
            assert(is_layer_idx(self.layers@[k as int], layer_base(k as int)));
            let base: usize = self.layers[k].norm_in;
            match run_checks(c, &layer_list(&c.geom, base)) {
                Ok(_) => {},
                Err(e) => {
                    return Err(e);
                },
            }
            k = k + 1;
        }
        Ok(())
    }

    fn check_engrams(&self, c: &Cact) -> (r: Result<(), CactError>)
        requires
            c.wf(),
            c.records@.len() >= canon_len(c.geom@),
            is_layout(*self, *c),
        ensures
            match engrams_fault(*c, 0) {
                Some(f) => r is Err && reports(r->Err_0, f),
                None => r is Ok,
            },
    {
        proof {
            lemma_small(*c);
        }
        let total: usize = c.records.len();
        let mut k: usize = 0;
        while k < self.engrams.len()
            invariant
                k <= self.engrams@.len(),
                c.wf(),
                is_small(c.geom@),
                total == c.records@.len(),
                c.records@.len() >= canon_len(c.geom@),
                is_layout(*self, *c),
                engrams_fault(*c, 0) == engrams_fault(*c, k as int),
            decreases self.engrams@.len() - k,
        {
            assert(is_engram_idx(self.engrams@[k as int], engram_base(c.geom@, k as int)));
            let base: usize = self.engrams[k].tables;
            match run_checks(c, &engram_list(&c.geom, base)) {
                Ok(_) => {},
                Err(e) => {
                    return Err(e);
                },
            }
            k = k + 1;
        }
        Ok(())
    }

    fn check_heads(&self, c: &Cact) -> (r: Result<(), CactError>)
        requires
            c.wf(),
            c.records@.len() >= canon_len(c.geom@),
            extra_tensors(*c) >= 0,
            head_count(extra_tensors(*c)) is Some,
            is_layout(*self, *c),
        ensures
            match heads_fault(*c, 0, self.heads@.len() as int) {
                Some(f) => r is Err && reports(r->Err_0, f),
                None => r is Ok,
            },
    {
        proof {
            lemma_small(*c);
        }
        let total: usize = c.records.len();
        let ghost n = self.heads@.len() as int;
        let mut k: usize = 0;
        while k < self.heads.len()
            invariant
                k <= self.heads@.len(),
                c.wf(),
                is_small(c.geom@),
                total == c.records@.len(),
                n == self.heads@.len(),
                c.records@.len() >= canon_len(c.geom@),
                extra_tensors(*c) >= 0,
                head_count(extra_tensors(*c)) is Some,
                is_layout(*self, *c),
                heads_fault(*c, 0, n) == heads_fault(*c, k as int, n),
            decreases self.heads@.len() - k,
        {
            assert(is_head_idx(self.heads@[k as int], head_base(c.geom@, k as int)));
            let base: usize = self.heads[k].probes;
            assert(base + 3 <= total);
            proof {
                assert(crate::cact::is_record(c.records@[base as int], c.raw@, base as int));
                assert(crate::cact::is_record(c.records@[base + 1], c.raw@, base + 1));
            }
            let probes: usize = c.records[base].shape[0];
            let out: usize = c.records[base + 1].shape[0];
            if probes == 0 {
                return Err(
                    CactError::ShapeMismatch {
                        index: base,
                        what: "head probes",
                        want: [1, c.geom.d_model, 0, 0],
                        got: [0, 0, 0, 0],
                    },
                );
            }
            match run_checks(c, &head_list(&c.geom, base, probes, out)) {
                Ok(_) => {},
                Err(e) => {
                    return Err(e);
                },
            }
            k = k + 1;
        }
        Ok(())
    }

    /// Resolve every tensor index and check the shapes against the geometry.
    pub fn derive(c: &Cact) -> (r: Result<CactLayout, CactError>)
        requires
            c.wf(),
        ensures
            match layout_fault(*c) {
                Some(f) => r is Err && reports(r->Err_0, f),
                None => r is Ok && is_layout(r->Ok_0, *c),
            },
    {
        let g = &c.geom;
        proof {
            lemma_small(*c);
        }
        let n: usize = c.num_tensors();
        let n_sites: usize = g.engram_sites.len();
        let through: u128 = 1 + g.num_layers as u128 * 14 + 9 + n_sites as u128 * 4 + 1;
        if (n as u128) < through {
            let need: usize = if through > usize::MAX as u128 {
                usize::MAX
            } else {
                through as usize
            };
            return Err(CactError::TensorCountTooSmall { need, got: n });
        }
        let canon: usize = through as usize;
        let has_tokenizer: bool = c.records[n - 1].dtype == DT_RAW;
        let tokenizer: Option<usize> = if has_tokenizer {
            Some(n - 1)
        } else {
            None
        };
        let tail: usize = if has_tokenizer {
            1
        } else {
            0
        };
        if n - canon < tail {
            return Err(CactError::BadHeadManifest { extra: usize::MAX });
        }
        let extra: usize = n - canon - tail;
        let n_heads: usize = if extra == 0 {
            0
        } else if extra >= 4 && (extra - 1) % 3 == 0 {
            (extra - 1) / 3
        } else {
            return Err(CactError::BadHeadManifest { extra });
        };
        let (head_manifest, heads) = if n_heads == 0 {
            (None, Vec::new())
        } else {
            match read_heads(c, canon, n_heads, extra) {
                Ok(h) => (Some(canon), h),
                Err(e) => {
                    return Err(e);
                },
            }
        };
        let mut layers: Vec<LayerIdx> = Vec::new();
        let mut i: usize = 1;
        while layers.len() < g.num_layers
            invariant
                layers@.len() <= c.geom.num_layers,
                i == layer_base(layers@.len() as int),
                canon == canon_len(c.geom@),
                g == c.geom,
                forall|k: int|
                    0 <= k < layers@.len() ==> is_layer_idx(#[trigger] layers@[k], layer_base(k)),
            decreases c.geom.num_layers - layers@.len(),
        {
            layers.push(
                LayerIdx {
                    norm_in: i,
                    q_proj: i + 1,
                    k_proj: i + 2,
                    v_proj: i + 3,
                    q_norm: i + 4,
                    k_norm: i + 5,
                    gate_proj: i + 6,
                    out_proj: i + 7,
                    post_norm: i + 8,
                    attn_gate: i + 9,
                    pre_hada: i + 10,
                    d1: i + 11,
                    d2: i + 12,
                    d3: i + 13,
                },
            );
            i = i + TENSORS_PER_LAYER;
        }
        let mhc = MhcIdx {
            a_pre: i,
            a_post: i + 1,
            a_res: i + 2,
            b_pre: i + 3,
            b_post: i + 4,
            b_res: i + 5,
            phi_pre: i + 6,
            phi_post: i + 7,
            phi_res: i + 8,
        };
        i = i + MHC_TENSORS;
        let mut engrams: Vec<EngramIdx> = Vec::new();
        while engrams.len() < n_sites
            invariant
                engrams@.len() <= n_sites,
                n_sites == c.geom@.engram_sites.len(),
                i == engram_base(c.geom@, engrams@.len() as int),
                canon == canon_len(c.geom@),
                forall|k: int|
                    0 <= k < engrams@.len() ==> is_engram_idx(
                        #[trigger] engrams@[k],
                        engram_base(c.geom@, k),
                    ),
            decreases n_sites - engrams@.len(),
        {
            engrams.push(
                EngramIdx { tables: i, key_proj: i + 1, value_proj: i + 2, taps: i + 3 },
            );
            i = i + TENSORS_PER_ENGRAM_SITE;
        }
        let layout = CactLayout {
            embedding: 0,
            layers,
            mhc,
            engrams,
            final_norm: i,
            head_manifest,
            heads,
            tokenizer,
        };
        match layout.check_shapes(c) {
            Ok(_) => Ok(layout),
            Err(e) => Err(e),
        }
    }

    /// The engram site of a layer, if it carries one: the first that names it.
    pub fn engram_site_of_layer(geom: &CactGeometry, layer: usize) -> (r: Option<usize>)
        ensures
            match r {
                Some(k) => k < geom.engram_sites@.len() && geom.engram_sites@[k as int] == layer
                    && forall|j: int| 0 <= j < k ==> geom.engram_sites@[j] != layer,
                None => forall|j: int|
                    0 <= j < geom.engram_sites@.len() ==> geom.engram_sites@[j] != layer,
            },
    {
        crate::config::position_of(&geom.engram_sites, layer)
    }

    /// The first head with this code.
    pub fn head(&self, code: u8) -> (r: Option<&HeadIdx>)
        ensures
            match r {
                Some(h) => exists|k: int|
                    0 <= k < self.heads@.len() && self.heads@[k] == *h && h.code == code && forall|
                        j: int,
                    |
                        0 <= j < k ==> (#[trigger] self.heads@[j]).code != code,
                None => forall|j: int|
                    0 <= j < self.heads@.len() ==> (#[trigger] self.heads@[j]).code != code,
            },
    {
        let mut k: usize = 0;
        while k < self.heads.len()
            invariant
                k <= self.heads@.len(),
                forall|j: int| 0 <= j < k ==> (#[trigger] self.heads@[j]).code != code,
            decreases self.heads@.len() - k,
        {
            if self.heads[k].code == code {
                return Some(&self.heads[k]);
            }
            k = k + 1;
        }
        None
    }
}

/// Read the head manifest at `canon` and list the heads behind it.
fn read_heads(c: &Cact, canon: usize, n_heads: usize, extra: usize) -> (r: Result<
    Vec<HeadIdx>,
    CactError,
>)
    requires
        c.wf(),
        canon == canon_len(c.geom@),
        extra == extra_tensors(*c),
        n_heads > 0,
        head_count(extra as int) == Some(n_heads as int),
    ensures
        match manifest_fault(*c, n_heads as int) {
            Some(f) => r is Err && reports(r->Err_0, f),
            None => r is Ok && r->Ok_0@.len() == n_heads && forall|k: int|
                0 <= k < n_heads ==> is_head_idx(#[trigger] r->Ok_0@[k], head_base(c.geom@, k))
                    && r->Ok_0@[k].code == head_code(*c, k),
        },
{
    let total: usize = c.records.len();
    let codes = match c.floats(canon) {
        Ok(v) => v,
        Err(e) => {
            return Err(e);
        },
    };
    if codes.len() != n_heads {
        return Err(CactError::BadHeadManifest { extra });
    }
    let mut heads: Vec<HeadIdx> = Vec::new();
    let mut i: usize = canon + 1;
    let mut k: usize = 0;
    while k < n_heads
        invariant
            k <= n_heads,
            c.wf(),
            codes@ == manifest(*c),
            codes@.len() == n_heads,
            total == c.records@.len(),
            canon == canon_len(c.geom@),
            canon + 1 + 3 * n_heads <= total,
            i == head_base(c.geom@, k as int),
            codes_fault(*c, 0, n_heads as int) == codes_fault(*c, k as int, n_heads as int),
            manifest_fault(*c, n_heads as int) == codes_fault(*c, 0, n_heads as int),
            heads@.len() == k,
            forall|j: int|
                0 <= j < k ==> is_head_idx(#[trigger] heads@[j], head_base(c.geom@, j))
                    && heads@[j].code == head_code(*c, j),
        decreases n_heads - k,
    {
        let code: u8 = f32_to_u8(codes[k]);
        if code != HEAD_CONTRASTIVE && code != HEAD_CONFIDENCE {
            return Err(CactError::UnknownHeadCode(code));
        }
        heads.push(HeadIdx { code, probes: i, proj: i + 1, bias: i + 2 });
        i = i + 3;
        k = k + 1;
    }
    Ok(heads)
}

impl Cact {
    /// Resolve every tensor index and check the shapes against the geometry.
    pub fn layout(&self) -> (r: Result<CactLayout, CactError>)
        requires
            self.wf(),
        ensures
            match layout_fault(*self) {
                Some(f) => r is Err && reports(r->Err_0, f),
                None => r is Ok && is_layout(r->Ok_0, *self),
            },
    {
        CactLayout::derive(self)
    }
}

/// A layout gives every tensor exactly one place: the canon, the manifest with
/// its heads, and the tokenizer fill the directory without gap or overlap.
pub proof fn law_layout_covers_the_directory(l: CactLayout, c: Cact)
    requires
        c.wf(),
        layout_fault(c) is None,
        is_layout(l, c),
    ensures
        c.records@.len() == canon_len(c.geom@) + (if l.heads@.len() == 0 {
            0
        } else {
            1 + 3 * l.heads@.len()
        }) + (if l.tokenizer is Some {
            1int
        } else {
            0int
        }),
        l.head_manifest is Some <==> l.heads@.len() > 0,
        forall|k: int|
            0 <= k < l.layers@.len() ==> 0 < (#[trigger] l.layers@[k]).norm_in && l.layers@[k].d3
                < l.mhc.a_pre,
        forall|j: int, k: int|
            0 <= j < k < l.layers@.len() ==> (#[trigger] l.layers@[j]).d3 < (
            #[trigger] l.layers@[k]).norm_in,
        l.mhc.phi_res < l.final_norm,
        forall|k: int|
            0 <= k < l.engrams@.len() ==> l.mhc.phi_res < (#[trigger] l.engrams@[k]).tables
                && l.engrams@[k].taps < l.final_norm,
        forall|k: int|
            0 <= k < l.heads@.len() ==> l.final_norm < (#[trigger] l.heads@[k]).probes
                && l.heads@[k].bias < c.records@.len(),
        l.tokenizer matches Some(t) ==> t == c.records@.len() - 1 && forall|k: int|
            0 <= k < l.heads@.len() ==> (#[trigger] l.heads@[k]).bias < t,
{
    let g = c.geom@;
    assert forall|k: int| 0 <= k < l.layers@.len() implies 0 < (#[trigger] l.layers@[k]).norm_in
        && l.layers@[k].d3 < l.mhc.a_pre by {
        assert(is_layer_idx(l.layers@[k], layer_base(k)));
    }
    assert forall|j: int, k: int| 0 <= j < k < l.layers@.len() implies (
    #[trigger] l.layers@[j]).d3 < (#[trigger] l.layers@[k]).norm_in by {
        assert(is_layer_idx(l.layers@[j], layer_base(j)));
        assert(is_layer_idx(l.layers@[k], layer_base(k)));
    }
    assert forall|k: int| 0 <= k < l.engrams@.len() implies l.mhc.phi_res < (
    #[trigger] l.engrams@[k]).tables && l.engrams@[k].taps < l.final_norm by {
        assert(is_engram_idx(l.engrams@[k], engram_base(g, k)));
    }
    assert forall|k: int| 0 <= k < l.heads@.len() implies l.final_norm < (
    #[trigger] l.heads@[k]).probes && l.heads@[k].bias < c.records@.len() by {
        assert(is_head_idx(l.heads@[k], head_base(g, k)));
    }
    if l.tokenizer is Some {
        assert forall|k: int| 0 <= k < l.heads@.len() implies (#[trigger] l.heads@[k]).bias
            < c.records@.len() - 1 by {
            assert(is_head_idx(l.heads@[k], head_base(g, k)));
        }
    }
}

/// Behind the tensors that every container has, and before the tokenizer, stand none or
/// a manifest and three for every head.
pub proof fn law_heads_take_three_tensors_each(extra: int, heads: int)
    ensures
        heads > 0 ==> head_count(1 + 3 * heads) == Some(heads),
        head_count(0) == Some(0int),
        extra != 0 && (extra < 4 || extra % 3 != 1) ==> head_count(extra) is None,
{
}

} // verus!
