//! Loading: from the bytes of a container to a model with its tokenizer and
//! heads.

use crate::cact::{cact_fault, cq_tensor_fault, floats_fault, floats_of, Cact, CactError, CactGeometry, HEAD_CONFIDENCE, HEAD_CONTRASTIVE};
use crate::loading::is_loadable;
use crate::cact_layout::{canon_len, ends_with_raw, engram_base, extra_tensors, final_norm_pos, head_base, head_code, head_count, is_engram_idx, is_head_idx, is_layer_idx, is_layout, is_mhc_idx, layer_base, layout_fault, mhc_base, reports, CactLayout, EngramIdx, HeadIdx, LayerIdx, MhcIdx};
use crate::config::{EngramGeometry, V2Config};
use crate::cq::CqWeight;
use crate::heads::{head_shape_fault, head_sizes_fault, ProbeHeadWeights};
use crate::model::{model_fault, layer_weights_wf, site_weights_wf, weights_wf, V2Engram, V2Layer, V2Mhc, V2Model};
use crate::sp_tokenizer::{parse_blob, SpTokenizer, TokenizerError};
use vstd::prelude::*;

verus! {

/// A probe head.
pub type ProbeHead = ProbeHeadWeights;

/// Everything that a container yields.
pub struct V2Bundle {
    pub model: V2Model,
    /// The embedded tokenizer, where there is one.
    pub tokenizer: Option<SpTokenizer>,
    pub heads: Vec<ProbeHead>,
}

/// Why a container could not be loaded.
#[derive(Debug, Clone, PartialEq)]
pub enum V2LoadError {
    Cact(CactError),
    Tokenizer(TokenizerError),
    /// The parts do not fit together.
    Model(&'static str),
}

impl From<CactError> for V2LoadError {
    fn from(e: CactError) -> (r: V2LoadError) {
        V2LoadError::Cact(e)
    }
}

impl vstd::std_specs::convert::FromSpecImpl<CactError> for V2LoadError {
    open spec fn obeys_from_spec() -> bool {
        true
    }

    open spec fn from_spec(e: CactError) -> V2LoadError {
        V2LoadError::Cact(e)
    }
}

impl From<TokenizerError> for V2LoadError {
    fn from(e: TokenizerError) -> (r: V2LoadError) {
        V2LoadError::Tokenizer(e)
    }
}

impl vstd::std_specs::convert::FromSpecImpl<TokenizerError> for V2LoadError {
    open spec fn obeys_from_spec() -> bool {
        true
    }

    open spec fn from_spec(e: TokenizerError) -> V2LoadError {
        V2LoadError::Tokenizer(e)
    }
}

/// `cfg` is the configuration that the header gives.
pub open spec fn is_config_of(cfg: V2Config, g: CactGeometry) -> bool {
    &&& cfg.vocab_size == g.vocab_size
    &&& cfg.d_model == g.d_model
    &&& cfg.num_heads == g.num_heads
    &&& cfg.num_kv_heads == g.num_kv_heads
    &&& cfg.num_layers == g.num_layers
    &&& cfg.head_dim == g.head_dim
    &&& cfg.max_seq_len == g.max_seq_len
    &&& cfg.hada_n == g.hada_n
    &&& cfg.mhc_lanes == g.mhc_lanes
    &&& cfg.rope_theta == g.rope_theta
    &&& cfg.kv_window == g.kv_window
    &&& cfg.engram.slots == g.engram_slots
    &&& cfg.engram.sub_dim == g.engram_sub_dim
    &&& cfg.engram.num_tables == g.num_engram_tables
    &&& cfg.engram.conv_taps == g.engram_conv_taps
    &&& cfg.engram.conv_dilation == g.engram_conv_dilation
    &&& cfg.engram.orders@ == g.engram_orders@
    &&& cfg.engram.sites@ == g.engram_sites@
}

fn copy_sizes(s: &Vec<usize>) -> (v: Vec<usize>)
    ensures
        v@ == s@,
{
    let mut v: Vec<usize> = Vec::new();
    let mut i: usize = 0;
    while i < s.len()
        invariant
            i <= s@.len(),
            v@ == s@.take(i as int),
        decreases s@.len() - i,
    {
        v.push(s[i]);
        i = i + 1;
        assert(v@ =~= s@.take(i as int));
    }
    assert(s@.take(s@.len() as int) =~= s@);
    v
}

/// The configuration that a container's header gives.
pub fn config_from_geometry(g: &CactGeometry) -> (cfg: V2Config)
    ensures
        is_config_of(cfg, *g),
{
    V2Config {
        vocab_size: g.vocab_size,
        d_model: g.d_model,
        num_heads: g.num_heads,
        num_kv_heads: g.num_kv_heads,
        num_layers: g.num_layers,
        head_dim: g.head_dim,
        max_seq_len: g.max_seq_len,
        hada_n: g.hada_n,
        mhc_lanes: g.mhc_lanes,
        rope_theta: g.rope_theta,
        kv_window: g.kv_window,
        engram: EngramGeometry {
            slots: g.engram_slots,
            sub_dim: g.engram_sub_dim,
            num_tables: g.num_engram_tables,
            conv_taps: g.engram_conv_taps,
            conv_dilation: g.engram_conv_dilation,
            orders: copy_sizes(&g.engram_orders),
            sites: copy_sizes(&g.engram_sites),
        },
    }
}

/// A tensor that is read, and as what.
pub enum Read {
    Floats(int),
    Cq(int),
}

/// Why a tensor cannot be read, if it cannot.
pub open spec fn read_fault(c: Cact, r: Read) -> Option<CactError> {
    match r {
        Read::Floats(i) => floats_fault(c.records@[i], i),
        Read::Cq(i) => cq_tensor_fault(c.records@[i], i, c.codebook@),
    }
}

/// The first fault among the reads from `k` on.
pub open spec fn reads_fault(c: Cact, reads: Seq<Read>, k: int) -> Option<CactError>
    decreases reads.len() - k,
{
    if k < 0 || k >= reads.len() {
        None
    } else if read_fault(c, reads[k]) is Some {
        read_fault(c, reads[k])
    } else {
        reads_fault(c, reads, k + 1)
    }
}

/// The floats of tensor `i`, as float bits.
pub open spec fn floats_at(c: Cact, i: int) -> Seq<u32> {
    floats_of(c.records@[i].dtype, c.blob_of(i))
}

/// `w` is the quantised tensor `i`.
pub open spec fn is_cq_at(c: Cact, w: CqWeight, i: int) -> bool {
    &&& w.wf()
    &&& w.is_from(c.blob_of(i), c.codebook@)
    &&& c.is_cq_shape(w, i)
}

/// The reads of the layer that starts at `i`, in order.
pub open spec fn layer_reads(i: int) -> Seq<Read> {
    seq![
        Read::Floats(i),
        Read::Cq(i + 1),
        Read::Cq(i + 2),
        Read::Cq(i + 3),
        Read::Cq(i + 6),
        Read::Cq(i + 7),
        Read::Floats(i + 4),
        Read::Floats(i + 5),
        Read::Floats(i + 8),
        Read::Floats(i + 9),
        Read::Floats(i + 10),
        Read::Floats(i + 11),
        Read::Floats(i + 12),
        Read::Floats(i + 13),
    ]
}

/// `l` holds the layer that starts at `i`.
pub open spec fn is_layer(l: V2Layer, c: Cact, i: int) -> bool {
    &&& l.norm_in@ == floats_at(c, i)
    &&& is_cq_at(c, l.q_proj, i + 1)
    &&& is_cq_at(c, l.k_proj, i + 2)
    &&& is_cq_at(c, l.v_proj, i + 3)
    &&& l.q_norm@ == floats_at(c, i + 4)
    &&& l.k_norm@ == floats_at(c, i + 5)
    &&& is_cq_at(c, l.gate_proj, i + 6)
    &&& is_cq_at(c, l.out_proj, i + 7)
    &&& l.post_norm@ == floats_at(c, i + 8)
    &&& l.attn_gate == floats_at(c, i + 9)[0]
    &&& l.pre_hada@ == floats_at(c, i + 10)
    &&& l.d1@ == floats_at(c, i + 11)
    &&& l.d2@ == floats_at(c, i + 12)
    &&& l.d3@ == floats_at(c, i + 13)
}

/// The reads of the lane router that starts at `i`, in order.
pub open spec fn mhc_reads(i: int) -> Seq<Read> {
    seq![
        Read::Floats(i),
        Read::Floats(i + 1),
        Read::Floats(i + 2),
        Read::Floats(i + 3),
        Read::Floats(i + 4),
        Read::Floats(i + 5),
        Read::Cq(i + 6),
        Read::Cq(i + 7),
        Read::Cq(i + 8),
    ]
}

/// `m` holds the lane router that starts at `i`.
pub open spec fn is_mhc(m: V2Mhc, c: Cact, i: int) -> bool {
    &&& m.a_pre@ == floats_at(c, i)
    &&& m.a_post@ == floats_at(c, i + 1)
    &&& m.a_res@ == floats_at(c, i + 2)
    &&& m.b_pre@ == floats_at(c, i + 3)
    &&& m.b_post@ == floats_at(c, i + 4)
    &&& m.b_res@ == floats_at(c, i + 5)
    &&& is_cq_at(c, m.phi_pre, i + 6)
    &&& is_cq_at(c, m.phi_post, i + 7)
    &&& is_cq_at(c, m.phi_res, i + 8)
}

/// The reads of the memory site that starts at `i`, in order.
pub open spec fn engram_reads(i: int) -> Seq<Read> {
    seq![Read::Cq(i), Read::Cq(i + 1), Read::Cq(i + 2), Read::Floats(i + 3)]
}

/// `e` holds the memory site that starts at `i`.
pub open spec fn is_engram(e: V2Engram, c: Cact, i: int) -> bool {
    &&& is_cq_at(c, e.tables, i)
    &&& is_cq_at(c, e.key_proj, i + 1)
    &&& is_cq_at(c, e.value_proj, i + 2)
    &&& e.taps@ == floats_at(c, i + 3)
}

/// The first fault among the layers from `k` on.
pub open spec fn layers_read_fault(c: Cact, k: int) -> Option<CactError>
    decreases c.geom@.num_layers - k,
{
    if k >= c.geom@.num_layers {
        None
    } else if reads_fault(c, layer_reads(layer_base(k)), 0) is Some {
        reads_fault(c, layer_reads(layer_base(k)), 0)
    } else {
        layers_read_fault(c, k + 1)
    }
}

/// The first fault among the memory sites from `k` on.
pub open spec fn engrams_read_fault(c: Cact, k: int) -> Option<CactError>
    decreases c.geom@.engram_sites.len() - k,
{
    if k >= c.geom@.engram_sites.len() {
        None
    } else if reads_fault(c, engram_reads(engram_base(c.geom@, k)), 0) is Some {
        reads_fault(c, engram_reads(engram_base(c.geom@, k)), 0)
    } else {
        engrams_read_fault(c, k + 1)
    }
}

/// The first fault among the tensors that every container has, in the order in
/// which they are read.
pub open spec fn canon_fault(c: Cact) -> Option<CactError> {
    let g = c.geom@;
    if read_fault(c, Read::Cq(0)) is Some {
        read_fault(c, Read::Cq(0))
    } else if layers_read_fault(c, 0) is Some {
        layers_read_fault(c, 0)
    } else if reads_fault(c, mhc_reads(mhc_base(g)), 0) is Some {
        reads_fault(c, mhc_reads(mhc_base(g)), 0)
    } else if engrams_read_fault(c, 0) is Some {
        engrams_read_fault(c, 0)
    } else {
        read_fault(c, Read::Floats(final_norm_pos(g)))
    }
}

/// `h` holds the head that starts at `i`.
pub open spec fn is_head(h: ProbeHead, c: Cact, i: int) -> bool {
    &&& h.probes@ == floats_at(c, i)
    &&& h.proj@ == floats_at(c, i + 1)
    &&& h.bias@ == floats_at(c, i + 2)
    &&& h.num_probes == c.records@[i].shape@[0]
    &&& h.out_dim == c.records@[i + 1].shape@[0]
    &&& h.d_model == c.geom.d_model
}

/// Why the head that starts at `i` cannot be loaded, if it cannot.
pub open spec fn head_load_fault(c: Cact, i: int) -> Option<V2LoadError> {
    let reads = seq![Read::Floats(i), Read::Floats(i + 1), Read::Floats(i + 2)];
    match reads_fault(c, reads, 0) {
        Some(e) => Some(V2LoadError::Cact(e)),
        None => match head_sizes_fault(
            floats_at(c, i).len() as int,
            floats_at(c, i + 1).len() as int,
            floats_at(c, i + 2).len() as int,
            c.records@[i].shape@[0] as int,
            c.records@[i + 1].shape@[0] as int,
            c.geom.d_model as int,
        ) {
            Some(e) => Some(V2LoadError::Model(e)),
            None => None,
        },
    }
}

/// The first fault among the heads from `k` on.
pub open spec fn heads_load_fault(c: Cact, k: int, n: int) -> Option<V2LoadError>
    decreases n - k,
{
    if k >= n {
        None
    } else if head_load_fault(c, head_base(c.geom@, k)) is Some {
        head_load_fault(c, head_base(c.geom@, k))
    } else {
        heads_load_fault(c, k + 1, n)
    }
}

/// The embedded tokenizer, where there is one.
pub open spec fn tokenizer_of(c: Cact) -> Option<Result<
    crate::sp_tokenizer::TokenizerModel,
    TokenizerError,
>> {
    if ends_with_raw(c) {
        Some(parse_blob(c.blob_of(c.records@.len() - 1)))
    } else {
        None
    }
}

/// Why the contents of a container with a layout cannot be loaded, if they
/// cannot: the tensors first, then the heads, then the tokenizer.
pub open spec fn contents_fault(c: Cact) -> Option<V2LoadError> {
    match canon_fault(c) {
        Some(e) => Some(V2LoadError::Cact(e)),
        None => match heads_load_fault(c, 0, head_count(extra_tensors(c))->0) {
            Some(e) => Some(e),
            None => match tokenizer_of(c) {
                Some(Err(e)) => Some(V2LoadError::Tokenizer(e)),
                _ => None,
            },
        },
    }
}

/// `m` is put together from the tensors of `c`.
pub open spec fn is_model_of(m: V2Model, c: Cact) -> bool {
    let g = c.geom@;
    &&& is_config_of(m.cfg, c.geom)
    &&& is_cq_at(c, m.embedding, 0)
    &&& m.layers@.len() == g.num_layers
    &&& forall|k: int| 0 <= k < g.num_layers ==> is_layer(#[trigger] m.layers@[k], c, layer_base(k))
    &&& is_mhc(m.mhc, c, mhc_base(g))
    &&& m.engrams@.len() == g.engram_sites.len()
    &&& forall|k: int|
        0 <= k < g.engram_sites.len() ==> is_engram(
            #[trigger] m.engrams@[k],
            c,
            engram_base(g, k),
        )
    &&& m.final_norm@ == floats_at(c, final_norm_pos(g))
}

proof fn lemma_weights(m: V2Model, c: Cact)
    requires
        is_model_of(m, c),
    ensures
        weights_wf(m),
{
    assert forall|k: int| 0 <= k < m.layers@.len() implies layer_weights_wf(
        #[trigger] m.layers@[k],
    ) by {
        assert(is_layer(m.layers@[k], c, layer_base(k)));
    }
    assert forall|k: int| 0 <= k < m.engrams@.len() implies site_weights_wf(
        #[trigger] m.engrams@[k],
    ) by {
        assert(is_engram(m.engrams@[k], c, engram_base(c.geom@, k)));
    }
}

/// `heads` are the first heads of `c`.
pub open spec fn are_heads_of(heads: Seq<ProbeHead>, c: Cact) -> bool {
    forall|k: int|
        0 <= k < heads.len() ==> {
            &&& is_head(#[trigger] heads[k], c, head_base(c.geom@, k))
            &&& heads[k].code == head_code(c, k)
            &&& head_shape_fault(heads[k]) is None
        }
}

/// Heads and tokenizer of `b` are those of `c`.
pub open spec fn has_parts_of(b: V2Bundle, c: Cact) -> bool {
    &&& b.heads@.len() == head_count(extra_tensors(c))->0
    &&& are_heads_of(b.heads@, c)
    &&& match tokenizer_of(c) {
        Some(Ok(m)) => b.tokenizer is Some && b.tokenizer->0.wf() && b.tokenizer->0@ == m,
        _ => b.tokenizer is None,
    }
}

/// Reading the layer that starts at `i` comes to its gate tensor, and that is
/// empty.
pub open spec fn lacks_gate(c: Cact, i: int) -> bool {
    reads_fault(c, layer_reads(i).take(10), 0) is None && floats_at(c, i + 9).len() == 0
}

/// Reading the layers from `k` on finds a value in every gate tensor that it comes
/// to.
pub open spec fn gates_found(c: Cact, k: int) -> bool
    decreases c.geom@.num_layers - k,
{
    if k >= c.geom@.num_layers {
        true
    } else if lacks_gate(c, layer_base(k)) {
        false
    } else if reads_fault(c, layer_reads(layer_base(k)), 0) is Some {
        true
    } else {
        gates_found(c, k + 1)
    }
}

/// Every gate tensor that loading comes to holds a value. Loading ends at the first
/// fault.
pub open spec fn gates_present(c: Cact) -> bool {
    layout_fault(c) is None && read_fault(c, Read::Cq(0)) is None ==> gates_found(c, 0)
}

/// Read the layer that starts at `i`, unless its gate tensor is empty.
fn try_layer(c: &Cact, at: &LayerIdx, Ghost(i): Ghost<int>) -> (r: Option<
    Result<V2Layer, CactError>,
>)
    requires
        c.wf(),
        is_layer_idx(*at, i),
        0 <= i,
        i + 14 <= c.records@.len(),
    ensures
        r is None <==> lacks_gate(*c, i),
        r is Some ==> match reads_fault(*c, layer_reads(i), 0) {
            Some(e) => r->0 is Err && r->0->Err_0 == e,
            None => r->0 is Ok && is_layer(r->0->Ok_0, *c, i),
        },
{
    proof {
        reveal_with_fuel(reads_fault, 15);
    }
    let norm_in = match c.floats(at.norm_in) {
        Ok(v) => v,
        Err(e) => return Some(Err(e)),
    };
    let q_proj = match c.cq(at.q_proj) {
        Ok(v) => v,
        Err(e) => return Some(Err(e)),
    };
    let k_proj = match c.cq(at.k_proj) {
        Ok(v) => v,
        Err(e) => return Some(Err(e)),
    };
    let v_proj = match c.cq(at.v_proj) {
        Ok(v) => v,
        Err(e) => return Some(Err(e)),
    };
    let gate_proj = match c.cq(at.gate_proj) {
        Ok(v) => v,
        Err(e) => return Some(Err(e)),
    };
    let out_proj = match c.cq(at.out_proj) {
        Ok(v) => v,
        Err(e) => return Some(Err(e)),
    };
    let q_norm = match c.floats(at.q_norm) {
        Ok(v) => v,
        Err(e) => return Some(Err(e)),
    };
    let k_norm = match c.floats(at.k_norm) {
        Ok(v) => v,
        Err(e) => return Some(Err(e)),
    };
    let post_norm = match c.floats(at.post_norm) {
        Ok(v) => v,
        Err(e) => return Some(Err(e)),
    };
    let gate = match c.floats(at.attn_gate) {
        Ok(v) => v,
        Err(e) => return Some(Err(e)),
    };
    if gate.len() == 0 {
        return None;
    }
    let pre_hada = match c.floats(at.pre_hada) {
        Ok(v) => v,
        Err(e) => return Some(Err(e)),
    };
    let d1 = match c.floats(at.d1) {
        Ok(v) => v,
        Err(e) => return Some(Err(e)),
    };
    let d2 = match c.floats(at.d2) {
        Ok(v) => v,
        Err(e) => return Some(Err(e)),
    };
    let d3 = match c.floats(at.d3) {
        Ok(v) => v,
        Err(e) => return Some(Err(e)),
    };
    Some(Ok(V2Layer { norm_in, q_proj, k_proj, v_proj, q_norm, k_norm, gate_proj, out_proj, post_norm, attn_gate: gate[0], pre_hada, d1, d2, d3 }))
}

fn read_mhc(c: &Cact, at: &MhcIdx, Ghost(i): Ghost<int>) -> (r: Result<V2Mhc, CactError>)
    requires
        c.wf(),
        is_mhc_idx(*at, i),
        0 <= i,
        i + 9 <= c.records@.len(),
    ensures
        match reads_fault(*c, mhc_reads(i), 0) {
            Some(e) => r is Err && r->Err_0 == e,
            None => r is Ok && is_mhc(r->Ok_0, *c, i),
        },
{
    proof {
        reveal_with_fuel(reads_fault, 10);
    }
    let a_pre = match c.floats(at.a_pre) {
        Ok(v) => v,
        Err(e) => return Err(e),
    };
    let a_post = match c.floats(at.a_post) {
        Ok(v) => v,
        Err(e) => return Err(e),
    };
    let a_res = match c.floats(at.a_res) {
        Ok(v) => v,
        Err(e) => return Err(e),
    };
    let b_pre = match c.floats(at.b_pre) {
        Ok(v) => v,
        Err(e) => return Err(e),
    };
    let b_post = match c.floats(at.b_post) {
        Ok(v) => v,
        Err(e) => return Err(e),
    };
    let b_res = match c.floats(at.b_res) {
        Ok(v) => v,
        Err(e) => return Err(e),
    };
    let phi_pre = match c.cq(at.phi_pre) {
        Ok(v) => v,
        Err(e) => return Err(e),
    };
    let phi_post = match c.cq(at.phi_post) {
        Ok(v) => v,
        Err(e) => return Err(e),
    };
    let phi_res = match c.cq(at.phi_res) {
        Ok(v) => v,
        Err(e) => return Err(e),
    };
    Ok(V2Mhc { a_pre, a_post, a_res, b_pre, b_post, b_res, phi_pre, phi_post, phi_res })
}

fn read_engram(c: &Cact, at: &EngramIdx, Ghost(i): Ghost<int>) -> (r: Result<V2Engram, CactError>)
    requires
        c.wf(),
        is_engram_idx(*at, i),
        0 <= i,
        i + 4 <= c.records@.len(),
    ensures
        match reads_fault(*c, engram_reads(i), 0) {
            Some(e) => r is Err && r->Err_0 == e,
            None => r is Ok && is_engram(r->Ok_0, *c, i),
        },
{
    proof {
        reveal_with_fuel(reads_fault, 5);
    }
    let tables = match c.cq(at.tables) {
        Ok(v) => v,
        Err(e) => return Err(e),
    };
    let key_proj = match c.cq(at.key_proj) {
        Ok(v) => v,
        Err(e) => return Err(e),
    };
    let value_proj = match c.cq(at.value_proj) {
        Ok(v) => v,
        Err(e) => return Err(e),
    };
    let taps = match c.floats(at.taps) {
        Ok(v) => v,
        Err(e) => return Err(e),
    };
    Ok(V2Engram { tables, key_proj, value_proj, taps })
}

proof fn lemma_places(c: Cact, l: CactLayout)
    requires
        c.wf(),
        layout_fault(c) is None,
        is_layout(l, c),
    ensures
        forall|k: int|
            0 <= k < l.layers@.len() ==> #[trigger] layer_base(k) + 14 <= c.records@.len(),
        mhc_base(c.geom@) + 9 <= c.records@.len(),
        forall|k: int|
            0 <= k < l.engrams@.len() ==> #[trigger] engram_base(c.geom@, k) + 4
                <= c.records@.len(),
        final_norm_pos(c.geom@) < c.records@.len(),
        forall|k: int|
            0 <= k < l.heads@.len() ==> #[trigger] head_base(c.geom@, k) + 3 <= c.records@.len(),
{
    let g = c.geom@;
    assert(canon_len(g) <= c.records@.len());
    let n = head_count(extra_tensors(c))->0;
    assert forall|k: int| 0 <= k < l.heads@.len() implies #[trigger] head_base(g, k) + 3
        <= c.records@.len() by {
        assert(extra_tensors(c) == 0 || extra_tensors(c) == 1 + 3 * n);
    }
}

fn read_layers(c: &Cact, l: &CactLayout) -> (r: Result<Vec<V2Layer>, CactError>)
    requires
        c.wf(),
        layout_fault(*c) is None,
        is_layout(*l, *c),
        gates_found(*c, 0),
    ensures
        match layers_read_fault(*c, 0) {
            Some(e) => r is Err && r->Err_0 == e,
            None => r is Ok && r->Ok_0@.len() == c.geom@.num_layers && forall|k: int|
                0 <= k < c.geom@.num_layers ==> is_layer(
                    #[trigger] r->Ok_0@[k],
                    *c,
                    layer_base(k),
                ),
        },
{
    proof {
        lemma_places(*c, *l);
    }
    let mut layers: Vec<V2Layer> = Vec::new();
    let mut k: usize = 0;
    while k < l.layers.len()
        invariant
            k <= l.layers@.len(),
            c.wf(),
            layout_fault(*c) is None,
            is_layout(*l, *c),
            gates_found(*c, k as int),
            forall|k: int|
                0 <= k < l.layers@.len() ==> #[trigger] layer_base(k) + 14 <= c.records@.len(),
            layers_read_fault(*c, 0) == layers_read_fault(*c, k as int),
            layers@.len() == k,
            forall|j: int|
                0 <= j < k ==> is_layer(#[trigger] layers@[j], *c, layer_base(j)),
        decreases l.layers@.len() - k,
    {
        let ghost i = layer_base(k as int);
        assert(is_layer_idx(l.layers@[k as int], i));
        match try_layer(c, &l.layers[k], Ghost(i)) {
            Some(Ok(v)) => layers.push(v),
            Some(Err(e)) => return Err(e),
            None => {
                assert(false);
            },
        }
        k = k + 1;
    }
    Ok(layers)
}

fn read_engrams(c: &Cact, l: &CactLayout) -> (r: Result<Vec<V2Engram>, CactError>)
    requires
        c.wf(),
        layout_fault(*c) is None,
        is_layout(*l, *c),
    ensures
        match engrams_read_fault(*c, 0) {
            Some(e) => r is Err && r->Err_0 == e,
            None => r is Ok && r->Ok_0@.len() == c.geom@.engram_sites.len() && forall|k: int|
                0 <= k < c.geom@.engram_sites.len() ==> is_engram(
                    #[trigger] r->Ok_0@[k],
                    *c,
                    engram_base(c.geom@, k),
                ),
        },
{
    proof {
        lemma_places(*c, *l);
    }
    let mut engrams: Vec<V2Engram> = Vec::new();
    let mut k: usize = 0;
    while k < l.engrams.len()
        invariant
            k <= l.engrams@.len(),
            c.wf(),
            is_layout(*l, *c),
            forall|k: int|
                0 <= k < l.engrams@.len() ==> #[trigger] engram_base(c.geom@, k) + 4
                    <= c.records@.len(),
            engrams_read_fault(*c, 0) == engrams_read_fault(*c, k as int),
            engrams@.len() == k,
            forall|j: int|
                0 <= j < k ==> is_engram(#[trigger] engrams@[j], *c, engram_base(c.geom@, j)),
        decreases l.engrams@.len() - k,
    {
        let ghost i = engram_base(c.geom@, k as int);
        assert(is_engram_idx(l.engrams@[k as int], i));
        match read_engram(c, &l.engrams[k], Ghost(i)) {
            Ok(v) => engrams.push(v),
            Err(e) => return Err(e),
        }
        k = k + 1;
    }
    Ok(engrams)
}

fn read_head(c: &Cact, at: &HeadIdx, Ghost(i): Ghost<int>) -> (r: Result<ProbeHead, V2LoadError>)
    requires
        c.wf(),
        is_head_idx(*at, i),
        0 <= i,
        i + 3 <= c.records@.len(),
    ensures
        match head_load_fault(*c, i) {
            Some(e) => r is Err && r->Err_0 == e,
            None => r is Ok && is_head(r->Ok_0, *c, i) && r->Ok_0.code == at.code
                && head_shape_fault(r->Ok_0) is None,
        },
{
    proof {
        reveal_with_fuel(reads_fault, 4);
    }
    let probes = match c.floats(at.probes) {
        Ok(v) => v,
        Err(e) => return Err(V2LoadError::Cact(e)),
    };
    let proj = match c.floats(at.proj) {
        Ok(v) => v,
        Err(e) => return Err(V2LoadError::Cact(e)),
    };
    let bias = match c.floats(at.bias) {
        Ok(v) => v,
        Err(e) => return Err(V2LoadError::Cact(e)),
    };
    let num_probes: usize = c.record(at.probes).shape[0];
    let out_dim: usize = c.record(at.proj).shape[0];
    let head = ProbeHeadWeights {
        code: at.code,
        probes,
        proj,
        bias,
        num_probes,
        out_dim,
        d_model: c.geom.d_model,
    };
    match head.validate() {
        Ok(_) => Ok(head),
        Err(e) => Err(V2LoadError::Model(e)),
    }
}

fn read_heads(c: &Cact, l: &CactLayout) -> (r: Result<Vec<ProbeHead>, V2LoadError>)
    requires
        c.wf(),
        layout_fault(*c) is None,
        is_layout(*l, *c),
    ensures
        match heads_load_fault(*c, 0, head_count(extra_tensors(*c))->0) {
            Some(e) => r is Err && r->Err_0 == e,
            None => r is Ok && r->Ok_0@.len() == head_count(extra_tensors(*c))->0 && are_heads_of(
                r->Ok_0@,
                *c,
            ),
        },
{
    proof {
        lemma_places(*c, *l);
    }
    let ghost n = head_count(extra_tensors(*c))->0;
    let mut heads: Vec<ProbeHead> = Vec::new();
    let mut k: usize = 0;
    while k < l.heads.len()
        invariant
            k <= l.heads@.len(),
            c.wf(),
            is_layout(*l, *c),
            n == head_count(extra_tensors(*c))->0,
            forall|k: int|
                0 <= k < l.heads@.len() ==> #[trigger] head_base(c.geom@, k) + 3
                    <= c.records@.len(),
            heads_load_fault(*c, 0, n) == heads_load_fault(*c, k as int, n),
            heads@.len() == k,
            are_heads_of(heads@, *c),
        decreases l.heads@.len() - k,
    {
        let ghost i = head_base(c.geom@, k as int);
        assert(is_head_idx(l.heads@[k as int], i));
        match read_head(c, &l.heads[k], Ghost(i)) {
            Ok(v) => heads.push(v),
            Err(e) => return Err(e),
        }
        k = k + 1;
    }
    Ok(heads)
}

/// The position of the first head with a code, from `k` on.
pub open spec fn head_position(heads: Seq<ProbeHead>, code: u8, k: int) -> Option<int>
    decreases heads.len() - k,
{
    if k < 0 || k >= heads.len() {
        None
    } else if heads[k].code == code {
        Some(k)
    } else {
        head_position(heads, code, k + 1)
    }
}

/// What loading `c` gives.
pub open spec fn is_load_of(r: Result<V2Bundle, V2LoadError>, c: Cact) -> bool {
    match layout_fault(c) {
        Some(f) => r is Err && r->Err_0 is Cact && reports(r->Err_0->Cact_0, f),
        None => match contents_fault(c) {
            Some(e) => r is Err && r->Err_0 == e,
            None => exists|m: V2Model|
                #[trigger] is_model_of(m, c) && match model_fault(m) {
                    Some(e) => r is Err && r->Err_0 == V2LoadError::Model(e),
                    None => r is Ok && r->Ok_0.model == m && has_parts_of(r->Ok_0, c),
                },
        },
    }
}

impl V2Bundle {
    /// Well-formedness: the model's weights fit together, and so do the heads'.
    pub open spec fn wf(&self) -> bool {
        &&& self.model.wf()
        &&& weights_wf(self.model)
        &&& self.tokenizer is Some ==> self.tokenizer->0.wf()
        &&& forall|k: int|
            0 <= k < self.heads@.len() ==> head_shape_fault(#[trigger] self.heads@[k]) is None
                && self.heads@[k].d_model == self.model.cfg.d_model
    }

    /// Whether every gate tensor that loading comes to holds a value.
    pub fn has_gates(c: &Cact) -> (r: bool)
        requires
            c.wf(),
        ensures
            r == gates_present(*c),
    {
        let l = match c.layout() {
            Ok(l) => l,
            Err(_) => return true,
        };
        proof {
            lemma_places(*c, l);
        }
        if c.cq(l.embedding).is_err() {
            return true;
        }
        let mut k: usize = 0;
        while k < l.layers.len()
            invariant
                k <= l.layers@.len(),
                c.wf(),
                is_layout(l, *c),
                forall|k: int|
                    0 <= k < l.layers@.len() ==> #[trigger] layer_base(k) + 14 <= c.records@.len(),
                layout_fault(*c) is None,
                read_fault(*c, Read::Cq(0)) is None,
                gates_found(*c, 0) == gates_found(*c, k as int),
            decreases l.layers@.len() - k,
        {
            let ghost i = layer_base(k as int);
            assert(is_layer_idx(l.layers@[k as int], i));
            match try_layer(c, &l.layers[k], Ghost(i)) {
                Some(Ok(_)) => {},
                Some(Err(_)) => return true,
                None => return false,
            }
            k = k + 1;
        }
        true
    }

    /// Load a parsed container.
    ///
    /// The parts are read in a fixed order: embedding, layers, router, memory
    /// sites, final norm, heads, tokenizer. The first fault is reported. Then
    /// the model is put together, which may fault in turn.
    pub fn from_cact(c: &Cact) -> (r: Result<V2Bundle, V2LoadError>)
        requires
            c.wf(),
            gates_present(*c),
        ensures
            is_load_of(r, *c),
            r is Ok ==> r->Ok_0.wf(),
    {
        let layout = match c.layout() {
            Ok(l) => l,
            Err(e) => return Err(V2LoadError::Cact(e)),
        };
        proof {
            lemma_places(*c, layout);
        }
        let cfg = config_from_geometry(&c.geom);
        let embedding = match c.cq(layout.embedding) {
            Ok(w) => w,
            Err(e) => return Err(V2LoadError::Cact(e)),
        };
        let layers = match read_layers(c, &layout) {
            Ok(v) => v,
            Err(e) => return Err(V2LoadError::Cact(e)),
        };
        let mhc = match read_mhc(c, &layout.mhc, Ghost(mhc_base(c.geom@))) {
            Ok(v) => v,
            Err(e) => return Err(V2LoadError::Cact(e)),
        };
        let engrams = match read_engrams(c, &layout) {
            Ok(v) => v,
            Err(e) => return Err(V2LoadError::Cact(e)),
        };
        let final_norm = match c.floats(layout.final_norm) {
            Ok(v) => v,
            Err(e) => return Err(V2LoadError::Cact(e)),
        };
        let heads = match read_heads(c, &layout) {
            Ok(v) => v,
            Err(e) => return Err(e),
        };
        let tokenizer = match layout.tokenizer {
            Some(i) => {
                proof {
                    c.lemma_blob_in_range(i as int);
                }
                let blob = match c.raw_tensor(i) {
                    Ok(b) => b,
                    Err(e) => return Err(V2LoadError::Cact(e)),
                };
                match SpTokenizer::from_blob(blob) {
                    Ok(t) => Some(t),
                    Err(e) => return Err(V2LoadError::Tokenizer(e)),
                }
            },
            None => None,
        };
        let ghost m = V2Model { cfg, embedding, layers, mhc, engrams, final_norm };
        assert(is_model_of(m, *c));
        proof {
            lemma_weights(m, *c);
        }
        match V2Model::new(cfg, embedding, layers, mhc, engrams, final_norm) {
            Ok(model) => Ok(V2Bundle { model, tokenizer, heads }),
            Err(e) => Err(V2LoadError::Model(e)),
        }
    }

    /// Load a container from its bytes.
    pub fn from_bytes(bytes: Vec<u8>) -> (r: Result<V2Bundle, V2LoadError>)
        requires
            bytes@.len() <= isize::MAX,
            is_loadable(bytes@),
        ensures
            match cact_fault(bytes@) {
                Some(e) => r is Err && r->Err_0 == V2LoadError::Cact(e),
                None => exists|c: Cact|
                    #[trigger] c.wf() && c.raw@ == bytes@ && is_load_of(r, c),
            },
            r is Ok ==> r->Ok_0.wf(),
    {
        match Cact::from_bytes(bytes) {
            Ok(c) => V2Bundle::from_cact(&c),
            Err(e) => Err(V2LoadError::Cact(e)),
        }
    }

    /// The first head with this code.
    pub fn head(&self, code: u8) -> (r: Option<&ProbeHead>)
        ensures
            match head_position(self.heads@, code, 0) {
                Some(k) => r is Some && *r->0 == self.heads@[k],
                None => r is None,
            },
    {
        let mut k: usize = 0;
        while k < self.heads.len()
            invariant
                k <= self.heads@.len(),
                head_position(self.heads@, code, 0) == head_position(self.heads@, code, k as int),
            decreases self.heads@.len() - k,
        {
            if self.heads[k].code == code {
                return Some(&self.heads[k]);
            }
            k = k + 1;
        }
        None
    }

    /// The contrastive head, with code 1, where there is one.
    pub fn contrastive_head(&self) -> (r: Option<&ProbeHead>)
        ensures
            match head_position(self.heads@, 1, 0) {
                Some(k) => r is Some && *r->0 == self.heads@[k],
                None => r is None,
            },
    {
        self.head(HEAD_CONTRASTIVE)
    }

    /// The confidence head, with code 2, where there is one.
    pub fn confidence_head(&self) -> (r: Option<&ProbeHead>)
        ensures
            match head_position(self.heads@, 2, 0) {
                Some(k) => r is Some && *r->0 == self.heads@[k],
                None => r is None,
            },
    {
        self.head(HEAD_CONFIDENCE)
    }
}

/// A head is found by its code: the first that has it, wherever it stands.
pub proof fn law_heads_are_found_by_their_code(heads: Seq<ProbeHead>, code: u8, k: int)
    requires
        0 <= k < heads.len(),
        heads[k].code == code,
        forall|i: int| 0 <= i < k ==> (#[trigger] heads[i]).code != code,
    ensures
        head_position(heads, code, 0) == Some(k),
{
    lemma_head_position(heads, code, k, 0);
}

proof fn lemma_head_position(heads: Seq<ProbeHead>, code: u8, k: int, i: int)
    requires
        0 <= i <= k < heads.len(),
        heads[k].code == code,
        forall|i: int| 0 <= i < k ==> (#[trigger] heads[i]).code != code,
    ensures
        head_position(heads, code, i) == Some(k),
    decreases k - i,
{
    if i < k {
        assert(heads[i].code != code);
        lemma_head_position(heads, code, k, i + 1);
    }
}

} // verus!
