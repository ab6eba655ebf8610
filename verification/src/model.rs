//! The loaded model: its weights, the checks that they fit together, and the
//! order in which one position runs through them.

use crate::config::{config_fault, V2Config};
use crate::cq::CqWeight;
use crate::hadamard::hada_n;
use crate::pow2::is_pow2;
use crate::state::{is_blank, is_sized, state_fits, V2State};
use vstd::prelude::*;

verus! {

/// Weights of one layer. Vectors and scalars are float bits.
pub struct V2Layer {
    /// Norm scale before attention.
    pub norm_in: Vec<u32>,
    pub q_proj: CqWeight,
    pub k_proj: CqWeight,
    pub v_proj: CqWeight,
    /// Gives what gates the attention output.
    pub gate_proj: CqWeight,
    pub out_proj: CqWeight,
    /// Norm scales per head, `head_dim` long.
    pub q_norm: Vec<u32>,
    pub k_norm: Vec<u32>,
    /// Norm scale after attention.
    pub post_norm: Vec<u32>,
    /// Gate of the attention residual, before the sigmoid.
    pub attn_gate: u32,
    /// Norm scale before the Hadamard block.
    pub pre_hada: Vec<u32>,
    /// Diagonals of the Hadamard block, `hada_n` long each.
    pub d1: Vec<u32>,
    pub d2: Vec<u32>,
    pub d3: Vec<u32>,
}

/// Weights of the lane router, one tall matrix of each kind with a band of rows
/// per layer.
pub struct V2Mhc {
    /// `[num_layers]` each.
    pub a_pre: Vec<u32>,
    pub a_post: Vec<u32>,
    pub a_res: Vec<u32>,
    /// `[num_layers * lanes]`.
    pub b_pre: Vec<u32>,
    pub b_post: Vec<u32>,
    /// `[num_layers * lanes * lanes]`.
    pub b_res: Vec<u32>,
    /// `[num_layers * lanes, lanes * d_model]`.
    pub phi_pre: CqWeight,
    pub phi_post: CqWeight,
    /// `[num_layers * lanes * lanes, lanes * d_model]`.
    pub phi_res: CqWeight,
}

/// Weights of one site of the n-gram memory.
pub struct V2Engram {
    /// `[num_tables * slots, sub_dim]`.
    pub tables: CqWeight,
    /// `[d_model, fetched_dim]`.
    pub key_proj: CqWeight,
    /// `[d_model, fetched_dim]`.
    pub value_proj: CqWeight,
    /// `[conv_taps, d_model]`.
    pub taps: Vec<u32>,
}

/// A loaded model.
pub struct V2Model {
    pub cfg: V2Config,
    /// `[vocab_size, d_model]`, tied with the output head.
    pub embedding: CqWeight,
    pub layers: Vec<V2Layer>,
    pub mhc: V2Mhc,
    pub engrams: Vec<V2Engram>,
    pub final_norm: Vec<u32>,
}

/// `n` is the smallest power of two that is at least `d`.
pub open spec fn is_width_for(n: int, d: int) -> bool {
    &&& is_pow2(n)
    &&& n >= d
    &&& forall|q: int| is_pow2(q) && q >= d ==> n <= q
}

/// What is wrong with a layer's shapes, if anything is.
pub open spec fn layer_fault(c: V2Config, l: V2Layer) -> Option<&'static str> {
    if l.d1@.len() != c.hada_n || l.d2@.len() != c.hada_n || l.d3@.len() != c.hada_n {
        Some("HadamardMLP diagonal width does not match hada_n")
    } else if l.q_norm@.len() != c.head_dim || l.k_norm@.len() != c.head_dim {
        Some("q_norm/k_norm width does not match head_dim")
    } else {
        None
    }
}

/// What is wrong with the shapes of the layers from `k` on, if anything is: the
/// first faulty layer decides.
pub open spec fn layers_shape_fault(c: V2Config, layers: Seq<V2Layer>, k: int) -> Option<
    &'static str,
>
    decreases layers.len() - k,
{
    if k < 0 || k >= layers.len() {
        None
    } else if layer_fault(c, layers[k]) is Some {
        layer_fault(c, layers[k])
    } else {
        layers_shape_fault(c, layers, k + 1)
    }
}

/// What is wrong with a site's shapes, if anything is.
pub open spec fn site_fault(c: V2Config, e: V2Engram) -> Option<&'static str> {
    if e.taps@.len() != c.engram.conv_taps * c.d_model {
        Some("engram taps shape does not match conv_taps x d_model")
    } else if e.tables.in_feat != c.engram.sub_dim {
        Some("engram table width does not match sub_dim")
    } else {
        None
    }
}

/// What is wrong with the shapes of the sites from `k` on, if anything is: the
/// first faulty site decides.
pub open spec fn sites_shape_fault(c: V2Config, engrams: Seq<V2Engram>, k: int) -> Option<
    &'static str,
>
    decreases engrams.len() - k,
{
    if k < 0 || k >= engrams.len() {
        None
    } else if site_fault(c, engrams[k]) is Some {
        site_fault(c, engrams[k])
    } else {
        sites_shape_fault(c, engrams, k + 1)
    }
}

/// What is wrong with the router's shapes, if anything is.
pub open spec fn mhc_fault(c: V2Config, m: V2Mhc) -> Option<&'static str> {
    let l = c.num_layers as int;
    let n = c.mhc_lanes as int;
    if m.a_pre@.len() != l || m.a_post@.len() != l || m.a_res@.len() != l {
        Some("mhc a_* length does not match num_layers")
    } else if m.b_pre@.len() != l * n || m.b_post@.len() != l * n || m.b_res@.len() != l * n * n {
        Some("mhc b_* length does not match num_layers x lanes")
    } else if m.phi_pre.out_feat != l * n || m.phi_post.out_feat != l * n || m.phi_res.out_feat != l
        * n * n {
        Some("mhc phi_* row count does not match num_layers x lanes")
    } else if m.phi_pre.in_feat != n * c.d_model {
        Some("mhc phi_* width does not match lanes x d_model")
    } else {
        None
    }
}

/// Why weights do not make a model, if they do not.
pub open spec fn model_fault(m: V2Model) -> Option<&'static str> {
    let c = m.cfg;
    if config_fault(c) is Some {
        config_fault(c)
    } else if m.layers@.len() != c.num_layers {
        Some("layer count does not match num_layers")
    } else if m.engrams@.len() != c.engram.sites@.len() {
        Some("engram count does not match site count")
    } else if m.final_norm@.len() != c.d_model {
        Some("final_norm width does not match d_model")
    } else if !is_width_for(c.hada_n as int, c.d_model as int) {
        Some("hada_n is not d_model rounded up to a power of two")
    } else if m.embedding.out_feat != c.vocab_size || m.embedding.in_feat != c.d_model {
        Some("embedding shape does not match geometry")
    } else if mhc_fault(c, m.mhc) is Some {
        mhc_fault(c, m.mhc)
    } else if layers_shape_fault(c, m.layers@, 0) is Some {
        layers_shape_fault(c, m.layers@, 0)
    } else {
        sites_shape_fault(c, m.engrams@, 0)
    }
}

/// The quantised matrices of a layer are well-formed.
pub open spec fn layer_weights_wf(l: V2Layer) -> bool {
    &&& l.q_proj.wf()
    &&& l.k_proj.wf()
    &&& l.v_proj.wf()
    &&& l.gate_proj.wf()
    &&& l.out_proj.wf()
}

/// The quantised matrices of a memory site are well-formed.
pub open spec fn site_weights_wf(e: V2Engram) -> bool {
    &&& e.tables.wf()
    &&& e.key_proj.wf()
    &&& e.value_proj.wf()
}

/// All quantised matrices of a model are well-formed.
pub open spec fn weights_wf(m: V2Model) -> bool {
    &&& m.embedding.wf()
    &&& m.mhc.phi_pre.wf()
    &&& m.mhc.phi_post.wf()
    &&& m.mhc.phi_res.wf()
    &&& forall|k: int| 0 <= k < m.layers@.len() ==> layer_weights_wf(#[trigger] m.layers@[k])
    &&& forall|k: int| 0 <= k < m.engrams@.len() ==> site_weights_wf(#[trigger] m.engrams@[k])
}

pub(crate) fn is_product(n: usize, a: usize, b: usize) -> (r: bool)
    ensures
        r == (n == a * b),
{
    match a.checked_mul(b) {
        Some(p) => p == n,
        None => false,
    }
}

pub(crate) fn is_product3(n: usize, a: usize, b: usize, c: usize) -> (r: bool)
    ensures
        r == (n == a * b * c),
{
    proof {
        if c > 0 {
            assert(a * b <= a * b * c) by (nonlinear_arith)
                requires
                    a * b >= 0,
                    c >= 1,
            ;
        } else {
            assert(a * b * c == 0) by (nonlinear_arith)
                requires
                    c == 0,
            ;
        }
        assert(a * b >= 0) by (nonlinear_arith)
            requires
                a >= 0,
                b >= 0,
        ;
    }
    if c == 0 {
        return n == 0;
    }
    match a.checked_mul(b) {
        Some(p) => is_product(n, p, c),
        None => false,
    }
}

fn check_layers(c: &V2Config, layers: &Vec<V2Layer>) -> (r: Result<(), &'static str>)
    ensures
        match layers_shape_fault(*c, layers@, 0) {
            Some(e) => r is Err && r->Err_0 == e,
            None => r is Ok,
        },
{
    let mut k: usize = 0;
    while k < layers.len()
        invariant
            k <= layers@.len(),
            layers_shape_fault(*c, layers@, 0) == layers_shape_fault(*c, layers@, k as int),
        decreases layers@.len() - k,
    {
        let l = &layers[k];
        if l.d1.len() != c.hada_n || l.d2.len() != c.hada_n || l.d3.len() != c.hada_n {
            return Err("HadamardMLP diagonal width does not match hada_n");
        }
        if l.q_norm.len() != c.head_dim || l.k_norm.len() != c.head_dim {
            return Err("q_norm/k_norm width does not match head_dim");
        }
        k = k + 1;
    }
    Ok(())
}

fn check_sites(c: &V2Config, engrams: &Vec<V2Engram>) -> (r: Result<(), &'static str>)
    ensures
        match sites_shape_fault(*c, engrams@, 0) {
            Some(e) => r is Err && r->Err_0 == e,
            None => r is Ok,
        },
{
    let mut k: usize = 0;
    while k < engrams.len()
        invariant
            k <= engrams@.len(),
            sites_shape_fault(*c, engrams@, 0) == sites_shape_fault(*c, engrams@, k as int),
        decreases engrams@.len() - k,
    {
        let e = &engrams[k];
        if !is_product(e.taps.len(), c.engram.conv_taps, c.d_model) {
            return Err("engram taps shape does not match conv_taps x d_model");
        }
        if e.tables.in_feat != c.engram.sub_dim {
            return Err("engram table width does not match sub_dim");
        }
        k = k + 1;
    }
    Ok(())
}

fn check_mhc(c: &V2Config, m: &V2Mhc) -> (r: Result<(), &'static str>)
    ensures
        match mhc_fault(*c, *m) {
            Some(e) => r is Err && r->Err_0 == e,
            None => r is Ok,
        },
{
    let l: usize = c.num_layers;
    let n: usize = c.mhc_lanes;
    if m.a_pre.len() != l || m.a_post.len() != l || m.a_res.len() != l {
        return Err("mhc a_* length does not match num_layers");
    }
    if !is_product(m.b_pre.len(), l, n) || !is_product(m.b_post.len(), l, n) || !is_product3(
        m.b_res.len(),
        l,
        n,
        n,
    ) {
        return Err("mhc b_* length does not match num_layers x lanes");
    }
    if !is_product(m.phi_pre.out_feat, l, n) || !is_product(m.phi_post.out_feat, l, n)
        || !is_product3(m.phi_res.out_feat, l, n, n) {
        return Err("mhc phi_* row count does not match num_layers x lanes");
    }
    if !is_product(m.phi_pre.in_feat, n, c.d_model) {
        return Err("mhc phi_* width does not match lanes x d_model");
    }
    Ok(())
}

/// The width of the rings of a state for generation: the attention window, or
/// the whole sequence where there is none or it is wider.
pub open spec fn ring_width(c: V2Config) -> int {
    if c.kv_window == 0 || c.kv_window > c.max_seq_len {
        c.max_seq_len as int
    } else {
        c.kv_window as int
    }
}

impl V2Model {
    /// The weights make a model.
    pub open spec fn wf(&self) -> bool {
        model_fault(*self) is None
    }

    /// Put a model together from its weights.
    pub fn new(
        cfg: V2Config,
        embedding: CqWeight,
        layers: Vec<V2Layer>,
        mhc: V2Mhc,
        engrams: Vec<V2Engram>,
        final_norm: Vec<u32>,
    ) -> (r: Result<V2Model, &'static str>)
        ensures
            ({
                let m = (V2Model { cfg, embedding, layers, mhc, engrams, final_norm });
                match model_fault(m) {
                    Some(e) => r is Err && r->Err_0 == e,
                    None => r is Ok && r->Ok_0 == m && m.wf(),
                }
            }),
    {
        match cfg.validate() {
            Err(e) => return Err(e),
            Ok(_) => {},
        }
        if layers.len() != cfg.num_layers {
            return Err("layer count does not match num_layers");
        }
        if engrams.len() != cfg.engram.sites.len() {
            return Err("engram count does not match site count");
        }
        if final_norm.len() != cfg.d_model {
            return Err("final_norm width does not match d_model");
        }
        let wide: usize = hada_n(cfg.d_model);
        if wide != cfg.hada_n {
            return Err("hada_n is not d_model rounded up to a power of two");
        }
        if embedding.out_feat != cfg.vocab_size || embedding.in_feat != cfg.d_model {
            return Err("embedding shape does not match geometry");
        }
        match check_mhc(&cfg, &mhc) {
            Err(e) => return Err(e),
            Ok(_) => {},
        }
        match check_layers(&cfg, &layers) {
            Err(e) => return Err(e),
            Ok(_) => {},
        }
        match check_sites(&cfg, &engrams) {
            Err(e) => return Err(e),
            Ok(_) => {},
        }
        Ok(V2Model { cfg, embedding, layers, mhc, engrams, final_norm })
    }

    /// A blank state for generation, with rings as wide as the attention
    /// window.
    pub fn make_state<T: Copy>(&self, zero: T) -> (s: V2State<T>)
        requires
            self.wf(),
            state_fits(self.cfg, ring_width(self.cfg)),
        ensures
            s.wf(),
            is_blank(s),
            is_sized(s, self.cfg, ring_width(self.cfg)),
            s.kv_window == self.cfg.kv_window,
            s.zero == zero,
    {
        let cache_len: usize = if self.cfg.kv_window == 0 || self.cfg.kv_window
            > self.cfg.max_seq_len {
            self.cfg.max_seq_len
        } else {
            self.cfg.kv_window
        };
        V2State::with_cache(&self.cfg, cache_len, self.cfg.kv_window, zero)
    }

    /// A blank state for full causal attention, with rings as long as the
    /// longest sequence.
    pub fn make_state_full_causal<T: Copy>(&self, zero: T) -> (s: V2State<T>)
        requires
            self.wf(),
            state_fits(self.cfg, self.cfg.max_seq_len as int),
        ensures
            s.wf(),
            is_blank(s),
            is_sized(s, self.cfg, self.cfg.max_seq_len as int),
            s.kv_window == 0,
            s.zero == zero,
    {
        V2State::with_cache(&self.cfg, self.cfg.max_seq_len, 0, zero)
    }
}

} // verus!
