//! What a model and the machine must satisfy before a pass is run.

use crate::attention::layer_fits;
use crate::batch::widths_fit;
use crate::config::V2Config;
use crate::memory::site_fits;
use crate::model::{is_product, layer_weights_wf, layers_shape_fault, ring_width, site_fault, site_weights_wf, sites_shape_fault, layer_fault, weights_wf, V2Engram, V2Layer, V2Model};
use crate::pass::runnable;
use crate::probes::cells_fit;
use crate::state::state_fits;
use crate::v2_engine::V2Engine;
use vstd::prelude::*;

verus! {

proof fn lemma_layers_checked(c: V2Config, layers: Seq<V2Layer>, k: int, l: int)
    requires
        0 <= k <= l < layers.len(),
        layers_shape_fault(c, layers, k) is None,
    ensures
        layer_fault(c, layers[l]) is None,
    decreases l - k,
{
    if k < l {
        lemma_layers_checked(c, layers, k + 1, l);
    }
}

proof fn lemma_sites_checked(c: V2Config, sites: Seq<V2Engram>, k: int, s: int)
    requires
        0 <= k <= s < sites.len(),
        sites_shape_fault(c, sites, k) is None,
    ensures
        site_fault(c, sites[s]) is None,
    decreases s - k,
{
    if k < s {
        lemma_sites_checked(c, sites, k + 1, s);
    }
}

/// Whether `a * b` can be counted.
fn product_fits(a: usize, b: usize) -> (r: bool)
    ensures
        r == (a * b <= usize::MAX),
{
    a.checked_mul(b).is_some()
}

/// Whether a layer's matrices have the shapes that the geometry needs.
fn check_layer(m: &V2Model, k: usize) -> (r: bool)
    requires
        m.wf(),
        weights_wf(*m),
        k < m.layers@.len(),
    ensures
        r == layer_fits(m.cfg, m.layers@[k as int]),
{
    let c = &m.cfg;
    let l = &m.layers[k];
    proof {
        lemma_layers_checked(m.cfg, m.layers@, 0, k as int);
        assert(layer_weights_wf(m.layers@[k as int]));
    }
    l.q_proj.in_feat == c.d_model && is_product(l.q_proj.out_feat, c.num_heads, c.head_dim)
        && l.k_proj.in_padded == l.q_proj.in_padded && is_product(
        l.k_proj.out_feat,
        c.num_kv_heads,
        c.head_dim,
    ) && l.v_proj.in_padded == l.q_proj.in_padded && is_product(
        l.v_proj.out_feat,
        c.num_kv_heads,
        c.head_dim,
    ) && l.gate_proj.in_padded == l.q_proj.in_padded && is_product(
        l.gate_proj.out_feat,
        c.num_heads,
        c.head_dim,
    ) && is_product(l.out_proj.in_feat, c.num_heads, c.head_dim) && l.out_proj.out_feat
        == c.d_model
}

/// Whether a memory site's matrices have the shapes that the geometry needs.
fn check_site(m: &V2Model, k: usize) -> (r: bool)
    requires
        m.wf(),
        weights_wf(*m),
        k < m.engrams@.len(),
    ensures
        r == site_fits(m.cfg, m.engrams@[k as int]),
{
    let c = &m.cfg;
    let e = &c.engram;
    let s = &m.engrams[k];
    proof {
        lemma_sites_checked(m.cfg, m.engrams@, 0, k as int);
        assert(site_weights_wf(m.engrams@[k as int]));
    }
    let rows: usize = match e.num_tables.checked_mul(e.slots) {
        Some(n) => n,
        None => return false,
    };
    e.num_tables <= 0xffff_ffff && e.slots <= 0xffff_ffff && product_fits(
        e.conv_taps,
        e.conv_dilation,
    ) && s.tables.out_feat >= rows && s.value_proj.in_feat == c.d_model && s.value_proj.out_feat
        == c.d_model && s.key_proj.out_feat == c.d_model && s.key_proj.in_padded
        == s.value_proj.in_padded
}

impl V2Model {
    /// Whether all matrices have the shapes that a pass needs.
    pub fn is_runnable(&self) -> (r: bool)
        requires
            self.wf(),
            weights_wf(*self),
        ensures
            r == runnable(*self),
    {
        let mut k: usize = 0;
        while k < self.layers.len()
            invariant
                k <= self.layers@.len(),
                self.wf(),
                weights_wf(*self),
                forall|l: int| 0 <= l < k ==> layer_fits(self.cfg, #[trigger] self.layers@[l]),
            decreases self.layers@.len() - k,
        {
            if !check_layer(self, k) {
                assert(!layer_fits(self.cfg, self.layers@[k as int]));
                return false;
            }
            k = k + 1;
        }
        let mut k: usize = 0;
        while k < self.engrams.len()
            invariant
                k <= self.engrams@.len(),
                self.wf(),
                weights_wf(*self),
                forall|s: int| 0 <= s < k ==> site_fits(self.cfg, #[trigger] self.engrams@[s]),
            decreases self.engrams@.len() - k,
        {
            if !check_site(self, k) {
                assert(!site_fits(self.cfg, self.engrams@[k as int]));
                return false;
            }
            k = k + 1;
        }
        self.mhc.phi_post.in_padded == self.mhc.phi_pre.in_padded && self.mhc.phi_res.in_padded
            == self.mhc.phi_pre.in_padded && self.cfg.max_seq_len < usize::MAX
            && self.cfg.vocab_size <= 0xffff_ffff
    }
}

impl V2Config {
    /// Whether the buffers of a state with rings of `cache_len` positions can be
    /// counted.
    pub fn state_can_be_counted(&self, cache_len: usize) -> (r: bool)
        ensures
            r == state_fits(*self, cache_len as int),
    {
        let e = &self.engram;
        let sites: usize = e.sites.len();
        proof {
            let a = self.num_kv_heads * cache_len;
            assert(a >= 0) by (nonlinear_arith)
                requires
                    a == self.num_kv_heads * cache_len,
            ;
            if self.head_dim > 0 {
                assert(a <= a * self.head_dim) by (nonlinear_arith)
                    requires
                        a >= 0,
                        self.head_dim >= 1,
                ;
            } else {
                assert(a * self.head_dim == 0) by (nonlinear_arith)
                    requires
                        self.head_dim == 0,
                ;
            }
        }
        let keys: bool = self.head_dim == 0 || match self.num_kv_heads.checked_mul(cache_len) {
            Some(a) => product_fits(a, self.head_dim),
            None => false,
        };
        if !keys {
            return false;
        }
        let window: usize = if sites == 0 {
            0
        } else {
            match e.conv_taps.checked_mul(e.conv_dilation) {
                Some(w) => w,
                None => return false,
            }
        };
        if window == usize::MAX {
            return false;
        }
        proof {
            let b = sites * (window + 1);
            assert(b >= 0) by (nonlinear_arith)
                requires
                    b == sites * (window + 1),
                    sites >= 0,
                    window >= 0,
            ;
            if self.d_model > 0 {
                assert(b <= b * self.d_model) by (nonlinear_arith)
                    requires
                        b >= 0,
                        self.d_model >= 1,
                ;
            } else {
                assert(b * self.d_model == 0) by (nonlinear_arith)
                    requires
                        self.d_model == 0,
                ;
            }
        }
        self.d_model == 0 || match sites.checked_mul(window + 1) {
            Some(b) => product_fits(b, self.d_model),
            None => false,
        }
    }

    /// Whether the widths of a chunk's buffers can be counted.
    pub fn widths_can_be_counted(&self) -> (r: bool)
        ensures
            r == widths_fit(*self),
    {
        product_fits(self.num_heads, self.head_dim) && product_fits(
            self.engram.sites.len(),
            self.d_model,
        )
    }

    /// Whether the cells of a longest sequence can be counted.
    pub fn cells_can_be_counted(&self) -> (r: bool)
        requires
            self.num_layers < usize::MAX,
        ensures
            r == cells_fit(*self),
    {
        product_fits(self.max_seq_len, self.num_layers + 1)
    }
}

impl V2Engine {
    /// Whether replies can be generated: there is a tokenizer to encode with, the
    /// matrices fit the geometry, and the buffers can be counted.
    pub fn ready_to_generate(&self) -> (r: bool)
        requires
            self.wf(),
        ensures
            r == (self.can_encode() && runnable(self.bundle.model) && widths_fit(
                self.bundle.model.cfg,
            ) && state_fits(self.bundle.model.cfg, ring_width(self.bundle.model.cfg))),
    {
        let c = &self.bundle.model.cfg;
        let ring: usize = if c.kv_window == 0 || c.kv_window > c.max_seq_len {
            c.max_seq_len
        } else {
            c.kv_window
        };
        self.encodes() && self.bundle.model.is_runnable() && c.widths_can_be_counted()
            && c.state_can_be_counted(ring)
    }

    /// Whether the heads can be run over a text: a tokenizer, where there is one,
    /// can encode, the matrices fit the geometry, and the buffers can be counted.
    pub fn ready_to_embed(&self) -> (r: bool)
        requires
            self.wf(),
        ensures
            r == ((self.bundle.tokenizer is Some ==> self.can_encode()) && runnable(
                self.bundle.model,
            ) && cells_fit(self.bundle.model.cfg) && state_fits(
                self.bundle.model.cfg,
                self.bundle.model.cfg.max_seq_len as int,
            )),
    {
        let c = &self.bundle.model.cfg;
        let encodes: bool = match &self.bundle.tokenizer {
            Some(_) => self.encodes(),
            None => true,
        };
        proof {
            let m = c.max_seq_len as int;
            let l = c.num_layers as int;
            if l == usize::MAX {
                assert(m * (l + 1) > usize::MAX) by (nonlinear_arith)
                    requires
                        m >= 1,
                        l == usize::MAX,
                ;
            }
        }
        encodes && self.bundle.model.is_runnable() && c.num_layers < usize::MAX
            && c.cells_can_be_counted() && c.state_can_be_counted(c.max_seq_len)
    }
}

} // verus!
