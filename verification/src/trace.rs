//! The points at which a forward pass can be looked into, and what stands at each.

use crate::lanes::{input_gates, lane_matrix, output_gates, router_input};
use crate::pass::{embedding_of, recall_gate, site_at, Pass};
use vstd::prelude::*;

verus! {

/// What one layer leaves at one position.
#[derive(Debug, PartialEq)]
pub struct LayerTrace {
    /// The input gates of the lanes.
    pub hpre: Vec<u32>,
    /// The lanes mixed by them.
    pub u: Vec<u32>,
    /// The same with memory, where the layer carries a site.
    pub bx: Vec<u32>,
    /// How strongly memory was recalled, where the layer carries a site.
    pub alpha: Option<u32>,
    /// What the block gave, less `u`.
    pub y: Vec<u32>,
    /// The output gates of the lanes.
    pub hpost: Vec<u32>,
    /// The mixing matrix of the lanes.
    pub hres: Vec<u32>,
    /// The lanes after the layer.
    pub x: Vec<u32>,
}

/// What a forward pass leaves at one position, but for the scores.
#[derive(Debug, PartialEq)]
pub struct Trace {
    /// The scaled embedding, before it is put on the lanes.
    pub embed: Vec<u32>,
    /// The memory key of the first site, where there is one.
    pub engram_k0: Option<Vec<u32>>,
    /// The convolved memory value of the first site, where there is one.
    pub engram_v0: Option<Vec<u32>>,
    /// The layers from the first to the last.
    pub layers: Vec<LayerTrace>,
    /// The mean of the lanes after the last layer.
    pub lane_mean: Vec<u32>,
    /// The same normed: the hidden state.
    pub final_norm: Vec<u32>,
}

impl Pass {
    /// The input gates of a layer with these lanes.
    pub open spec fn gates_in(self, layer: int, lanes: Seq<u32>) -> Seq<u32> {
        let xh = router_input(self.n, self.m.mhc, lanes);
        input_gates(self.n, self.m.cfg, self.m.mhc, xh, layer)
    }

    /// The output gates of a layer with these lanes.
    pub open spec fn gates_out(self, layer: int, lanes: Seq<u32>) -> Seq<u32> {
        let xh = router_input(self.n, self.m.mhc, lanes);
        output_gates(self.n, self.m.cfg, self.m.mhc, xh, layer)
    }

    /// The mixing matrix of a layer with these lanes.
    pub open spec fn mixing(self, layer: int, lanes: Seq<u32>) -> Seq<u32> {
        let xh = router_input(self.n, self.m.mhc, lanes);
        lane_matrix(self.n, self.m.cfg, self.m.mhc, xh, layer)
    }

    /// How strongly a layer recalls its memory, where it carries a site.
    pub open spec fn alpha(self, layer: int, pos: int, lanes: Seq<u32>) -> Option<u32> {
        match site_at(self.m.cfg.engram, layer) {
            Some(site) => Some(
                recall_gate(self.n, self.m.cfg, self.input(layer, lanes), self.key(site, pos)),
            ),
            None => None,
        }
    }
}

/// `t` is what a layer of a pass leaves at a position.
pub open spec fn is_layer_trace(t: LayerTrace, p: Pass, layer: int, pos: int) -> bool {
    let lanes = p.lanes(layer, pos);
    &&& t.hpre@ == p.gates_in(layer, lanes)
    &&& t.u@ == p.input(layer, lanes)
    &&& t.bx@ == p.block_in(layer, pos, lanes)
    &&& t.alpha == p.alpha(layer, pos, lanes)
    &&& t.y@ == p.block_out(layer, pos, lanes, p.rows(layer, pos + 1))
    &&& t.hpost@ == p.gates_out(layer, lanes)
    &&& t.hres@ == p.mixing(layer, lanes)
    &&& t.x@ == p.lanes(layer + 1, pos)
    &&& t.x@.len() == p.m.cfg.mhc_lanes * p.m.cfg.d_model
}

/// `t` is what a pass leaves at a position.
pub open spec fn is_trace(t: Trace, p: Pass, pos: int) -> bool {
    let c = p.m.cfg;
    let last = p.lanes(c.num_layers as int, pos);
    &&& t.embed@ == embedding_of(p.n, p.m, p.tokens[pos])
    &&& t.embed@.len() == c.d_model
    &&& if c.engram.sites@.len() > 0 {
        &&& t.engram_k0 is Some
        &&& t.engram_v0 is Some
        &&& t.engram_k0->0@ == p.key(0, pos)
        &&& t.engram_v0->0@ == p.recalled(0, pos)
    } else {
        t.engram_k0 is None && t.engram_v0 is None
    }
    &&& t.layers@.len() == c.num_layers
    &&& forall|l: int|
        0 <= l < c.num_layers ==> is_layer_trace(#[trigger] t.layers@[l], p, l, pos)
    &&& t.lane_mean@ == p.pooled(last)
    &&& t.final_norm@ == p.hidden(pos)
}

} // verus!
