//! Model configuration.

use crate::pow2::{check_pow2, is_pow2};
use vstd::arithmetic::div_mod::*;
use vstd::prelude::*;

verus! {

/// The first position that holds `x`.
pub fn position_of(v: &Vec<usize>, x: usize) -> (r: Option<usize>)
    ensures
        match r {
            Some(k) => k < v@.len() && v@[k as int] == x && forall|j: int| 0 <= j < k ==> v@[j] != x,
            None => forall|j: int| 0 <= j < v@.len() ==> v@[j] != x,
        },
{
    let mut k: usize = 0;
    while k < v.len()
        invariant
            k <= v@.len(),
            forall|j: int| 0 <= j < k ==> v@[j] != x,
        decreases v@.len() - k,
    {
        if v[k] == x {
            return Some(k);
        }
        k = k + 1;
    }
    None
}

/// Geometry of the n-gram memory.
#[derive(Debug, Clone, PartialEq, Eq)]
pub struct EngramGeometry {
    /// Rows of one hash table.
    pub slots: usize,
    /// Width of one table entry.
    pub sub_dim: usize,
    /// Number of hash tables.
    pub num_tables: usize,
    /// Taps of the causal convolution over the values.
    pub conv_taps: usize,
    /// Distance between taps.
    pub conv_dilation: usize,
    /// n-gram orders, each with an equal share of the tables.
    pub orders: Vec<usize>,
    /// Layers that carry a site.
    pub sites: Vec<usize>,
}

/// Width of all tables' entries together.
pub open spec fn fetched_width(e: EngramGeometry) -> int {
    e.num_tables * e.sub_dim
}

/// How many positions back the value convolution reaches.
pub open spec fn value_window(e: EngramGeometry) -> int {
    if e.sites@.len() == 0 {
        0
    } else {
        e.conv_taps * e.conv_dilation
    }
}

/// Tables of one order.
pub open spec fn tables_per_order(e: EngramGeometry) -> int {
    if e.orders@.len() == 0 {
        0
    } else {
        e.num_tables as int / e.orders@.len() as int
    }
}

impl EngramGeometry {
    /// Tables of one order.
    pub fn heads(&self) -> (n: usize)
        ensures
            n == tables_per_order(*self),
    {
        if self.orders.len() == 0 {
            0
        } else {
            self.num_tables / self.orders.len()
        }
    }

    /// Width of all tables' entries together.
    pub fn fetched_dim(&self) -> (n: usize)
        requires
            fetched_width(*self) <= usize::MAX,
        ensures
            n == fetched_width(*self),
    {
        self.num_tables * self.sub_dim
    }

    /// How many positions back the value convolution reaches.
    pub fn window(&self) -> (n: usize)
        requires
            value_window(*self) <= usize::MAX,
        ensures
            n == value_window(*self),
    {
        if self.sites.len() == 0 {
            0
        } else {
            self.conv_taps * self.conv_dilation
        }
    }

    /// The site of a layer, if it carries one: the first that names it.
    pub fn site_of_layer(&self, layer: usize) -> (r: Option<usize>)
        ensures
            match r {
                Some(k) => k < self.sites@.len() && self.sites@[k as int] == layer && forall|j: int|
                    0 <= j < k ==> self.sites@[j] != layer,
                None => forall|j: int| 0 <= j < self.sites@.len() ==> self.sites@[j] != layer,
            },
    {
        position_of(&self.sites, layer)
    }
}

/// Full model geometry.
#[derive(Debug, Clone, PartialEq)]
pub struct V2Config {
    pub vocab_size: usize,
    pub d_model: usize,
    pub num_heads: usize,
    pub num_kv_heads: usize,
    pub num_layers: usize,
    pub head_dim: usize,
    pub max_seq_len: usize,
    /// Transform width: a power of two that is at least `d_model`.
    pub hada_n: usize,
    pub mhc_lanes: usize,
    /// Float bits.
    pub rope_theta: u32,
    /// Sliding attention window. Zero means full causal attention.
    pub kv_window: usize,
    pub engram: EngramGeometry,
}

/// What is wrong with a configuration, if anything is.
pub open spec fn config_fault(c: V2Config) -> Option<&'static str> {
    let e = c.engram;
    if c.num_heads == 0 || c.num_kv_heads == 0 {
        Some("head counts must be non-zero")
    } else if c.num_heads as int % c.num_kv_heads as int != 0 {
        Some("num_heads must be divisible by num_kv_heads")
    } else if c.head_dim == 0 || c.head_dim as int % 2 != 0 {
        Some("head_dim must be even (RoPE rotates half-splits)")
    } else if c.d_model == 0 || c.mhc_lanes == 0 || c.num_layers == 0 {
        Some("d_model, mhc_lanes and num_layers must be non-zero")
    } else if !is_pow2(c.hada_n as int) || c.hada_n < c.d_model {
        Some("hada_n must be a power of two at or above d_model")
    } else if c.vocab_size == 0 || c.max_seq_len == 0 {
        Some("vocab_size and max_seq_len must be non-zero")
    } else if e.sites@.len() == 0 {
        None
    } else if e.orders@.len() == 0 || e.num_tables == 0 || e.sub_dim == 0 || e.slots == 0 {
        Some("engram geometry incomplete")
    } else if e.num_tables as int % e.orders@.len() as int != 0 {
        Some("num_tables must be divisible by the order count")
    } else if exists|k: int| 0 <= k < e.sites@.len() && e.sites@[k] >= c.num_layers {
        Some("engram site beyond num_layers")
    } else if fetched_width(e) != c.d_model {
        Some("engram fetched_dim must equal d_model")
    } else {
        None
    }
}

/// The lane that a layer is assigned to.
pub open spec fn lane_of(c: V2Config, layer: int) -> int {
    layer % (c.mhc_lanes as int)
}

/// The key head that a query head shares.
pub open spec fn kv_head(c: V2Config, head: int) -> int {
    head / (c.num_heads as int / c.num_kv_heads as int)
}

/// There are no more key heads than query heads, and a whole number of query
/// heads for each.
pub proof fn lemma_kv_heads(c: V2Config)
    requires
        config_fault(c) is None,
    ensures
        c.num_kv_heads <= c.num_heads,
        c.num_heads as int / c.num_kv_heads as int > 0,
        c.num_heads == c.num_kv_heads * (c.num_heads as int / c.num_kv_heads as int),
{
    let h = c.num_heads as int;
    let k = c.num_kv_heads as int;
    if k > h {
        lemma_small_mod(h as nat, k as nat);
    }
    lemma_fundamental_div_mod(h, k);
    let q = h / k;
    assert(q > 0) by (nonlinear_arith)
        requires
            h == k * q,
            h > 0,
            k > 0,
    ;
}

/// Query heads are shared out in blocks of neighbours: the first so many share the
/// first key head, the next the second, and so on.
pub proof fn law_query_heads_share_key_heads_in_blocks(c: V2Config, k: int, i: int)
    requires
        config_fault(c) is None,
        0 <= k < c.num_kv_heads,
        0 <= i < c.num_heads as int / c.num_kv_heads as int,
    ensures
        0 <= k * (c.num_heads as int / c.num_kv_heads as int) + i < c.num_heads,
        kv_head(c, k * (c.num_heads as int / c.num_kv_heads as int) + i) == k,
{
    lemma_kv_heads(c);
    let q = c.num_heads as int / c.num_kv_heads as int;
    let h = k * q + i;
    assert(h == q * k + i && 0 <= h < c.num_kv_heads * q) by (nonlinear_arith)
        requires
            h == k * q + i,
            0 <= k,
            k + 1 <= c.num_kv_heads,
            0 <= i < q,
    ;
    lemma_fundamental_div_mod_converse(h, q, k, i);
}

/// Layers take the lanes in turn: the first layer the first lane, every next layer
/// the next lane, and behind the last lane the first again.
pub proof fn law_layers_take_the_lanes_in_turn(c: V2Config, layer: int)
    requires
        c.mhc_lanes > 0,
        0 <= layer,
    ensures
        lane_of(c, 0) == 0,
        lane_of(c, layer + 1) == if lane_of(c, layer) + 1 == c.mhc_lanes {
            0
        } else {
            lane_of(c, layer) + 1
        },
{
    let n = c.mhc_lanes as int;
    lemma_small_mod(0, n as nat);
    lemma_mod_bound(layer, n);
    lemma_fundamental_div_mod(layer, n);
    let (q, r) = (layer / n, layer % n);
    if r + 1 == n {
        assert(layer + 1 == n * (q + 1) + 0) by (nonlinear_arith)
            requires
                layer == n * q + r,
                r + 1 == n,
        ;
        lemma_fundamental_div_mod_converse(layer + 1, n, q + 1, 0);
    } else {
        lemma_fundamental_div_mod_converse(layer + 1, n, q, r + 1);
    }
}

/// Bits of the float 4.
pub const FOUR: u32 = 0x4080_0000;

/// Bits of the float -4.
pub const MINUS_FOUR: u32 = 0xC080_0000;

impl V2Config {
    /// Attention width.
    pub fn attn_dim(&self) -> (n: usize)
        requires
            self.num_heads * self.head_dim <= usize::MAX,
        ensures
            n == self.num_heads * self.head_dim,
    {
        self.num_heads * self.head_dim
    }

    /// Width of the key or value projection.
    pub fn kv_dim(&self) -> (n: usize)
        requires
            self.num_kv_heads * self.head_dim <= usize::MAX,
        ensures
            n == self.num_kv_heads * self.head_dim,
    {
        self.num_kv_heads * self.head_dim
    }

    /// Query heads that share a key head.
    pub fn kv_repeat(&self) -> (n: usize)
        requires
            self.num_kv_heads > 0,
        ensures
            n == self.num_heads as int / self.num_kv_heads as int,
    {
        self.num_heads / self.num_kv_heads
    }

    /// The key head that a query head shares.
    pub fn kv_head_of(&self, head: usize) -> (r: usize)
        requires
            config_fault(*self) is None,
            head < self.num_heads,
        ensures
            r == kv_head(*self, head as int),
            r < self.num_kv_heads,
            r * (self.num_heads as int / self.num_kv_heads as int) <= head,
            head < (r + 1) * (self.num_heads as int / self.num_kv_heads as int),
    {
        proof {
            lemma_kv_heads(*self);
            let k = self.num_kv_heads as int;
            let q = self.num_heads as int / k;
            lemma_fundamental_div_mod(head as int, q);
            lemma_mod_bound(head as int, q);
            let r = head as int / q;
            assert(r < k) by (nonlinear_arith)
                requires
                    q * r <= head,
                    head < k * q,
                    q > 0,
            ;
            lemma_div_pos_is_pos(head as int, q);
            assert(r * q <= head && head < (r + 1) * q) by (nonlinear_arith)
                requires
                    head == q * r + head as int % q,
                    0 <= head as int % q < q,
            ;
        }
        head / self.kv_repeat()
    }

    /// Width of all lanes together.
    pub fn mhc_width(&self) -> (n: usize)
        requires
            self.mhc_lanes * self.d_model <= usize::MAX,
        ensures
            n == self.mhc_lanes * self.d_model,
    {
        self.mhc_lanes * self.d_model
    }

    /// The lane that a layer is assigned to.
    pub fn active_lane(&self, layer: usize) -> (lane: usize)
        requires
            self.mhc_lanes > 0,
        ensures
            lane == lane_of(*self, layer as int),
    {
        layer % self.mhc_lanes
    }

    /// Offset before the input gate of a lane: 4 for the assigned lane, -4 for
    /// the others. Float bits.
    pub fn pre_off(&self, layer: usize, lane: usize) -> (v: u32)
        requires
            self.mhc_lanes > 0,
        ensures
            v == if lane == lane_of(*self, layer as int) {
                FOUR
            } else {
                MINUS_FOUR
            },
    {
        if lane == self.active_lane(layer) {
            FOUR
        } else {
            MINUS_FOUR
        }
    }

    /// Offset before the output gate of a lane: 0 for the assigned lane, -4 for
    /// the others. Float bits.
    pub fn post_off(&self, layer: usize, lane: usize) -> (v: u32)
        requires
            self.mhc_lanes > 0,
        ensures
            v == if lane == lane_of(*self, layer as int) {
                0
            } else {
                MINUS_FOUR
            },
    {
        if lane == self.active_lane(layer) {
            0
        } else {
            MINUS_FOUR
        }
    }

    /// Check the geometry.
    pub fn validate(&self) -> (r: Result<(), &'static str>)
        ensures
            match config_fault(*self) {
                Some(e) => r is Err && r->Err_0 == e,
                None => r is Ok,
            },
    {
        if self.num_heads == 0 || self.num_kv_heads == 0 {
            return Err("head counts must be non-zero");
        }
        if self.num_heads % self.num_kv_heads != 0 {
            return Err("num_heads must be divisible by num_kv_heads");
        }
        if self.head_dim == 0 || self.head_dim % 2 != 0 {
            return Err("head_dim must be even (RoPE rotates half-splits)");
        }
        if self.d_model == 0 || self.mhc_lanes == 0 || self.num_layers == 0 {
            return Err("d_model, mhc_lanes and num_layers must be non-zero");
        }
        if !check_pow2(self.hada_n) || self.hada_n < self.d_model {
            return Err("hada_n must be a power of two at or above d_model");
        }
        if self.vocab_size == 0 || self.max_seq_len == 0 {
            return Err("vocab_size and max_seq_len must be non-zero");
        }
        let e = &self.engram;
        if e.sites.len() == 0 {
            return Ok(());
        }
        if e.orders.len() == 0 || e.num_tables == 0 || e.sub_dim == 0 || e.slots == 0 {
            return Err("engram geometry incomplete");
        }
        if e.num_tables % e.orders.len() != 0 {
            return Err("num_tables must be divisible by the order count");
        }
        if any_at_least(&e.sites, self.num_layers) {
            return Err("engram site beyond num_layers");
        }
        let fits: bool = match e.num_tables.checked_mul(e.sub_dim) {
            Some(p) => p == self.d_model,
            None => false,
        };
        if !fits {
            return Err("engram fetched_dim must equal d_model");
        }
        Ok(())
    }
}

fn any_at_least(v: &Vec<usize>, bound: usize) -> (r: bool)
    ensures
        r == exists|k: int| 0 <= k < v@.len() && v@[k] >= bound,
{
    let mut k: usize = 0;
    while k < v.len()
        invariant
            k <= v@.len(),
            forall|j: int| 0 <= j < k ==> v@[j] < bound,
        decreases v@.len() - k,
    {
        if v[k] >= bound {
            return true;
        }
        k = k + 1;
    }
    false
}

/// A configuration is sound where no size of the model is zero, heads are shared evenly
/// and have an even width, the Hadamard width is a power of two that holds the model
/// width, and the memory, where there is a site for it, fits: its tables share the
/// orders evenly, together have the model width, and every site is a layer.
pub proof fn law_sound_configurations_are_accepted(c: V2Config)
    ensures
        config_fault(c) is None <==> {
            let e = c.engram;
            &&& c.num_heads != 0 && c.num_kv_heads != 0 && c.head_dim != 0 && c.d_model != 0
            &&& c.mhc_lanes != 0 && c.num_layers != 0 && c.vocab_size != 0 && c.max_seq_len != 0
            &&& c.num_heads as int % c.num_kv_heads as int == 0
            &&& c.head_dim as int % 2 == 0
            &&& is_pow2(c.hada_n as int) && c.d_model <= c.hada_n
            &&& e.sites@.len() > 0 ==> {
                &&& e.orders@.len() != 0 && e.num_tables != 0 && e.sub_dim != 0 && e.slots != 0
                &&& e.num_tables as int % e.orders@.len() as int == 0
                &&& e.num_tables * e.sub_dim == c.d_model
                &&& forall|k: int|
                    0 <= k < e.sites@.len() ==> (#[trigger] e.sites@[k]) < c.num_layers
            }
        },
{
}

} // verus!
