//! What the model computes at every position of a sequence, said without rings
//! or chunks: each position's streams as a function of the tokens up to it.

use crate::arith::Num;
use crate::attention::{attention_of, block_input, block_output, kv_of, layer_fits, KvRow};
use crate::batch::recalls;
use crate::blocks::VectorOps;
use crate::config::{EngramGeometry, V2Config};
use crate::dot::dot_in_order;
use crate::engram::law_entries_look_back_only;
use crate::forward::is_site_of;
use crate::kernels::unit_rms;
use crate::lanes::{add_scaled, lanes_after, layer_input, router_fits};
use crate::memory::{convolved, fetched, products, site_fits, site_key, site_value};
use crate::model::V2Model;
use crate::rotate::{prepared, row_weights};
use crate::state::{is_sized, remembers, window_start, V2State};
use vstd::prelude::*;

verus! {

/// An arithmetic, a model, an attention window and a sequence of tokens.
pub struct Pass {
    pub n: Num<u32>,
    pub o: VectorOps,
    pub m: V2Model,
    pub window: int,
    pub tokens: Seq<u32>,
}

/// The scaled embedding of a token.
pub open spec fn embedding_of(n: Num<u32>, m: V2Model, token: u32) -> Seq<u32> {
    let scale = n.root(n.number(m.cfg.d_model as int));
    row_weights(n, m.embedding, token as int).map_values(|v: u32| n.times(v, scale))
}

/// The lanes at the start: the embedding on every lane.
pub open spec fn first_lanes(n: Num<u32>, m: V2Model, token: u32) -> Seq<u32> {
    let d = m.cfg.d_model as int;
    Seq::new((m.cfg.mhc_lanes * d) as nat, |k: int| embedding_of(n, m, token)[k % d])
}

/// How strongly a layer's input recalls a memory key.
pub open spec fn recall_gate(n: Num<u32>, c: V2Config, u: Seq<u32>, key: Seq<u32>) -> u32 {
    n.sigmoid(
        n.over(
            dot_in_order(n, unit_rms(n, u), unit_rms(n, key)),
            n.root(n.number(c.d_model as int)),
        ),
    )
}

/// A layer's input with the gated memory of its site added.
pub open spec fn with_memory(
    n: Num<u32>,
    c: V2Config,
    u: Seq<u32>,
    key: Seq<u32>,
    value: Seq<u32>,
) -> Seq<u32> {
    add_scaled(n, u, recall_gate(n, c, u, key), value)
}

/// The site of a layer, if it carries one.
pub open spec fn site_at(e: EngramGeometry, layer: int) -> Option<int> {
    if exists|site: int| is_site_of(e, layer, site) {
        Some(choose|site: int| is_site_of(e, layer, site))
    } else {
        None
    }
}

impl Pass {
    /// The memory values of a site at the first `k` positions.
    pub open spec fn values(self, site: int, k: int) -> Seq<Seq<u32>> {
        Seq::new(
            k as nat,
            |q: int| site_value(self.n, self.m.cfg, self.m.engrams@[site], self.tokens, q),
        )
    }

    /// The memory key of a site at a position.
    pub open spec fn key(self, site: int, pos: int) -> Seq<u32> {
        site_key(self.n, self.m.cfg, self.m.engrams@[site], self.tokens, pos)
    }

    /// The convolved memory value of a site at a position.
    pub open spec fn recalled(self, site: int, pos: int) -> Seq<u32> {
        convolved(
            self.n,
            self.m.cfg,
            self.m.engrams@[site].taps@,
            self.values(site, pos + 1),
            pos,
        )
    }

    /// What a layer reads from the lanes.
    pub open spec fn input(self, layer: int, lanes: Seq<u32>) -> Seq<u32> {
        layer_input(self.n, self.m.cfg, self.m.mhc, lanes, layer)
    }

    /// The same with memory, where the layer carries a site.
    pub open spec fn block_in(self, layer: int, pos: int, lanes: Seq<u32>) -> Seq<u32> {
        let u = self.input(layer, lanes);
        match site_at(self.m.cfg.engram, layer) {
            Some(site) => with_memory(
                self.n,
                self.m.cfg,
                u,
                self.key(site, pos),
                self.recalled(site, pos),
            ),
            None => u,
        }
    }

    /// What a layer's projections read at a position with these lanes.
    pub open spec fn projected(self, layer: int, pos: int, lanes: Seq<u32>) -> Seq<u32> {
        block_input(self.n, self.o, self.m.layers@[layer], self.block_in(layer, pos, lanes))
    }

    /// Key and value of a layer at a position with these lanes.
    pub open spec fn kv(self, layer: int, pos: int, lanes: Seq<u32>) -> KvRow {
        kv_of(
            self.n,
            self.o,
            self.m.cfg,
            self.m.layers@[layer],
            self.projected(layer, pos, lanes),
            pos,
        )
    }

    /// What a layer attends to at a position, with the keys and values up to it.
    pub open spec fn attention(self, layer: int, pos: int) -> Seq<u32> {
        attention_of(
            self.n,
            self.o,
            self.m.cfg,
            self.m.layers@[layer],
            self.projected(layer, pos, self.lanes(layer, pos)),
            self.rows(layer, pos + 1),
            self.window,
            pos,
        )
    }

    /// What a layer gives at a position, less what it read.
    pub open spec fn block_out(
        self,
        layer: int,
        pos: int,
        lanes: Seq<u32>,
        rows: Seq<KvRow>,
    ) -> Seq<u32> {
        let l = self.m.layers@[layer];
        let att = attention_of(
            self.n,
            self.o,
            self.m.cfg,
            l,
            self.projected(layer, pos, lanes),
            rows,
            self.window,
            pos,
        );
        block_output(
            self.n,
            self.o,
            l,
            self.block_in(layer, pos, lanes),
            self.input(layer, lanes),
            att,
        )
    }

    /// The lanes at a position before layer `layer`. Every layer reads the keys
    /// and values that it gave at all positions up to this one.
    pub open spec fn lanes(self, layer: int, pos: int) -> Seq<u32>
        decreases layer, 0int,
    {
        if layer <= 0 {
            first_lanes(self.n, self.m, self.tokens[pos])
        } else {
            let before = self.lanes(layer - 1, pos);
            lanes_after(
                self.n,
                self.m.cfg,
                self.m.mhc,
                before,
                self.block_out(layer - 1, pos, before, self.rows(layer - 1, pos + 1)),
                layer - 1,
            )
        }
    }

    /// Keys and values of a layer at the first `k` positions.
    pub open spec fn rows(self, layer: int, k: int) -> Seq<KvRow>
        decreases layer, k,
    {
        if k <= 0 {
            Seq::empty()
        } else {
            self.rows(layer, k - 1).push(self.kv(layer, k - 1, self.lanes(layer, k - 1)))
        }
    }

    /// Entry `c` of the sum of the first `k` lanes.
    pub open spec fn lane_sum(self, lanes: Seq<u32>, k: int, c: int) -> u32
        decreases k,
    {
        if k <= 0 {
            self.n.zero
        } else {
            self.n.plus(
                self.lane_sum(lanes, k - 1, c),
                lanes[(k - 1) * self.m.cfg.d_model + c],
            )
        }
    }

    /// The mean of the lanes.
    pub open spec fn pooled(self, lanes: Seq<u32>) -> Seq<u32> {
        let l = self.m.cfg.mhc_lanes as int;
        Seq::new(
            self.m.cfg.d_model as nat,
            |c: int| self.n.over(self.lane_sum(lanes, l, c), self.n.number(l)),
        )
    }

    /// The hidden state of a position.
    pub open spec fn hidden(self, pos: int) -> Seq<u32> {
        (self.o.norm)(
            self.pooled(self.lanes(self.m.cfg.num_layers as int, pos)),
            self.m.final_norm@,
        )
    }

    /// The scores over the vocabulary at a position.
    pub open spec fn scores(self, pos: int) -> Seq<u32> {
        products(
            self.n,
            self.m.embedding,
            prepared(self.n, self.m.embedding, self.hidden(pos)),
            self.m.cfg.vocab_size as int,
        )
    }
}

/// All matrices of a model have the shapes that a pass needs.
pub open spec fn runnable(m: V2Model) -> bool {
    &&& m.wf()
    &&& m.embedding.wf()
    &&& router_fits(m.cfg, m.mhc)
    &&& forall|l: int| 0 <= l < m.layers@.len() ==> layer_fits(m.cfg, #[trigger] m.layers@[l])
    &&& forall|s: int| 0 <= s < m.engrams@.len() ==> site_fits(m.cfg, #[trigger] m.engrams@[s])
    &&& m.cfg.max_seq_len < usize::MAX
    &&& m.cfg.vocab_size <= u32::MAX
}

/// A state holds what the first `k` positions of a pass left: the tokens, and in
/// the rings the last keys, values and memory values.
pub open spec fn in_step(s: V2State<u32>, p: Pass, k: int) -> bool {
    &&& s.wf()
    &&& is_sized(s, p.m.cfg, s.cache_len as int)
    &&& s.kv_window == p.window
    &&& 0 <= k <= p.tokens.len()
    &&& k <= s.history@.len()
    &&& forall|q: int| 0 <= q < k ==> #[trigger] s.history@[q] == p.tokens[q]
    &&& forall|l: int|
        0 <= l < p.m.cfg.num_layers ==> remembers(s, l, #[trigger] p.rows(l, k))
    &&& forall|e: int|
        0 <= e < p.m.cfg.engram.sites@.len() ==> recalls(s, e, #[trigger] p.values(e, k))
}

proof fn lemma_memory_causal(a: Pass, b: Pass, site: int, pos: int)
    requires
        a.n == b.n,
        a.m == b.m,
        0 <= pos < a.tokens.len(),
        pos < b.tokens.len(),
        forall|q: int| 0 <= q <= pos ==> #[trigger] a.tokens[q] == b.tokens[q],
    ensures
        a.key(site, pos) == b.key(site, pos),
        site_value(a.n, a.m.cfg, a.m.engrams@[site], a.tokens, pos) == site_value(
            b.n,
            b.m.cfg,
            b.m.engrams@[site],
            b.tokens,
            pos,
        ),
{
    let e = a.m.cfg.engram;
    let s = a.m.engrams@[site];
    let fa = fetched(a.n, e, s.tables, a.tokens, pos);
    let fb = fetched(b.n, e, s.tables, b.tokens, pos);
    assert forall|t: int| crate::engram::entry_row(e, a.tokens, pos, t)
        == crate::engram::entry_row(e, b.tokens, pos, t) by {
        law_entries_look_back_only(e, a.tokens, b.tokens, pos, t);
    }
    assert(fa =~= fb);
}

proof fn lemma_values_causal(a: Pass, b: Pass, site: int, k: int)
    requires
        a.n == b.n,
        a.m == b.m,
        0 <= k <= a.tokens.len(),
        k <= b.tokens.len(),
        forall|q: int| 0 <= q < k ==> #[trigger] a.tokens[q] == b.tokens[q],
    ensures
        a.values(site, k) == b.values(site, k),
{
    assert forall|q: int| 0 <= q < k implies a.values(site, k)[q] == b.values(site, k)[q] by {
        lemma_memory_causal(a, b, site, q);
    }
    assert(a.values(site, k) =~= b.values(site, k));
}

/// The rows of a layer are what it gave position by position.
pub proof fn lemma_rows(p: Pass, layer: int, k: int)
    requires
        0 <= k,
    ensures
        p.rows(layer, k).len() == k,
        forall|q: int|
            0 <= q < k ==> #[trigger] p.rows(layer, k)[q] == p.kv(layer, q, p.lanes(layer, q)),
    decreases k,
{
    if k > 0 {
        lemma_rows(p, layer, k - 1);
    }
}

/// The lanes at a position depend on the tokens up to it alone: what comes later
/// changes nothing.
pub proof fn law_later_tokens_change_nothing(a: Pass, b: Pass, layer: int, pos: int)
    requires
        a.n == b.n,
        a.o == b.o,
        a.m == b.m,
        a.window == b.window,
        0 <= pos < a.tokens.len(),
        pos < b.tokens.len(),
        forall|q: int| 0 <= q <= pos ==> #[trigger] a.tokens[q] == b.tokens[q],
    ensures
        a.lanes(layer, pos) == b.lanes(layer, pos),
        a.kv(layer, pos, a.lanes(layer, pos)) == b.kv(layer, pos, b.lanes(layer, pos)),
    decreases layer,
{
    lemma_block_in_causal(a, b, layer, pos, a.lanes(layer, pos));
    if layer > 0 {
        law_later_tokens_change_nothing(a, b, layer - 1, pos);
        let ra = a.rows(layer - 1, pos + 1);
        let rb = b.rows(layer - 1, pos + 1);
        lemma_rows(a, layer - 1, pos + 1);
        lemma_rows(b, layer - 1, pos + 1);
        assert forall|q: int| 0 <= q < pos + 1 implies ra[q] == rb[q] by {
            law_later_tokens_change_nothing(a, b, layer - 1, q);
        }
        assert(ra =~= rb);
        lemma_block_in_causal(a, b, layer - 1, pos, a.lanes(layer - 1, pos));
    } else {
        assert(a.tokens[pos] == b.tokens[pos]);
    }
}

/// Attention at a position is the same whether the positions behind it are there
/// or not: in a chunk it gives what it gives token by token, and so do the keys and
/// values that it leaves.
pub proof fn law_chunks_attend_as_steps_do(chunk: Pass, step: Pass, layer: int, pos: int)
    requires
        chunk.n == step.n,
        chunk.o == step.o,
        chunk.m == step.m,
        chunk.window == step.window,
        0 <= pos < chunk.tokens.len(),
        pos < step.tokens.len(),
        forall|q: int| 0 <= q <= pos ==> #[trigger] chunk.tokens[q] == step.tokens[q],
    ensures
        chunk.attention(layer, pos) == step.attention(layer, pos),
        chunk.rows(layer, pos + 1) == step.rows(layer, pos + 1),
{
    let (a, b) = (chunk.rows(layer, pos + 1), step.rows(layer, pos + 1));
    lemma_rows(chunk, layer, pos + 1);
    lemma_rows(step, layer, pos + 1);
    assert forall|q: int| 0 <= q < pos + 1 implies a[q] == b[q] by {
        law_later_tokens_change_nothing(chunk, step, layer, q);
    }
    assert(a =~= b);
    law_later_tokens_change_nothing(chunk, step, layer, pos);
    lemma_block_in_causal(chunk, step, layer, pos, chunk.lanes(layer, pos));
}

/// While a sequence is no longer than the attention window, the window changes
/// nothing: the lanes are those of a pass that attends to everything.
pub proof fn law_window_matters_beyond_it_only(a: Pass, b: Pass, layer: int, pos: int)
    requires
        a.n == b.n,
        a.o == b.o,
        a.m == b.m,
        a.tokens == b.tokens,
        0 <= pos < a.tokens.len(),
        a.window == 0,
        pos < b.window,
    ensures
        a.lanes(layer, pos) == b.lanes(layer, pos),
        a.kv(layer, pos, a.lanes(layer, pos)) == b.kv(layer, pos, b.lanes(layer, pos)),
    decreases layer,
{
    lemma_block_in_causal(a, b, layer, pos, a.lanes(layer, pos));
    if layer > 0 {
        law_window_matters_beyond_it_only(a, b, layer - 1, pos);
        let ra = a.rows(layer - 1, pos + 1);
        let rb = b.rows(layer - 1, pos + 1);
        lemma_rows(a, layer - 1, pos + 1);
        lemma_rows(b, layer - 1, pos + 1);
        assert forall|q: int| 0 <= q < pos + 1 implies ra[q] == rb[q] by {
            law_window_matters_beyond_it_only(a, b, layer - 1, q);
        }
        assert(ra =~= rb);
        lemma_block_in_causal(a, b, layer - 1, pos, a.lanes(layer - 1, pos));
        assert(window_start(a.window, pos) == window_start(b.window, pos));
    }
}

proof fn lemma_block_in_causal(a: Pass, b: Pass, layer: int, pos: int, lanes: Seq<u32>)
    requires
        a.n == b.n,
        a.o == b.o,
        a.m == b.m,
        0 <= pos < a.tokens.len(),
        pos < b.tokens.len(),
        forall|q: int| 0 <= q <= pos ==> #[trigger] a.tokens[q] == b.tokens[q],
    ensures
        a.block_in(layer, pos, lanes) == b.block_in(layer, pos, lanes),
{
    match site_at(a.m.cfg.engram, layer) {
        Some(site) => {
            lemma_memory_causal(a, b, site, pos);
            lemma_values_causal(a, b, site, pos + 1);
        },
        None => {},
    }
}

/// A state that is in step with a pass is in step with every pass that has the
/// same first tokens.
pub proof fn lemma_in_step_prefix(s: V2State<u32>, a: Pass, b: Pass, k: int)
    requires
        in_step(s, a, k),
        a.n == b.n,
        a.o == b.o,
        a.m == b.m,
        a.window == b.window,
        k <= b.tokens.len(),
        forall|q: int| 0 <= q < k ==> #[trigger] a.tokens[q] == b.tokens[q],
    ensures
        in_step(s, b, k),
{
    assert forall|l: int| 0 <= l < b.m.cfg.num_layers implies remembers(
        s,
        l,
        #[trigger] b.rows(l, k),
    ) by {
        lemma_rows(a, l, k);
        lemma_rows(b, l, k);
        assert forall|q: int| 0 <= q < k implies a.rows(l, k)[q] == b.rows(l, k)[q] by {
            law_later_tokens_change_nothing(a, b, l, q);
        }
        assert(a.rows(l, k) =~= b.rows(l, k));
        assert(remembers(s, l, a.rows(l, k)));
    }
    assert forall|e: int| 0 <= e < b.m.cfg.engram.sites@.len() implies recalls(
        s,
        e,
        #[trigger] b.values(e, k),
    ) by {
        lemma_values_causal(a, b, e, k);
        assert(recalls(s, e, a.values(e, k)));
    }
}

} // verus!
