//! Running the model: one token at a time, or a chunk of tokens together.
//!
//! Both ways keep the state in step with the sequence, and give the scores that
//! the whole sequence has at its last position.

use crate::arith::{Arith, Binary, Num, Unary};
use crate::attention::{attend, attended, finish_block, finish_key, finish_query, layer_fits, query_of, read_block, KvRow};
use crate::batch::{last_on_slot, law_value_ring_follows_a_chunk, recalls, row_of};
use crate::blocks::{Blocks, VectorOps};
use crate::config::V2Config;
use crate::dot::group_dot_serial;
use crate::forward::{fed, is_site_of, step_fault};
use crate::kernels::rms_unit_to;
use crate::lanes::{add_scaled_to, band_products, in_gates, mix_lanes, mix_rows, mixing, out_gates, read_router};
use crate::memory::{convolve, convolved, products, read_site, site_fits, site_value};
use crate::model::V2Model;
use crate::pass::{embedding_of, first_lanes, in_step, lemma_in_step_prefix, lemma_rows, recall_gate, runnable, site_at, Pass};
use crate::rotate::{prepared, row_weights};
use crate::state::{is_sized, law_rings_read_back_what_was_written, remembers, V2State};
use crate::trace::{is_layer_trace, is_trace, LayerTrace, Trace};
use vstd::arithmetic::div_mod::*;
use vstd::prelude::*;
use vstd::slice::slice_subrange;

verus! {

/// The pass over the tokens that a state holds.
pub open spec fn pass_of(n: Num<u32>, o: VectorOps, m: V2Model, s: V2State<u32>) -> Pass {
    Pass { n, o, m, window: s.kv_window as int, tokens: s.history@ }
}

/// A state in the middle of a pass: the layers below `layer` have seen the first
/// `hi` positions, that layer `mid`, the others `lo`. The tokens up to `hi` are
/// recorded.
pub open spec fn mid_pass(
    s: V2State<u32>,
    p: Pass,
    layer: int,
    hi: int,
    mid: int,
    lo: int,
) -> bool {
    &&& s.wf()
    &&& is_sized(s, p.m.cfg, s.cache_len as int)
    &&& s.kv_window == p.window
    &&& s.history@ == p.tokens
    &&& 0 <= lo <= mid <= hi <= p.tokens.len()
    &&& forall|l: int|
        0 <= l < p.m.cfg.num_layers ==> #[trigger] layer_in_step(
            s,
            p,
            l,
            seen(l, layer, hi, mid, lo),
        )
}

/// How many positions layer `l` has seen when layer `layer` is at `mid`.
pub open spec fn seen(l: int, layer: int, hi: int, mid: int, lo: int) -> int {
    if l < layer {
        hi
    } else if l == layer {
        mid
    } else {
        lo
    }
}

/// A layer's rings hold what it gave at the first `k` positions.
pub open spec fn layer_in_step(s: V2State<u32>, p: Pass, layer: int, k: int) -> bool {
    remembers(s, layer, p.rows(layer, k))
}

/// The scaled embedding of a token.
fn embedding<
    U: Fn(Unary, u32) -> u32 + Sync,
    B: Fn(Binary, u32, u32) -> u32 + Sync,
    C: Fn(usize) -> u32 + Sync,
>(ar: &Arith<U, B, C>, m: &V2Model, token: u32) -> (e: Vec<u32>)
    requires
        ar.wf(),
        runnable(*m),
        token < m.cfg.vocab_size,
    ensures
        e@ == embedding_of(ar@, *m, token),
        e@.len() == m.cfg.d_model,
{
    let d: usize = m.cfg.d_model;
    let row = m.embedding.dequantize_row(ar, token as usize);
    let scale: u32 = ar.sqrt(ar.number(d));
    let mut e: Vec<u32> = Vec::new();
    let mut c: usize = 0;
    while c < d
        invariant
            c <= d,
            ar.wf(),
            d == m.cfg.d_model,
            row@ == row_weights(ar@, m.embedding, token as int),
            row@.len() == d,
            scale == ar@.root(ar@.number(d as int)),
            e@.len() == c,
            forall|k: int| 0 <= k < c ==> #[trigger] e@[k] == embedding_of(ar@, *m, token)[k],
        decreases d - c,
    {
        e.push(ar.mul(row[c], scale));
        c = c + 1;
    }
    assert(e@ =~= embedding_of(ar@, *m, token));
    e
}

/// An embedding on every lane.
fn spread(m: &V2Model, e: &Vec<u32>) -> (lanes: Vec<u32>)
    requires
        m.cfg.d_model > 0,
        e@.len() == m.cfg.d_model,
    ensures
        lanes@ == Seq::new(
            (m.cfg.mhc_lanes * m.cfg.d_model) as nat,
            |k: int| e@[k % (m.cfg.d_model as int)],
        ),
{
    let d: usize = m.cfg.d_model;
    let n: usize = m.cfg.mhc_lanes;
    let mut lanes: Vec<u32> = Vec::new();
    let mut lane: usize = 0;
    while lane < n
        invariant
            lane <= n,
            d > 0,
            e@.len() == d,
            lanes@.len() == lane * d,
            forall|k: int| 0 <= k < lane * d ==> #[trigger] lanes@[k] == e@[k % (d as int)],
        decreases n - lane,
    {
        let ghost done = lanes@;
        let mut next = crate::cq::copy_words(e.as_slice());
        lanes.append(&mut next);
        proof {
            assert((lane + 1) * d == lane * d + d) by (nonlinear_arith);
            assert forall|k: int| 0 <= k < (lane + 1) * d implies #[trigger] lanes@[k] == e@[k % (
            d as int)] by {
                if k >= lane * d {
                    let c = k - lane * d;
                    assert(k == d * lane + c) by (nonlinear_arith)
                        requires
                            k == lane * d + c,
                    ;
                    lemma_fundamental_div_mod_converse(k, d as int, lane as int, c);
                } else {
                    assert(lanes@[k] == done[k]);
                }
            }
        }
        lane = lane + 1;
    }
    lanes
}

/// The embedding of a token on every lane.
pub(crate) fn embed<
    U: Fn(Unary, u32) -> u32 + Sync,
    B: Fn(Binary, u32, u32) -> u32 + Sync,
    C: Fn(usize) -> u32 + Sync,
>(ar: &Arith<U, B, C>, m: &V2Model, token: u32) -> (lanes: Vec<u32>)
    requires
        ar.wf(),
        runnable(*m),
        token < m.cfg.vocab_size,
    ensures
        lanes@ == first_lanes(ar@, *m, token),
        lanes@.len() == m.cfg.mhc_lanes * m.cfg.d_model,
{
    let e = embedding(ar, m, token);
    let lanes = spread(m, &e);
    proof {
        assert(lanes@ =~= first_lanes(ar@, *m, token));
    }
    lanes
}

/// How strongly a layer's input recalls a memory key.
fn recall_strength<
    U: Fn(Unary, u32) -> u32 + Sync,
    B: Fn(Binary, u32, u32) -> u32 + Sync,
    C: Fn(usize) -> u32 + Sync,
>(ar: &Arith<U, B, C>, c: &V2Config, u: &[u32], key: &[u32]) -> (alpha: u32)
    requires
        ar.wf(),
        u@.len() == c.d_model,
        key@.len() == c.d_model,
    ensures
        alpha == recall_gate(ar@, *c, u@, key@),
{
    let a = rms_unit_to(ar, u);
    let b = rms_unit_to(ar, key);
    let dot: u32 = group_dot_serial(ar, a.as_slice(), b.as_slice());
    ar.sigmoid(ar.div(dot, ar.sqrt(ar.number(c.d_model))))
}

/// The site of a layer.
fn site_of(c: &V2Config, layer: usize) -> (r: Option<usize>)
    ensures
        match site_at(c.engram, layer as int) {
            Some(s) => r is Some && r->0 == s && s < c.engram.sites@.len(),
            None => r is None,
        },
{
    let r = c.engram.site_of_layer(layer);
    proof {
        match r {
            Some(s) => {
                assert(is_site_of(c.engram, layer as int, s as int));
                let t = choose|t: int| is_site_of(c.engram, layer as int, t);
                assert(t == s);
            },
            None => {
                assert forall|t: int| !is_site_of(c.engram, layer as int, t) by {}
            },
        }
    }
    r
}

/// Memory keys and convolved values of all sites at a position.
pub struct Recall {
    pub keys: Vec<Vec<u32>>,
    pub values: Vec<Vec<u32>>,
}

/// `r` holds what the sites of a pass give at a position.
pub open spec fn is_recall(r: Recall, p: Pass, pos: int) -> bool {
    let sites = p.m.cfg.engram.sites@.len() as int;
    &&& r.keys@.len() == sites
    &&& r.values@.len() == sites
    &&& forall|s: int| 0 <= s < sites ==> (#[trigger] r.keys@[s])@ == p.key(s, pos)
    &&& forall|s: int| 0 <= s < sites ==> (#[trigger] r.values@[s])@ == p.recalled(s, pos)
}

/// What a layer reads, with memory where it carries a site, and how strongly that
/// was recalled.
pub(crate) fn block_in<
    U: Fn(Unary, u32) -> u32 + Sync,
    B: Fn(Binary, u32, u32) -> u32 + Sync,
    C: Fn(usize) -> u32 + Sync,
>(
    ar: &Arith<U, B, C>,
    c: &V2Config,
    u: &Vec<u32>,
    rec: &Recall,
    layer: usize,
    Ghost(p): Ghost<Pass>,
    Ghost(pos): Ghost<int>,
    Ghost(lanes): Ghost<Seq<u32>>,
) -> (r: (Vec<u32>, Option<u32>))
    requires
        ar.wf(),
        p.n == ar@,
        p.m.cfg == *c,
        u@ == p.input(layer as int, lanes),
        u@.len() == c.d_model,
        is_recall(*rec, p, pos),
    ensures
        r.0@ == p.block_in(layer as int, pos, lanes),
        r.0@.len() == c.d_model,
        r.1 == p.alpha(layer as int, pos, lanes),
{
    match site_of(c, layer) {
        Some(s) => {
            assert(rec.keys@[s as int]@ == p.key(s as int, pos));
            assert(rec.values@[s as int]@ == p.recalled(s as int, pos));
            let alpha: u32 = recall_strength(ar, c, u.as_slice(), rec.keys[s].as_slice());
            (add_scaled_to(ar, u.as_slice(), alpha, rec.values[s].as_slice()), Some(alpha))
        },
        None => (crate::cq::copy_words(u.as_slice()), None),
    }
}

/// Write a position's key and value, and attend. The layer has seen the
/// positions before this one.
pub(crate) fn write_and_attend<
    U: Fn(Unary, u32) -> u32 + Sync,
    B: Fn(Binary, u32, u32) -> u32 + Sync,
    C: Fn(usize) -> u32 + Sync,
    N: Fn(&[u32], &[u32]) -> Vec<u32>,
    S: Fn(&[u32]) -> Vec<u32>,
    R: Fn(&[u32], usize, usize) -> Vec<u32>,
>(
    ar: &Arith<U, B, C>,
    bl: &Blocks<N, S, R>,
    m: &V2Model,
    state: &mut V2State<u32>,
    layer: usize,
    pos: usize,
    raw_q: &[u32],
    raw_k: &[u32],
    raw_v: &[u32],
    gate: &[u32],
    Ghost(p): Ghost<Pass>,
    Ghost(hi): Ghost<int>,
    Ghost(lo): Ghost<int>,
    Ghost(xh): Ghost<Seq<u32>>,
) -> (out: Vec<u32>)
    requires
        ar.wf(),
        bl.wf(),
        runnable(*m),
        p.n == ar@,
        p.o == bl@,
        p.m == *m,
        layer < m.cfg.num_layers,
        mid_pass(*old(state), p, layer as int, hi, pos as int, lo),
        pos < hi,
        xh == p.projected(layer as int, pos as int, p.lanes(layer as int, pos as int)),
        raw_q@ == products(
            ar@,
            m.layers@[layer as int].q_proj,
            xh,
            m.cfg.num_heads * m.cfg.head_dim,
        ),
        raw_k@ == products(
            ar@,
            m.layers@[layer as int].k_proj,
            xh,
            m.cfg.num_kv_heads * m.cfg.head_dim,
        ),
        raw_v@ == products(
            ar@,
            m.layers@[layer as int].v_proj,
            xh,
            m.cfg.num_kv_heads * m.cfg.head_dim,
        ),
        gate@ == products(
            ar@,
            m.layers@[layer as int].gate_proj,
            xh,
            m.cfg.num_heads * m.cfg.head_dim,
        ),
    ensures
        mid_pass(*final(state), p, layer as int, hi, pos + 1, lo),
        final(state).engram_v == old(state).engram_v,
        final(state).same_frame(old(state)),
        out@ == attended(
            ar@,
            bl@,
            m.cfg,
            query_of(ar@, bl@, m.cfg, m.layers@[layer as int], xh, pos as int),
            gate@,
            p.rows(layer as int, pos + 1),
            p.window,
            pos as int,
        ),
        out@.len() == m.cfg.num_heads * m.cfg.head_dim,
{
    let l = &m.layers[layer];
    assert(layer_fits(m.cfg, m.layers@[layer as int]));
    proof {
        let h = m.cfg.num_heads * m.cfg.head_dim;
        assert(h >= 0) by (nonlinear_arith)
            requires
                h == m.cfg.num_heads * m.cfg.head_dim,
        ;
        let w = m.cfg.num_kv_heads * m.cfg.head_dim;
        assert(w >= 0) by (nonlinear_arith)
            requires
                w == m.cfg.num_kv_heads * m.cfg.head_dim,
        ;
    }
    let q = finish_query(bl, &m.cfg, l, raw_q, pos);
    let k = finish_key(bl, &m.cfg, l, raw_k, pos);
    let ghost before = *state;
    state.write_kv(layer, pos, k.as_slice(), raw_v);
    proof {
        let li = layer as int;
        let row = p.kv(li, pos as int, p.lanes(li, pos as int));
        assert(row.0 == k@ && row.1 == raw_v@);
        lemma_rows(p, li, pos as int);
        assert(layer_in_step(before, p, li, seen(li, li, hi, pos as int, lo)));
        assert forall|j: int| 0 <= j < p.m.cfg.num_layers implies #[trigger] layer_in_step(
            *state,
            p,
            j,
            seen(j, li, hi, pos + 1, lo),
        ) by {
            let cnt = seen(j, li, hi, pos as int, lo);
            assert(layer_in_step(before, p, j, cnt));
            law_rings_read_back_what_was_written(
                before,
                *state,
                li,
                j,
                p.rows(li, pos as int),
                p.rows(j, cnt),
                k@,
                raw_v@,
            );
        }
        assert(layer_in_step(*state, p, li, seen(li, li, hi, pos + 1, lo)));
        lemma_rows(p, li, pos + 1);
    }
    attend(
        ar,
        bl,
        &m.cfg,
        state,
        layer,
        q.as_slice(),
        gate,
        pos,
        Ghost(p.rows(layer as int, pos + 1)),
    )
}

/// A site's ring holds its values at the first `k` positions.
pub open spec fn site_in_step(s: V2State<u32>, p: Pass, site: int, k: int) -> bool {
    recalls(s, site, p.values(site, k))
}

/// The sites below `done` have seen the first `hi` positions, the others `lo`.
pub open spec fn mid_memory(s: V2State<u32>, p: Pass, done: int, hi: int, lo: int) -> bool {
    forall|e: int|
        0 <= e < p.m.cfg.engram.sites@.len() ==> #[trigger] site_in_step(
            s,
            p,
            e,
            seen(e, done, hi, lo, lo),
        )
}

/// Writing a site's values of the positions `p0..p0 + k` moves that site on.
pub(crate) proof fn lemma_memory_moves(
    before: V2State<u32>,
    after: V2State<u32>,
    p: Pass,
    site: int,
    p0: int,
    k: int,
    rows: Seq<u32>,
)
    requires
        before.wf(),
        is_sized(before, p.m.cfg, before.cache_len as int),
        0 <= site < p.m.cfg.engram.sites@.len(),
        0 <= p0,
        0 <= k,
        mid_memory(before, p, site, p0 + k, p0),
        after.same_frame(&before),
        forall|i: int|
            0 <= i < k ==> #[trigger] row_of(rows, i, before.d_model as int) == site_value(
                p.n,
                p.m.cfg,
                p.m.engrams@[site],
                p.tokens,
                p0 + i,
            ),
        forall|s: int, q: int|
            0 <= s < before.sites && 0 <= q ==> #[trigger] after.memory(s, q) == if s == site {
                match last_on_slot(p0, k, q, before.ring as int) {
                    Some(i) => row_of(rows, i, before.d_model as int),
                    None => before.memory(s, q),
                }
            } else {
                before.memory(s, q)
            },
    ensures
        mid_memory(after, p, site + 1, p0 + k, p0),
{
    let d = before.d_model as int;
    assert forall|e: int| 0 <= e < p.m.cfg.engram.sites@.len() implies #[trigger] site_in_step(
        after,
        p,
        e,
        seen(e, site + 1, p0 + k, p0, p0),
    ) by {
        assert(site_in_step(before, p, e, seen(e, site, p0 + k, p0, p0)));
        assert(site_in_step(before, p, site, seen(site, site, p0 + k, p0, p0)));
        law_value_ring_follows_a_chunk(
            before,
            after,
            site,
            e,
            p.values(site, p0),
            p.values(e, seen(e, site, p0 + k, p0, p0)),
            rows,
            k,
        );
        if e == site {
            let all = p.values(site, p0) + Seq::new(k as nat, |i: int| row_of(rows, i, d));
            assert forall|q: int| 0 <= q < p0 + k implies all[q] == p.values(site, p0 + k)[q] by {
                if q >= p0 {
                    assert(row_of(rows, q - p0, d) == site_value(
                        p.n,
                        p.m.cfg,
                        p.m.engrams@[site],
                        p.tokens,
                        p0 + (q - p0),
                    ));
                }
            }
            assert(all =~= p.values(site, p0 + k));
        }
    }
}

/// Recall at one position, taking every site's ring on by it.
fn recall_one<
    U: Fn(Unary, u32) -> u32 + Sync,
    B: Fn(Binary, u32, u32) -> u32 + Sync,
    C: Fn(usize) -> u32 + Sync,
>(
    ar: &Arith<U, B, C>,
    m: &V2Model,
    state: &mut V2State<u32>,
    pos: usize,
    Ghost(p): Ghost<Pass>,
) -> (r: Recall)
    requires
        ar.wf(),
        runnable(*m),
        p.n == ar@,
        p.m == *m,
        old(state).wf(),
        is_sized(*old(state), m.cfg, old(state).cache_len as int),
        old(state).history@ == p.tokens,
        pos < p.tokens.len(),
        mid_memory(*old(state), p, 0, pos + 1, pos as int),
    ensures
        final(state).wf(),
        final(state).same_frame(old(state)),
        final(state).k_cache == old(state).k_cache,
        final(state).v_cache == old(state).v_cache,
        mid_memory(
            *final(state),
            p,
            m.cfg.engram.sites@.len() as int,
            pos + 1,
            pos as int,
        ),
        is_recall(r, p, pos as int),
{
    let d: usize = m.cfg.d_model;
    let n_sites: usize = m.engrams.len();
    let n_hist: usize = state.history.len();
    let ghost s0 = *state;
    let mut keys: Vec<Vec<u32>> = Vec::new();
    let mut values: Vec<Vec<u32>> = Vec::new();
    let mut site: usize = 0;
    while site < n_sites
        invariant
            site <= n_sites,
            ar.wf(),
            runnable(*m),
            p.n == ar@,
            p.m == *m,
            d == m.cfg.d_model,
            n_sites == m.engrams@.len(),
            n_sites == m.cfg.engram.sites@.len(),
            n_hist == p.tokens.len(),
            state.wf(),
            s0.wf(),
            is_sized(*state, m.cfg, state.cache_len as int),
            state.history@ == p.tokens,
            state.same_frame(&s0),
            state.k_cache == s0.k_cache,
            state.v_cache == s0.v_cache,
            pos < p.tokens.len(),
            mid_memory(*state, p, site as int, pos + 1, pos as int),
            keys@.len() == site,
            values@.len() == site,
            forall|s: int| 0 <= s < site ==> (#[trigger] keys@[s])@ == p.key(s, pos as int),
            forall|s: int| 0 <= s < site ==> (#[trigger] values@[s])@ == p.recalled(s, pos as int),
        decreases n_sites - site,
    {
        let e = &m.engrams[site];
        assert(site_fits(m.cfg, m.engrams@[site as int]));
        let xh = read_site(ar, &m.cfg, e, state.history.as_slice(), pos);
        let value = e.value_proj.matvec_rows_prepared(ar, xh.as_slice(), 0, d);
        let key = e.key_proj.matvec_rows_prepared(ar, xh.as_slice(), 0, d);
        let ghost own = site_value(ar@, m.cfg, *e, p.tokens, pos as int);
        assert(value@ =~= own);
        assert(key@ =~= p.key(site as int, pos as int));
        let ghost before = *state;
        proof {
            assert(1 * d == d);
        }
        state.write_memory_chunk(site, pos, 1, value.as_slice());
        proof {
            assert forall|i: int| 0 <= i < 1 implies #[trigger] row_of(
                value@,
                i,
                d as int,
            ) == site_value(p.n, p.m.cfg, p.m.engrams@[site as int], p.tokens, pos + i) by {
                assert(0 * d == 0);
                assert(row_of(value@, 0, d as int) =~= value@);
            }
            lemma_memory_moves(before, *state, p, site as int, pos as int, 1, value@);
            let all = p.values(site as int, pos + 1);
            assert(site_in_step(
                *state,
                p,
                site as int,
                seen(site as int, site + 1, pos + 1, pos as int, pos as int),
            ));
            assert(all.take(pos + 1) =~= all);
            assert forall|q: int| 0 <= q < all.len() implies (#[trigger] all[q]).len() == d by {}
            assert((all.len() - (pos + 1)) * d == 0) by (nonlinear_arith)
                requires
                    all.len() == pos + 1,
            ;
        }
        let empty: Vec<u32> = Vec::new();
        let conv = convolve(
            ar,
            &m.cfg,
            e,
            state,
            site,
            pos + 1,
            pos,
            empty.as_slice(),
            Ghost(p.values(site as int, pos + 1)),
        );
        keys.push(key);
        values.push(conv);
        site = site + 1;
    }
    Recall { keys, values }
}

/// What the first site gives, where there is one.
fn first_site(
    rec: Recall,
    Ghost(p): Ghost<Pass>,
    Ghost(pos): Ghost<int>,
) -> (r: (Option<Vec<u32>>, Option<Vec<u32>>))
    requires
        is_recall(rec, p, pos),
    ensures
        if p.m.cfg.engram.sites@.len() > 0 {
            r.0 is Some && r.1 is Some && r.0->0@ == p.key(0, pos) && r.1->0@ == p.recalled(0, pos)
        } else {
            r.0 is None && r.1 is None
        },
{
    if rec.keys.len() == 0 {
        return (None, None);
    }
    assert(rec.keys@[0]@ == p.key(0, pos));
    assert(rec.values@[0]@ == p.recalled(0, pos));
    (
        Some(crate::cq::copy_words(rec.keys[0].as_slice())),
        Some(crate::cq::copy_words(rec.values[0].as_slice())),
    )
}

/// One layer at one position, and what it leaves at every point.
fn layer_one<
    U: Fn(Unary, u32) -> u32 + Sync,
    B: Fn(Binary, u32, u32) -> u32 + Sync,
    C: Fn(usize) -> u32 + Sync,
    N: Fn(&[u32], &[u32]) -> Vec<u32>,
    S: Fn(&[u32]) -> Vec<u32>,
    R: Fn(&[u32], usize, usize) -> Vec<u32>,
>(
    ar: &Arith<U, B, C>,
    bl: &Blocks<N, S, R>,
    m: &V2Model,
    state: &mut V2State<u32>,
    layer: usize,
    pos: usize,
    lanes: &Vec<u32>,
    r: &Recall,
    Ghost(p): Ghost<Pass>,
) -> (t: LayerTrace)
    requires
        ar.wf(),
        bl.wf(),
        runnable(*m),
        p.n == ar@,
        p.o == bl@,
        p.m == *m,
        layer < m.cfg.num_layers,
        mid_pass(*old(state), p, layer as int, pos + 1, pos as int, pos as int),
        lanes@ == p.lanes(layer as int, pos as int),
        lanes@.len() == m.cfg.mhc_lanes * m.cfg.d_model,
        is_recall(*r, p, pos as int),
    ensures
        mid_pass(*final(state), p, layer + 1, pos + 1, pos as int, pos as int),
        final(state).engram_v == old(state).engram_v,
        final(state).same_frame(old(state)),
        is_layer_trace(t, p, layer as int, pos as int),
{
    let c = &m.cfg;
    let l = &m.layers[layer];
    let n: usize = c.mhc_lanes;
    let d: usize = c.d_model;
    assert(layer_fits(*c, m.layers@[layer as int]));
    let n_res: usize = m.mhc.b_res.len();
    proof {
        lemma_router_rows(*m, layer as int);
    }
    let xr = read_router(ar, c, &m.mhc, lanes.as_slice());
    let pre = m.mhc.phi_pre.matvec_rows_prepared(ar, xr.as_slice(), layer * n, n);
    assert(pre@ =~= band_products(ar@, m.mhc.phi_pre, xr@, layer * n, n as int));
    let hpre = in_gates(ar, c, &m.mhc, pre.as_slice(), layer, Ghost(xr@));
    let u = mix_rows(ar, hpre.as_slice(), lanes.as_slice(), d);
    let (bx, alpha) = block_in(ar, c, &u, r, layer, Ghost(p), Ghost(pos as int), Ghost(lanes@));
    let xh = read_block(ar, bl, l, bx.as_slice());
    let q = l.q_proj.matvec_rows_prepared(ar, xh.as_slice(), 0, l.q_proj.out_feat);
    let k = l.k_proj.matvec_rows_prepared(ar, xh.as_slice(), 0, l.k_proj.out_feat);
    let v = l.v_proj.matvec_rows_prepared(ar, xh.as_slice(), 0, l.v_proj.out_feat);
    let gate = l.gate_proj.matvec_rows_prepared(ar, xh.as_slice(), 0, l.gate_proj.out_feat);
    proof {
        let attn = c.num_heads * c.head_dim;
        let kv = c.num_kv_heads * c.head_dim;
        assert(q@ =~= products(ar@, l.q_proj, xh@, attn));
        assert(k@ =~= products(ar@, l.k_proj, xh@, kv));
        assert(v@ =~= products(ar@, l.v_proj, xh@, kv));
        assert(gate@ =~= products(ar@, l.gate_proj, xh@, attn));
    }
    let a = write_and_attend(
        ar,
        bl,
        m,
        state,
        layer,
        pos,
        q.as_slice(),
        k.as_slice(),
        v.as_slice(),
        gate.as_slice(),
        Ghost(p),
        Ghost(pos + 1),
        Ghost(pos as int),
        Ghost(xh@),
    );
    let ap = l.out_proj.prepare_input(ar, a.as_slice());
    let att = l.out_proj.matvec_rows_prepared(ar, ap.as_slice(), 0, d);
    assert(att@ =~= products(ar@, l.out_proj, ap@, d as int));
    let y = finish_block(ar, bl, l, bx.as_slice(), u.as_slice(), att.as_slice());
    let post = m.mhc.phi_post.matvec_rows_prepared(ar, xr.as_slice(), layer * n, n);
    assert(post@ =~= band_products(ar@, m.mhc.phi_post, xr@, layer * n, n as int));
    let res = m.mhc.phi_res.matvec_rows_prepared(ar, xr.as_slice(), layer * n * n, n * n);
    assert(res@ =~= band_products(ar@, m.mhc.phi_res, xr@, layer * n * n, n * n));
    let hpost = out_gates(ar, c, &m.mhc, post.as_slice(), layer, Ghost(xr@));
    let hres = mixing(ar, c, &m.mhc, res.as_slice(), layer, Ghost(xr@));
    let x = mix_lanes(
        ar,
        c,
        lanes.as_slice(),
        hpost.as_slice(),
        hres.as_slice(),
        y.as_slice(),
        layer,
        Ghost(m.mhc),
    );
    proof {
        lemma_next_layer(*state, p, layer as int, pos + 1, pos as int);
    }
    LayerTrace { hpre, u, bx, alpha, y, hpost, hres, x }
}

pub(crate) proof fn lemma_router_rows(m: V2Model, layer: int)
    requires
        runnable(m),
        0 <= layer < m.cfg.num_layers,
    ensures
        ({
            let n = m.cfg.mhc_lanes as int;
            &&& 0 <= layer * n
            &&& layer * n + n <= m.mhc.phi_pre.out_feat
            &&& layer * n + n <= m.mhc.phi_post.out_feat
            &&& 0 <= layer * n * n
            &&& 0 <= n * n
            &&& layer * n * n + n * n <= m.mhc.phi_res.out_feat
            &&& layer * n * n + n * n <= m.mhc.b_res@.len()
        }),
{
    let n = m.cfg.mhc_lanes as int;
    let layers = m.cfg.num_layers as int;
    assert(0 <= layer * n && layer * n + n <= layers * n) by (nonlinear_arith)
        requires
            0 <= layer,
            layer + 1 <= layers,
            0 < n,
    ;
    let a = layer * n;
    let b = layers * n;
    assert(0 <= a * n && a * n + n * n <= b * n && 0 <= n * n) by (nonlinear_arith)
        requires
            0 <= a,
            a + n <= b,
            0 < n,
    ;
}

/// A layer that has seen all positions makes way for the next.
pub(crate) proof fn lemma_next_layer(s: V2State<u32>, p: Pass, layer: int, hi: int, lo: int)
    requires
        mid_pass(s, p, layer, hi, hi, lo),
    ensures
        mid_pass(s, p, layer + 1, hi, lo, lo),
{
    assert forall|l: int| 0 <= l < p.m.cfg.num_layers implies #[trigger] layer_in_step(
        s,
        p,
        l,
        seen(l, layer + 1, hi, lo, lo),
    ) by {
        assert(layer_in_step(s, p, l, seen(l, layer, hi, hi, lo)));
    }
}

/// The mean of the lanes.
pub(crate) fn lane_mean<
    U: Fn(Unary, u32) -> u32 + Sync,
    B: Fn(Binary, u32, u32) -> u32 + Sync,
    C: Fn(usize) -> u32 + Sync,
>(
    ar: &Arith<U, B, C>,
    m: &V2Model,
    lanes: &Vec<u32>,
    Ghost(p): Ghost<Pass>,
) -> (mean: Vec<u32>)
    requires
        ar.wf(),
        p.n == ar@,
        p.m == *m,
        lanes@.len() == m.cfg.mhc_lanes * m.cfg.d_model,
    ensures
        mean@ == p.pooled(lanes@),
        mean@.len() == m.cfg.d_model,
{
    let n: usize = m.cfg.mhc_lanes;
    let d: usize = m.cfg.d_model;
    let total: usize = lanes.len();
    let count: u32 = ar.number(n);
    let mut mean: Vec<u32> = Vec::new();
    let mut c: usize = 0;
    while c < d
        invariant
            c <= d,
            ar.wf(),
            p.n == ar@,
            p.m == *m,
            n == m.cfg.mhc_lanes,
            d == m.cfg.d_model,
            total == lanes@.len(),
            lanes@.len() == n * d,
            count == ar@.number(n as int),
            mean@.len() == c,
            forall|j: int| 0 <= j < c ==> #[trigger] mean@[j] == p.pooled(lanes@)[j],
        decreases d - c,
    {
        let mut acc: u32 = 0;
        let mut k: usize = 0;
        while k < n
            invariant
                k <= n,
                c < d,
                ar.wf(),
                p.n == ar@,
                p.m == *m,
                d == m.cfg.d_model,
                total == lanes@.len(),
                lanes@.len() == n * d,
                acc == p.lane_sum(lanes@, k as int, c as int),
            decreases n - k,
        {
            proof {
                assert(0 <= k * d && k * d + d <= n * d) by (nonlinear_arith)
                    requires
                        0 <= k,
                        k + 1 <= n,
                        0 <= d,
                ;
            }
            acc = ar.add(acc, lanes[k * d + c]);
            k = k + 1;
        }
        mean.push(ar.div(acc, count));
        c = c + 1;
    }
    assert(mean@ =~= p.pooled(lanes@));
    mean
}

/// The mean of the lanes, normed.
pub(crate) fn pool<
    U: Fn(Unary, u32) -> u32 + Sync,
    B: Fn(Binary, u32, u32) -> u32 + Sync,
    C: Fn(usize) -> u32 + Sync,
    N: Fn(&[u32], &[u32]) -> Vec<u32>,
    S: Fn(&[u32]) -> Vec<u32>,
    R: Fn(&[u32], usize, usize) -> Vec<u32>,
>(
    ar: &Arith<U, B, C>,
    bl: &Blocks<N, S, R>,
    m: &V2Model,
    lanes: &Vec<u32>,
    Ghost(p): Ghost<Pass>,
) -> (h: Vec<u32>)
    requires
        ar.wf(),
        bl.wf(),
        p.n == ar@,
        p.o == bl@,
        p.m == *m,
        lanes@.len() == m.cfg.mhc_lanes * m.cfg.d_model,
    ensures
        h@ == (bl@.norm)(p.pooled(lanes@), m.final_norm@),
        h@.len() == m.cfg.d_model,
{
    let mean = lane_mean(ar, m, lanes, Ghost(p));
    bl.norm_of(mean.as_slice(), m.final_norm.as_slice())
}

/// The scores over the vocabulary of a hidden state.
pub fn score_hidden<
    U: Fn(Unary, u32) -> u32 + Sync,
    B: Fn(Binary, u32, u32) -> u32 + Sync,
    C: Fn(usize) -> u32 + Sync,
>(ar: &Arith<U, B, C>, m: &V2Model, hidden: &[u32]) -> (scores: Vec<u32>)
    requires
        ar.wf(),
        runnable(*m),
        hidden@.len() == m.cfg.d_model,
    ensures
        scores@ == products(
            ar@,
            m.embedding,
            prepared(ar@, m.embedding, hidden@),
            m.cfg.vocab_size as int,
        ),
{
    let xh = m.embedding.prepare_input(ar, hidden);
    let scores = m.embedding.matvec_rows_prepared(ar, xh.as_slice(), 0, m.cfg.vocab_size);
    assert(scores@ =~= products(ar@, m.embedding, xh@, m.cfg.vocab_size as int));
    scores
}

/// What feeding one token does to a state, whether it is admitted or not: the
/// state is in step with the sequence before and after, and holds the token's
/// hidden state; a token that is not admitted changes nothing of it.
pub open spec fn fed_one(
    before: V2State<u32>,
    after: V2State<u32>,
    n: Num<u32>,
    o: VectorOps,
    m: V2Model,
    token: u32,
    fault: Option<&'static str>,
) -> bool {
    &&& in_step(after, pass_of(n, o, m, after), after.pos as int)
    &&& after.kv_window == before.kv_window
    &&& after.cache_len == before.cache_len
    &&& match fault {
        Some(_) => after == before,
        None => {
            &&& after.pos == before.pos + 1
            &&& after.history@ == fed(before.history@, before.pos as int, seq![token])
            &&& after.hidden@ == pass_of(n, o, m, after).hidden(before.pos as int)
            &&& after.hidden@.len() == m.cfg.d_model
        },
    }
}

impl V2Model {
    /// Process one token at the next position, and give what it leaves at every
    /// point. `logits` is the length of the place for its scores, where those are
    /// asked for.
    pub(crate) fn forward<
        U: Fn(Unary, u32) -> u32 + Sync,
        B: Fn(Binary, u32, u32) -> u32 + Sync,
        C: Fn(usize) -> u32 + Sync,
        N: Fn(&[u32], &[u32]) -> Vec<u32>,
        S: Fn(&[u32]) -> Vec<u32>,
        R: Fn(&[u32], usize, usize) -> Vec<u32>,
    >(
        &self,
        ar: &Arith<U, B, C>,
        bl: &Blocks<N, S, R>,
        token: u32,
        state: &mut V2State<u32>,
        logits: Option<usize>,
    ) -> (r: Result<Trace, &'static str>)
        requires
            ar.wf(),
            bl.wf(),
            runnable(*self),
            in_step(*old(state), pass_of(ar@, bl@, *self, *old(state)), old(state).pos as int),
        ensures
            fed_one(
                *old(state),
                *final(state),
                ar@,
                bl@,
                *self,
                token,
                step_fault(self.cfg, old(state).pos as int, token, logits),
            ),
            match step_fault(self.cfg, old(state).pos as int, token, logits) {
                Some(e) => r is Err && r->Err_0 == e,
                None => r is Ok && is_trace(
                    r->Ok_0,
                    pass_of(ar@, bl@, *self, *final(state)),
                    old(state).pos as int,
                ),
            },
    {
        let pos: usize = state.pos;
        let ghost s0 = *state;
        let ghost p0 = pass_of(ar@, bl@, *self, s0);
        match self.begin_step(token, state, logits) {
            Err(e) => return Err(e),
            Ok(_) => {},
        }
        let ghost p = pass_of(ar@, bl@, *self, *state);
        proof {
            assert forall|q: int| 0 <= q < pos implies #[trigger] p0.tokens[q] == p.tokens[q] by {}
            lemma_in_step_prefix(s0, p0, p, pos as int);
            lemma_recorded(s0, *state, p, pos as int);
            lemma_pass_starts(*state, p, pos + 1, pos as int);
        }
        let embed = embedding(ar, self, token);
        let mut lanes = spread(self, &embed);
        assert(lanes@ =~= p.lanes(0, pos as int));
        let ghost s1 = *state;
        let rec = recall_one(ar, self, state, pos, Ghost(p));
        proof {
            lemma_pass_keeps(s1, *state, p, 0, pos + 1, pos as int, pos as int);
        }
        let mut layers: Vec<LayerTrace> = Vec::new();
        let mut layer: usize = 0;
        while layer < self.cfg.num_layers
            invariant
                layer <= self.cfg.num_layers,
                ar.wf(),
                bl.wf(),
                runnable(*self),
                p.n == ar@,
                p.o == bl@,
                p.m == *self,
                pos < p.tokens.len(),
                mid_pass(*state, p, layer as int, pos + 1, pos as int, pos as int),
                state.pos == pos,
                state.kv_window == s0.kv_window,
                state.cache_len == s0.cache_len,
                mid_memory(
                    *state,
                    p,
                    self.cfg.engram.sites@.len() as int,
                    pos + 1,
                    pos as int,
                ),
                is_recall(rec, p, pos as int),
                lanes@ == p.lanes(layer as int, pos as int),
                lanes@.len() == self.cfg.mhc_lanes * self.cfg.d_model,
                layers@.len() == layer,
                forall|l: int|
                    0 <= l < layer ==> is_layer_trace(
                        #[trigger] layers@[l],
                        p,
                        l,
                        pos as int,
                    ),
            decreases self.cfg.num_layers - layer,
        {
            let ghost before = *state;
            let t = layer_one(ar, bl, self, state, layer, pos, &lanes, &rec, Ghost(p));
            proof {
                lemma_memory_keeps(
                    before,
                    *state,
                    p,
                    self.cfg.engram.sites@.len() as int,
                    pos + 1,
                    pos as int,
                );
            }
            lanes = crate::cq::copy_words(t.x.as_slice());
            layers.push(t);
            layer = layer + 1;
        }
        let ghost s2 = *state;
        let mean = lane_mean(ar, self, &lanes, Ghost(p));
        let hidden = bl.norm_of(mean.as_slice(), self.final_norm.as_slice());
        state.advance(1);
        state.hidden = crate::cq::copy_words(hidden.as_slice());
        proof {
            lemma_pass_ends(s2, p, pos + 1, pos as int);
            let p1 = pass_of(ar@, bl@, *self, *state);
            assert(p1.tokens =~= p.tokens);
            lemma_same_cells(s2, *state, p, p1, pos + 1);
        }
        let (engram_k0, engram_v0) = first_site(rec, Ghost(p), Ghost(pos as int));
        Ok(Trace { embed, engram_k0, engram_v0, layers, lane_mean: mean, final_norm: hidden })
    }
}

impl V2Model {
    /// Process one token without scores.
    pub fn step_prefill<
        U: Fn(Unary, u32) -> u32 + Sync,
        B: Fn(Binary, u32, u32) -> u32 + Sync,
        C: Fn(usize) -> u32 + Sync,
        N: Fn(&[u32], &[u32]) -> Vec<u32>,
        S: Fn(&[u32]) -> Vec<u32>,
        R: Fn(&[u32], usize, usize) -> Vec<u32>,
    >(
        &self,
        ar: &Arith<U, B, C>,
        bl: &Blocks<N, S, R>,
        token: u32,
        state: &mut V2State<u32>,
    ) -> (r: Result<(), &'static str>)
        requires
            ar.wf(),
            bl.wf(),
            runnable(*self),
            in_step(*old(state), pass_of(ar@, bl@, *self, *old(state)), old(state).pos as int),
        ensures
            fed_one(
                *old(state),
                *final(state),
                ar@,
                bl@,
                *self,
                token,
                step_fault(self.cfg, old(state).pos as int, token, None),
            ),
            match step_fault(self.cfg, old(state).pos as int, token, None) {
                Some(e) => r is Err && r->Err_0 == e,
                None => r is Ok,
            },
    {
        match self.forward(ar, bl, token, state, None) {
            Ok(_) => Ok(()),
            Err(e) => Err(e),
        }
    }

    /// The hidden state of the token that was stepped last: the normed mean of its
    /// lanes, which its scores are made of.
    pub fn last_hidden(state: &V2State<u32>) -> (h: &[u32])
        ensures
            h@ == state.hidden@,
    {
        state.hidden.as_slice()
    }
}

impl V2Model {
    /// Process one token, write its scores over the vocabulary, and give what it
    /// leaves at every point before them.
    pub fn step_traced<
        U: Fn(Unary, u32) -> u32 + Sync,
        B: Fn(Binary, u32, u32) -> u32 + Sync,
        C: Fn(usize) -> u32 + Sync,
        N: Fn(&[u32], &[u32]) -> Vec<u32>,
        S: Fn(&[u32]) -> Vec<u32>,
        R: Fn(&[u32], usize, usize) -> Vec<u32>,
    >(
        &self,
        ar: &Arith<U, B, C>,
        bl: &Blocks<N, S, R>,
        token: u32,
        state: &mut V2State<u32>,
        logits: &mut Vec<u32>,
    ) -> (r: Result<Trace, &'static str>)
        requires
            ar.wf(),
            bl.wf(),
            runnable(*self),
            in_step(*old(state), pass_of(ar@, bl@, *self, *old(state)), old(state).pos as int),
        ensures
            fed_one(
                *old(state),
                *final(state),
                ar@,
                bl@,
                *self,
                token,
                step_fault(
                    self.cfg,
                    old(state).pos as int,
                    token,
                    Some(old(logits)@.len() as usize),
                ),
            ),
            match step_fault(
                self.cfg,
                old(state).pos as int,
                token,
                Some(old(logits)@.len() as usize),
            ) {
                Some(e) => r is Err && r->Err_0 == e && final(logits)@ == old(logits)@,
                None => {
                    let p = pass_of(ar@, bl@, *self, *final(state));
                    &&& r is Ok
                    &&& is_trace(r->Ok_0, p, old(state).pos as int)
                    &&& final(logits)@ == p.scores(old(state).pos as int)
                },
            },
    {
        let len: usize = logits.len();
        let r = self.forward(ar, bl, token, state, Some(len));
        if r.is_ok() {
            *logits = score_hidden(ar, self, state.hidden.as_slice());
        }
        r
    }

    /// Process one token and write its scores over the vocabulary.
    pub fn step<
        U: Fn(Unary, u32) -> u32 + Sync,
        B: Fn(Binary, u32, u32) -> u32 + Sync,
        C: Fn(usize) -> u32 + Sync,
        N: Fn(&[u32], &[u32]) -> Vec<u32>,
        S: Fn(&[u32]) -> Vec<u32>,
        R: Fn(&[u32], usize, usize) -> Vec<u32>,
    >(
        &self,
        ar: &Arith<U, B, C>,
        bl: &Blocks<N, S, R>,
        token: u32,
        state: &mut V2State<u32>,
        logits: &mut Vec<u32>,
    ) -> (r: Result<(), &'static str>)
        requires
            ar.wf(),
            bl.wf(),
            runnable(*self),
            in_step(*old(state), pass_of(ar@, bl@, *self, *old(state)), old(state).pos as int),
        ensures
            fed_one(
                *old(state),
                *final(state),
                ar@,
                bl@,
                *self,
                token,
                step_fault(
                    self.cfg,
                    old(state).pos as int,
                    token,
                    Some(old(logits)@.len() as usize),
                ),
            ),
            match step_fault(
                self.cfg,
                old(state).pos as int,
                token,
                Some(old(logits)@.len() as usize),
            ) {
                Some(e) => r is Err && r->Err_0 == e && final(logits)@ == old(logits)@,
                None => r is Ok && final(logits)@ == pass_of(ar@, bl@, *self, *final(state)).scores(
                    old(state).pos as int,
                ),
            },
    {
        match self.step_traced(ar, bl, token, state, logits) {
            Ok(_) => Ok(()),
            Err(e) => Err(e),
        }
    }
}

/// The cells decide: a state with the same cells and tokens is in step too.
pub(crate) proof fn lemma_same_cells(a: V2State<u32>, b: V2State<u32>, p: Pass, q: Pass, k: int)
    requires
        in_step(a, p, k),
        p == q,
        b.wf(),
        b.k_cache == a.k_cache,
        b.v_cache == a.v_cache,
        b.engram_v == a.engram_v,
        b.same_frame(&(V2State { pos: b.pos, history: b.history, hidden: b.hidden, ..a })),
        b.history@.len() == a.history@.len(),
        forall|i: int| 0 <= i < k ==> b.history@[i] == a.history@[i],
    ensures
        in_step(b, q, k),
{
    assert forall|l: int| 0 <= l < p.m.cfg.num_layers implies remembers(
        b,
        l,
        #[trigger] p.rows(l, k),
    ) by {
        assert(remembers(a, l, p.rows(l, k)));
        lemma_same_rows(a, b, l, p.rows(l, k));
    }
    assert forall|e: int| 0 <= e < p.m.cfg.engram.sites@.len() implies recalls(
        b,
        e,
        #[trigger] p.values(e, k),
    ) by {
        assert(recalls(a, e, p.values(e, k)));
        lemma_same_values(a, b, e, p.values(e, k));
    }
}

proof fn lemma_same_rows(a: V2State<u32>, b: V2State<u32>, layer: int, rows: Seq<KvRow>)
    requires
        remembers(a, layer, rows),
        b.k_cache == a.k_cache,
        b.v_cache == a.v_cache,
        b.kv_heads == a.kv_heads,
        b.head_dim == a.head_dim,
        b.cache_len == a.cache_len,
    ensures
        remembers(b, layer, rows),
{
    let hd = b.head_dim as int;
    assert forall|h: int, q: int|
        0 <= h < b.kv_heads && 0 <= q < rows.len() && rows.len() - q <= b.cache_len implies {
        &&& #[trigger] b.key(layer, h, q) == rows[q].0.subrange(h * hd, h * hd + hd)
        &&& b.value(layer, h, q) == rows[q].1.subrange(h * hd, h * hd + hd)
    } by {
        assert(a.key(layer, h, q) == rows[q].0.subrange(h * hd, h * hd + hd));
    }
}

proof fn lemma_same_values(a: V2State<u32>, b: V2State<u32>, site: int, values: Seq<Seq<u32>>)
    requires
        recalls(a, site, values),
        b.engram_v == a.engram_v,
        b.ring == a.ring,
        b.d_model == a.d_model,
    ensures
        recalls(b, site, values),
{
    assert forall|q: int| 0 <= q < values.len() && values.len() - q <= b.ring implies #[trigger] b.memory(
        site,
        q,
    ) == values[q] by {
        assert(a.memory(site, q) == values[q]);
    }
}

/// Recording tokens keeps what the rings hold.
pub(crate) proof fn lemma_recorded(a: V2State<u32>, b: V2State<u32>, p: Pass, k: int)
    requires
        in_step(a, p, k),
        b.wf(),
        b.k_cache == a.k_cache,
        b.v_cache == a.v_cache,
        b.engram_v == a.engram_v,
        b.same_frame(&(V2State { history: b.history, ..a })),
        b.history@ == p.tokens,
        b.history@.len() == a.history@.len(),
    ensures
        in_step(b, p, k),
{
    lemma_same_cells(a, b, p, p, k);
}

/// A state in step stands at the start of a pass over further tokens.
pub(crate) proof fn lemma_pass_starts(s: V2State<u32>, p: Pass, hi: int, lo: int)
    requires
        in_step(s, p, lo),
        s.history@ == p.tokens,
        lo <= hi <= p.tokens.len(),
    ensures
        mid_pass(s, p, 0, hi, lo, lo),
        mid_memory(s, p, 0, hi, lo),
{
    assert forall|l: int| 0 <= l < p.m.cfg.num_layers implies #[trigger] layer_in_step(
        s,
        p,
        l,
        seen(l, 0, hi, lo, lo),
    ) by {
        assert(remembers(s, l, p.rows(l, lo)));
    }
    assert forall|e: int| 0 <= e < p.m.cfg.engram.sites@.len() implies #[trigger] site_in_step(
        s,
        p,
        e,
        seen(e, 0, hi, lo, lo),
    ) by {
        assert(recalls(s, e, p.values(e, lo)));
    }
}

/// A pass through all layers and sites leaves the state in step.
pub(crate) proof fn lemma_pass_ends(s: V2State<u32>, p: Pass, hi: int, lo: int)
    requires
        mid_pass(s, p, p.m.cfg.num_layers as int, hi, lo, lo),
        mid_memory(s, p, p.m.cfg.engram.sites@.len() as int, hi, lo),
    ensures
        in_step(s, p, hi),
{
    assert forall|l: int| 0 <= l < p.m.cfg.num_layers implies remembers(
        s,
        l,
        #[trigger] p.rows(l, hi),
    ) by {
        assert(layer_in_step(s, p, l, seen(l, p.m.cfg.num_layers as int, hi, lo, lo)));
    }
    assert forall|e: int| 0 <= e < p.m.cfg.engram.sites@.len() implies recalls(
        s,
        e,
        #[trigger] p.values(e, hi),
    ) by {
        assert(site_in_step(s, p, e, seen(e, p.m.cfg.engram.sites@.len() as int, hi, lo, lo)));
    }
}

/// Memory work leaves keys and values alone.
pub(crate) proof fn lemma_pass_keeps(
    a: V2State<u32>,
    b: V2State<u32>,
    p: Pass,
    layer: int,
    hi: int,
    mid: int,
    lo: int,
)
    requires
        mid_pass(a, p, layer, hi, mid, lo),
        b.wf(),
        b.same_frame(&a),
        b.k_cache == a.k_cache,
        b.v_cache == a.v_cache,
    ensures
        mid_pass(b, p, layer, hi, mid, lo),
{
    assert forall|l: int| 0 <= l < p.m.cfg.num_layers implies #[trigger] layer_in_step(
        b,
        p,
        l,
        seen(l, layer, hi, mid, lo),
    ) by {
        assert(layer_in_step(a, p, l, seen(l, layer, hi, mid, lo)));
        lemma_same_rows(a, b, l, p.rows(l, seen(l, layer, hi, mid, lo)));
    }
}

/// Work on keys and values leaves memory alone.
pub(crate) proof fn lemma_memory_keeps(
    a: V2State<u32>,
    b: V2State<u32>,
    p: Pass,
    done: int,
    hi: int,
    lo: int,
)
    requires
        mid_memory(a, p, done, hi, lo),
        b.same_frame(&a),
        b.engram_v == a.engram_v,
    ensures
        mid_memory(b, p, done, hi, lo),
{
    assert forall|e: int| 0 <= e < p.m.cfg.engram.sites@.len() implies #[trigger] site_in_step(
        b,
        p,
        e,
        seen(e, done, hi, lo, lo),
    ) by {
        assert(site_in_step(a, p, e, seen(e, done, hi, lo, lo)));
        lemma_same_values(a, b, e, p.values(e, seen(e, done, hi, lo, lo)));
    }
}

} // verus!
