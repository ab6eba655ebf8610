//! Chunks of a prompt through the model: the projections of all positions at
//! once, everything else position by position.

use crate::arith::{Arith, Binary, Num, Unary};
use crate::attention::{attended, attention_of, finish_block, layer_fits, query_of, read_block};
use crate::batch::{row_of, V2Batch};
use crate::blocks::{Blocks, VectorOps};
use crate::cq::CqWeight;
use crate::forward::{fed, is_chunking, law_chunks_cover_the_prompt, law_cutting_a_prompt_keeps_the_history, prefill_fault, Chunk};
use crate::lanes::{band_products, mix_in, mix_out, read_router, router_input};
use crate::matmul::{activation, are_products, law_batches_change_no_product};
use crate::memory::{convolve, products, read_site, site_fits, site_input, site_value};
use crate::model::V2Model;
use crate::pass::{in_step, lemma_in_step_prefix, runnable, Pass};
use crate::rotate::prepared;
use crate::run::{block_in, embed, fed_one, is_recall, lemma_memory_keeps, lemma_memory_moves, lemma_next_layer, lemma_pass_ends, lemma_pass_keeps, lemma_pass_starts, lemma_recorded, lemma_router_rows, lemma_same_cells, mid_memory, mid_pass, pass_of, pool, score_hidden, seen, site_in_step, write_and_attend, Recall};
use crate::state::{is_sized, V2State};
use vstd::prelude::*;
use vstd::slice::slice_subrange;

verus! {

/// All vectors have one length.
pub open spec fn all_len(v: Seq<Vec<u32>>, len: int) -> bool {
    forall|i: int| 0 <= i < v.len() ==> (#[trigger] v[i])@.len() == len
}

/// The vectors one behind the other.
fn flatten(v: &Vec<Vec<u32>>, len: usize) -> (out: Vec<u32>)
    requires
        all_len(v@, len as int),
    ensures
        out@.len() == v@.len() * len,
        forall|i: int| 0 <= i < v@.len() ==> #[trigger] row_of(out@, i, len as int) == v@[i]@,
{
    let n: usize = v.len();
    let mut out: Vec<u32> = Vec::new();
    let mut i: usize = 0;
    assert(0 * len == 0) by (nonlinear_arith);
    while i < n
        invariant
            i <= n,
            n == v@.len(),
            all_len(v@, len as int),
            out@.len() == i * len,
            forall|j: int| 0 <= j < i ==> #[trigger] row_of(out@, j, len as int) == v@[j]@,
        decreases n - i,
    {
        let ghost before = out@;
        let mut part = crate::cq::copy_words(v[i].as_slice());
        assert(v@[i as int]@.len() == len);
        out.append(&mut part);
        proof {
            assert(out@ =~= before + v@[i as int]@);
            assert((i + 1) * len == i * len + len) by (nonlinear_arith);
            assert forall|j: int| 0 <= j < i + 1 implies #[trigger] row_of(out@, j, len as int)
                == v@[j]@ by {
                assert(0 <= j * len && j * len + len <= (i + 1) * len) by (nonlinear_arith)
                    requires
                        0 <= j,
                        j + 1 <= i + 1,
                        0 <= len,
                ;
                if j < i {
                    assert(j * len + len <= i * len) by (nonlinear_arith)
                        requires
                            j + 1 <= i,
                            0 <= len,
                    ;
                    assert(row_of(out@, j, len as int) =~= row_of(before, j, len as int));
                } else {
                    assert(row_of(out@, j, len as int) =~= v@[j]@);
                }
            }
        }
        i = i + 1;
    }
    out
}

/// The products of a band of rows with every one of the vectors. Where they can
/// be counted together, every group of weights is decoded once for all of them.
fn project_all<
    U: Fn(Unary, u32) -> u32 + Sync,
    B: Fn(Binary, u32, u32) -> u32 + Sync,
    C: Fn(usize) -> u32 + Sync,
>(ar: &Arith<U, B, C>, w: &CqWeight, xs: &Vec<Vec<u32>>, start: usize, rows: usize) -> (out: Vec<
    Vec<u32>,
>)
    requires
        ar.wf(),
        w.wf(),
        all_len(xs@, w.in_padded as int),
        start + rows <= w.out_feat,
    ensures
        out@.len() == xs@.len(),
        forall|i: int|
            0 <= i < xs@.len() ==> (#[trigger] out@[i])@ == band_products(
                ar@,
                *w,
                xs@[i]@,
                start as int,
                rows as int,
            ),
{
    let k: usize = xs.len();
    let stride: usize = w.in_padded;
    let mut out: Vec<Vec<u32>> = Vec::new();
    let together: bool = match k.checked_mul(rows) {
        Some(_) => true,
        None => false,
    };
    if together {
        let xh = flatten(xs, stride);
        let y = w.matmul_rows_prepared(ar, xh.as_slice(), k, start, rows);
        let total: usize = y.len();
        let mut i: usize = 0;
        while i < k
            invariant
                i <= k,
                k == xs@.len(),
                stride == w.in_padded,
                all_len(xs@, stride as int),
                total == y@.len(),
                forall|j: int|
                    0 <= j < k ==> #[trigger] row_of(xh@, j, stride as int) == xs@[j]@,
                are_products(y@, ar@, *w, xh@, k as int, start as int, rows as int),
                out@.len() == i,
                forall|j: int|
                    0 <= j < i ==> (#[trigger] out@[j])@ == band_products(
                        ar@,
                        *w,
                        xs@[j]@,
                        start as int,
                        rows as int,
                    ),
            decreases k - i,
        {
            proof {
                assert(0 <= i * rows && i * rows + rows <= k * rows) by (nonlinear_arith)
                    requires
                        0 <= i,
                        i + 1 <= k,
                        0 <= rows,
                ;
                let alone = band_products(
                    ar@,
                    *w,
                    activation(xh@, i as int, stride as int),
                    start as int,
                    rows as int,
                );
                law_batches_change_no_product(
                    ar@,
                    *w,
                    xh@,
                    k as int,
                    start as int,
                    rows as int,
                    y@,
                    i as int,
                    alone,
                );
                assert(row_of(xh@, i as int, stride as int) == xs@[i as int]@);
            }
            out.push(
                crate::cq::copy_words(
                    slice_subrange(y.as_slice(), i * rows, i * rows + rows),
                ),
            );
            i = i + 1;
        }
    } else {
        let mut i: usize = 0;
        while i < k
            invariant
                i <= k,
                k == xs@.len(),
                ar.wf(),
                w.wf(),
                start + rows <= w.out_feat,
                all_len(xs@, w.in_padded as int),
                out@.len() == i,
                forall|j: int|
                    0 <= j < i ==> (#[trigger] out@[j])@ == band_products(
                        ar@,
                        *w,
                        xs@[j]@,
                        start as int,
                        rows as int,
                    ),
            decreases k - i,
        {
            assert(xs@[i as int]@.len() == w.in_padded);
            let y = w.matvec_rows_prepared(ar, xs[i].as_slice(), start, rows);
            assert(y@ =~= band_products(ar@, *w, xs@[i as int]@, start as int, rows as int));
            out.push(y);
            i = i + 1;
        }
    }
    out
}

/// Recall of every position of a chunk, taking every site's ring on by it. The
/// tokens of the chunk are recorded.
fn recall_chunk<
    U: Fn(Unary, u32) -> u32 + Sync,
    B: Fn(Binary, u32, u32) -> u32 + Sync,
    C: Fn(usize) -> u32 + Sync,
>(
    ar: &Arith<U, B, C>,
    m: &V2Model,
    state: &mut V2State<u32>,
    p0: usize,
    k: usize,
    Ghost(p): Ghost<Pass>,
) -> (out: Vec<Recall>)
    requires
        ar.wf(),
        runnable(*m),
        p.n == ar@,
        p.m == *m,
        old(state).wf(),
        is_sized(*old(state), m.cfg, old(state).cache_len as int),
        old(state).history@ == p.tokens,
        p0 + k <= p.tokens.len(),
        mid_memory(*old(state), p, 0, p0 + k, p0 as int),
    ensures
        final(state).wf(),
        final(state).same_frame(old(state)),
        final(state).k_cache == old(state).k_cache,
        final(state).v_cache == old(state).v_cache,
        mid_memory(
            *final(state),
            p,
            m.cfg.engram.sites@.len() as int,
            p0 + k,
            p0 as int,
        ),
        out@.len() == k,
        forall|i: int| 0 <= i < k ==> is_recall(#[trigger] out@[i], p, p0 + i),
{
    let n_sites: usize = m.engrams.len();
    let ghost s0 = *state;
    let mut keys: Vec<Vec<Vec<u32>>> = Vec::new();
    let mut values: Vec<Vec<Vec<u32>>> = Vec::new();
    let mut site: usize = 0;
    while site < n_sites
        invariant
            site <= n_sites,
            ar.wf(),
            runnable(*m),
            p.n == ar@,
            p.m == *m,
            n_sites == m.engrams@.len(),
            n_sites == m.cfg.engram.sites@.len(),
            state.wf(),
            is_sized(*state, m.cfg, state.cache_len as int),
            state.history@ == p.tokens,
            state.same_frame(&s0),
            state.k_cache == s0.k_cache,
            state.v_cache == s0.v_cache,
            p0 + k <= p.tokens.len(),
            mid_memory(*state, p, site as int, p0 + k, p0 as int),
            keys@.len() == site,
            values@.len() == site,
            forall|s: int| 0 <= s < site ==> (#[trigger] keys@[s])@.len() == k,
            forall|s: int| 0 <= s < site ==> (#[trigger] values@[s])@.len() == k,
            forall|s: int, i: int|
                0 <= s < site && 0 <= i < k ==> (#[trigger] keys@[s]@[i])@ == p.key(s, p0 + i),
            forall|s: int, i: int|
                0 <= s < site && 0 <= i < k ==> (#[trigger] values@[s]@[i])@ == p.recalled(
                    s,
                    p0 + i,
                ),
        decreases n_sites - site,
    {
        let (ks, vs) = recall_site(ar, m, state, site, p0, k, Ghost(p));
        keys.push(ks);
        values.push(vs);
        site = site + 1;
    }
    let mut out: Vec<Recall> = Vec::new();
    let mut i: usize = 0;
    while i < k
        invariant
            i <= k,
            n_sites == m.cfg.engram.sites@.len(),
            p.m == *m,
            keys@.len() == n_sites,
            values@.len() == n_sites,
            forall|s: int| 0 <= s < n_sites ==> (#[trigger] keys@[s])@.len() == k,
            forall|s: int| 0 <= s < n_sites ==> (#[trigger] values@[s])@.len() == k,
            forall|s: int, i: int|
                0 <= s < n_sites && 0 <= i < k ==> (#[trigger] keys@[s]@[i])@ == p.key(s, p0 + i),
            forall|s: int, i: int|
                0 <= s < n_sites && 0 <= i < k ==> (#[trigger] values@[s]@[i])@ == p.recalled(
                    s,
                    p0 + i,
                ),
            out@.len() == i,
            forall|j: int| 0 <= j < i ==> is_recall(#[trigger] out@[j], p, p0 + j),
        decreases k - i,
    {
        let rk = pick(&keys, i, k);
        let rv = pick(&values, i, k);
        let r = Recall { keys: rk, values: rv };
        proof {
            assert forall|s: int| 0 <= s < n_sites implies (#[trigger] r.keys@[s])@ == p.key(
                s,
                p0 + i,
            ) by {
                assert(keys@[s]@[i as int]@ == p.key(s, p0 + i));
            }
            assert forall|s: int| 0 <= s < n_sites implies (#[trigger] r.values@[s])@
                == p.recalled(s, p0 + i) by {
                assert(values@[s]@[i as int]@ == p.recalled(s, p0 + i));
            }
        }
        out.push(r);
        i = i + 1;
    }
    out
}

/// Entry `i` of every list.
fn pick(v: &Vec<Vec<Vec<u32>>>, i: usize, k: usize) -> (out: Vec<Vec<u32>>)
    requires
        i < k,
        forall|s: int| 0 <= s < v@.len() ==> (#[trigger] v@[s])@.len() == k,
    ensures
        out@.len() == v@.len(),
        forall|s: int| 0 <= s < v@.len() ==> (#[trigger] out@[s])@ == v@[s]@[i as int]@,
{
    let mut out: Vec<Vec<u32>> = Vec::new();
    let mut s: usize = 0;
    while s < v.len()
        invariant
            s <= v@.len(),
            i < k,
            forall|s: int| 0 <= s < v@.len() ==> (#[trigger] v@[s])@.len() == k,
            out@.len() == s,
            forall|t: int| 0 <= t < s ==> (#[trigger] out@[t])@ == v@[t]@[i as int]@,
        decreases v@.len() - s,
    {
        assert(v@[s as int]@.len() == k);
        out.push(crate::cq::copy_words(v[s][i].as_slice()));
        s = s + 1;
    }
    out
}

/// Keys and convolved values of one site at every position of a chunk. The
/// values stay in a buffer of their own until all are convolved; then they go
/// into the ring.
fn recall_site<
    U: Fn(Unary, u32) -> u32 + Sync,
    B: Fn(Binary, u32, u32) -> u32 + Sync,
    C: Fn(usize) -> u32 + Sync,
>(
    ar: &Arith<U, B, C>,
    m: &V2Model,
    state: &mut V2State<u32>,
    site: usize,
    p0: usize,
    k: usize,
    Ghost(p): Ghost<Pass>,
) -> (r: (Vec<Vec<u32>>, Vec<Vec<u32>>))
    requires
        ar.wf(),
        runnable(*m),
        p.n == ar@,
        p.m == *m,
        site < m.cfg.engram.sites@.len(),
        old(state).wf(),
        is_sized(*old(state), m.cfg, old(state).cache_len as int),
        old(state).history@ == p.tokens,
        p0 + k <= p.tokens.len(),
        mid_memory(*old(state), p, site as int, p0 + k, p0 as int),
    ensures
        final(state).wf(),
        final(state).same_frame(old(state)),
        final(state).k_cache == old(state).k_cache,
        final(state).v_cache == old(state).v_cache,
        mid_memory(*final(state), p, site + 1, p0 + k, p0 as int),
        r.0@.len() == k,
        r.1@.len() == k,
        forall|i: int| 0 <= i < k ==> (#[trigger] r.0@[i])@ == p.key(site as int, p0 + i),
        forall|i: int| 0 <= i < k ==> (#[trigger] r.1@[i])@ == p.recalled(site as int, p0 + i),
{
    let d: usize = m.cfg.d_model;
    let n_hist: usize = state.history.len();
    let e = &m.engrams[site];
    assert(site_fits(m.cfg, m.engrams@[site as int]));
    let mut xs: Vec<Vec<u32>> = Vec::new();
    let mut i: usize = 0;
    while i < k
        invariant
            i <= k,
            ar.wf(),
            site_fits(m.cfg, *e),
            state.history@ == p.tokens,
            n_hist == p.tokens.len(),
            p0 + k <= n_hist,
            xs@.len() == i,
            all_len(xs@, e.value_proj.in_padded as int),
            forall|j: int|
                0 <= j < i ==> (#[trigger] xs@[j])@ == site_input(
                    ar@,
                    m.cfg,
                    *e,
                    p.tokens,
                    p0 + j,
                ),
        decreases k - i,
    {
        xs.push(read_site(ar, &m.cfg, e, state.history.as_slice(), p0 + i));
        i = i + 1;
    }
    let raw = project_all(ar, &e.value_proj, &xs, 0, d);
    let keys = project_all(ar, &e.key_proj, &xs, 0, d);
    proof {
        assert forall|i: int| 0 <= i < k implies (#[trigger] raw@[i])@ == site_value(
            p.n,
            p.m.cfg,
            p.m.engrams@[site as int],
            p.tokens,
            p0 + i,
        ) by {
            assert(xs@[i]@ == site_input(ar@, m.cfg, *e, p.tokens, p0 + i));
            assert(raw@[i]@ =~= products(ar@, e.value_proj, xs@[i]@, d as int));
        }
        assert forall|i: int| 0 <= i < k implies (#[trigger] keys@[i])@ == p.key(
            site as int,
            p0 + i,
        ) by {
            assert(xs@[i]@ == site_input(ar@, m.cfg, *e, p.tokens, p0 + i));
            assert(keys@[i]@ =~= products(ar@, e.key_proj, xs@[i]@, d as int));
        }
        assert forall|i: int| 0 <= i < raw@.len() implies (#[trigger] raw@[i])@.len() == d by {}
    }
    let chunk = flatten(&raw, d);
    let ghost all = p.values(site as int, p0 + k);
    proof {
        assert(site_in_step(
            *state,
            p,
            site as int,
            seen(site as int, site as int, p0 + k, p0 as int, p0 as int),
        ));
        assert(all.take(p0 as int) =~= p.values(site as int, p0 as int));
        assert forall|i: int| 0 <= i < k implies #[trigger] row_of(chunk@, i, d as int) == all[p0
            + i] by {
            assert(raw@[i]@ == site_value(
                p.n,
                p.m.cfg,
                p.m.engrams@[site as int],
                p.tokens,
                p0 + i,
            ));
        }
        assert forall|q: int| 0 <= q < all.len() implies (#[trigger] all[q]).len() == d by {}
    }
    let mut vals: Vec<Vec<u32>> = Vec::new();
    let mut i: usize = 0;
    while i < k
        invariant
            i <= k,
            ar.wf(),
            runnable(*m),
            p.n == ar@,
            p.m == *m,
            d == m.cfg.d_model,
            site < m.cfg.engram.sites@.len(),
            *e == m.engrams@[site as int],
            site_fits(m.cfg, *e),
            state.wf(),
            is_sized(*state, m.cfg, state.cache_len as int),
            n_hist == p.tokens.len(),
            p0 + k <= n_hist,
            all == p.values(site as int, p0 + k),
            forall|q: int| 0 <= q < all.len() ==> (#[trigger] all[q]).len() == d,
            crate::batch::recalls(*state, site as int, all.take(p0 as int)),
            chunk@.len() == k * d,
            forall|j: int| 0 <= j < k ==> #[trigger] row_of(chunk@, j, d as int) == all[p0 + j],
            vals@.len() == i,
            forall|j: int| 0 <= j < i ==> (#[trigger] vals@[j])@ == p.recalled(site as int, p0 + j),
        decreases k - i,
    {
        let pos: usize = p0 + i;
        let conv = convolve(
            ar,
            &m.cfg,
            e,
            state,
            site,
            p0,
            pos,
            chunk.as_slice(),
            Ghost(all),
        );
        proof {
            lemma_convolution_looks_back(p, site as int, pos as int, p0 + k);
        }
        vals.push(conv);
        i = i + 1;
    }
    let ghost before = *state;
    state.write_memory_chunk(site, p0, k, chunk.as_slice());
    proof {
        assert forall|i: int| 0 <= i < k implies #[trigger] row_of(
            chunk@,
            i,
            before.d_model as int,
        ) == site_value(p.n, p.m.cfg, p.m.engrams@[site as int], p.tokens, p0 + i) by {
            assert(row_of(chunk@, i, d as int) == all[p0 + i]);
        }
        lemma_memory_moves(before, *state, p, site as int, p0 as int, k as int, chunk@);
    }
    (keys, vals)
}

/// The convolution at a position reads no later values.
proof fn lemma_convolution_looks_back(p: Pass, site: int, pos: int, k: int)
    requires
        0 <= pos < k,
    ensures
        crate::memory::convolved(
            p.n,
            p.m.cfg,
            p.m.engrams@[site].taps@,
            p.values(site, k),
            pos,
        ) == p.recalled(site, pos),
{
    let a = p.values(site, k);
    let b = p.values(site, pos + 1);
    let taps = p.m.engrams@[site].taps@;
    let c = p.m.cfg;
    assert forall|col: int| 0 <= col < c.d_model implies crate::memory::convolved_at(
        p.n,
        c,
        taps,
        a,
        pos,
        c.engram.conv_taps as int,
        col,
    ) == crate::memory::convolved_at(p.n, c, taps, b, pos, c.engram.conv_taps as int, col) by {
        lemma_convolved_at_looks_back(
            p.n,
            c,
            taps,
            a,
            b,
            pos,
            c.engram.conv_taps as int,
            col,
        );
    }
    assert(crate::memory::convolved(p.n, c, taps, a, pos) =~= crate::memory::convolved(
        p.n,
        c,
        taps,
        b,
        pos,
    ));
}

proof fn lemma_convolved_at_looks_back(
    n: Num<u32>,
    c: crate::config::V2Config,
    taps: Seq<u32>,
    a: Seq<Seq<u32>>,
    b: Seq<Seq<u32>>,
    pos: int,
    j: int,
    col: int,
)
    requires
        forall|q: int| 0 <= q <= pos ==> #[trigger] a[q] == b[q],
    ensures
        crate::memory::convolved_at(n, c, taps, a, pos, j, col) == crate::memory::convolved_at(
            n,
            c,
            taps,
            b,
            pos,
            j,
            col,
        ),
    decreases j,
{
    if j > 0 {
        lemma_convolved_at_looks_back(n, c, taps, a, b, pos, j - 1, col);
        match crate::engram::tap_position(c.engram, pos, j - 1) {
            None => {},
            Some(q) => {
                let shift = (j - 1) * c.engram.conv_dilation;
                assert(0 <= shift) by (nonlinear_arith)
                    requires
                        shift == (j - 1) * c.engram.conv_dilation,
                        j >= 1,
                        c.engram.conv_dilation >= 0,
                ;
                assert(a[q] == b[q]);
            },
        }
    }
}

/// The lanes of every position of a chunk before a layer.
pub open spec fn are_lanes(v: Seq<Vec<u32>>, p: Pass, layer: int, p0: int, k: int) -> bool {
    &&& v.len() == k
    &&& all_len(v, p.m.cfg.mhc_lanes * p.m.cfg.d_model)
    &&& forall|i: int| 0 <= i < k ==> (#[trigger] v[i])@ == p.lanes(layer, p0 + i)
}

/// What the router reads at every position of a chunk.
fn read_routers<
    U: Fn(Unary, u32) -> u32 + Sync,
    B: Fn(Binary, u32, u32) -> u32 + Sync,
    C: Fn(usize) -> u32 + Sync,
>(ar: &Arith<U, B, C>, m: &V2Model, lanes: &Vec<Vec<u32>>) -> (xr: Vec<Vec<u32>>)
    requires
        ar.wf(),
        runnable(*m),
        all_len(lanes@, m.cfg.mhc_lanes * m.cfg.d_model),
    ensures
        xr@.len() == lanes@.len(),
        all_len(xr@, m.mhc.phi_pre.in_padded as int),
        forall|i: int|
            0 <= i < lanes@.len() ==> (#[trigger] xr@[i])@ == router_input(
                ar@,
                m.mhc,
                lanes@[i]@,
            ),
{
    let mut xr: Vec<Vec<u32>> = Vec::new();
    let mut i: usize = 0;
    while i < lanes.len()
        invariant
            i <= lanes@.len(),
            ar.wf(),
            runnable(*m),
            all_len(lanes@, m.cfg.mhc_lanes * m.cfg.d_model),
            xr@.len() == i,
            all_len(xr@, m.mhc.phi_pre.in_padded as int),
            forall|j: int|
                0 <= j < i ==> (#[trigger] xr@[j])@ == router_input(ar@, m.mhc, lanes@[j]@),
        decreases lanes@.len() - i,
    {
        assert(lanes@[i as int]@.len() == m.cfg.mhc_lanes * m.cfg.d_model);
        xr.push(read_router(ar, &m.cfg, &m.mhc, lanes[i].as_slice()));
        i = i + 1;
    }
    xr
}

/// What a layer reads at every position of a chunk, without and with memory, and
/// what its projections read.
struct Inputs {
    u: Vec<Vec<u32>>,
    bx: Vec<Vec<u32>>,
    xh: Vec<Vec<u32>>,
}

fn read_inputs<
    U: Fn(Unary, u32) -> u32 + Sync,
    B: Fn(Binary, u32, u32) -> u32 + Sync,
    C: Fn(usize) -> u32 + Sync,
    N: Fn(&[u32], &[u32]) -> Vec<u32>,
    S: Fn(&[u32]) -> Vec<u32>,
    R: Fn(&[u32], usize, usize) -> Vec<u32>,
>(
    ar: &Arith<U, B, C>,
    bl: &Blocks<N, S, R>,
    m: &V2Model,
    layer: usize,
    lanes: &Vec<Vec<u32>>,
    pre: &Vec<Vec<u32>>,
    recs: &Vec<Recall>,
    Ghost(p): Ghost<Pass>,
    Ghost(p0): Ghost<int>,
) -> (r: Inputs)
    requires
        ar.wf(),
        bl.wf(),
        runnable(*m),
        p.n == ar@,
        p.o == bl@,
        p.m == *m,
        layer < m.cfg.num_layers,
        all_len(lanes@, m.cfg.mhc_lanes * m.cfg.d_model),
        pre@.len() == lanes@.len(),
        recs@.len() == lanes@.len(),
        forall|i: int|
            0 <= i < lanes@.len() ==> (#[trigger] pre@[i])@ == band_products(
                ar@,
                m.mhc.phi_pre,
                router_input(ar@, m.mhc, lanes@[i]@),
                layer * m.cfg.mhc_lanes,
                m.cfg.mhc_lanes as int,
            ),
        forall|i: int| 0 <= i < recs@.len() ==> is_recall(#[trigger] recs@[i], p, p0 + i),
    ensures
        r.u@.len() == lanes@.len(),
        r.bx@.len() == lanes@.len(),
        r.xh@.len() == lanes@.len(),
        all_len(r.u@, m.cfg.d_model as int),
        all_len(r.bx@, m.cfg.d_model as int),
        all_len(r.xh@, m.layers@[layer as int].q_proj.in_padded as int),
        forall|i: int|
            0 <= i < lanes@.len() ==> (#[trigger] r.u@[i])@ == p.input(layer as int, lanes@[i]@),
        forall|i: int|
            0 <= i < lanes@.len() ==> (#[trigger] r.bx@[i])@ == p.block_in(
                layer as int,
                p0 + i,
                lanes@[i]@,
            ),
        forall|i: int|
            0 <= i < lanes@.len() ==> (#[trigger] r.xh@[i])@ == p.projected(
                layer as int,
                p0 + i,
                lanes@[i]@,
            ),
{
    let l = &m.layers[layer];
    assert(layer_fits(m.cfg, m.layers@[layer as int]));
    let mut us: Vec<Vec<u32>> = Vec::new();
    let mut bxs: Vec<Vec<u32>> = Vec::new();
    let mut xhs: Vec<Vec<u32>> = Vec::new();
    let mut i: usize = 0;
    while i < lanes.len()
        invariant
            i <= lanes@.len(),
            ar.wf(),
            bl.wf(),
            runnable(*m),
            p.n == ar@,
            p.o == bl@,
            p.m == *m,
            layer < m.cfg.num_layers,
            *l == m.layers@[layer as int],
            layer_fits(m.cfg, *l),
            all_len(lanes@, m.cfg.mhc_lanes * m.cfg.d_model),
            pre@.len() == lanes@.len(),
            recs@.len() == lanes@.len(),
            forall|i: int|
                0 <= i < lanes@.len() ==> (#[trigger] pre@[i])@ == band_products(
                    ar@,
                    m.mhc.phi_pre,
                    router_input(ar@, m.mhc, lanes@[i]@),
                    layer * m.cfg.mhc_lanes,
                    m.cfg.mhc_lanes as int,
                ),
            forall|i: int| 0 <= i < recs@.len() ==> is_recall(#[trigger] recs@[i], p, p0 + i),
            us@.len() == i,
            bxs@.len() == i,
            xhs@.len() == i,
            all_len(us@, m.cfg.d_model as int),
            all_len(bxs@, m.cfg.d_model as int),
            all_len(xhs@, l.q_proj.in_padded as int),
            forall|j: int|
                0 <= j < i ==> (#[trigger] us@[j])@ == p.input(layer as int, lanes@[j]@),
            forall|j: int|
                0 <= j < i ==> (#[trigger] bxs@[j])@ == p.block_in(
                    layer as int,
                    p0 + j,
                    lanes@[j]@,
                ),
            forall|j: int|
                0 <= j < i ==> (#[trigger] xhs@[j])@ == p.projected(
                    layer as int,
                    p0 + j,
                    lanes@[j]@,
                ),
        decreases lanes@.len() - i,
    {
        assert(lanes@[i as int]@.len() == m.cfg.mhc_lanes * m.cfg.d_model);
        assert(is_recall(recs@[i as int], p, p0 + i));
        assert(pre@[i as int]@.len() == m.cfg.mhc_lanes);
        let u = mix_in(
            ar,
            &m.cfg,
            &m.mhc,
            lanes[i].as_slice(),
            pre[i].as_slice(),
            layer,
        );
        let (bx, _) = block_in(
            ar,
            &m.cfg,
            &u,
            &recs[i],
            layer,
            Ghost(p),
            Ghost(p0 + i),
            Ghost(lanes@[i as int]@),
        );
        let xh = read_block(ar, bl, l, bx.as_slice());
        us.push(u);
        bxs.push(bx);
        xhs.push(xh);
        i = i + 1;
    }
    Inputs { u: us, bx: bxs, xh: xhs }
}

/// Write and attend, position by position, and prepare what the output
/// projection reads.
fn attend_all<
    U: Fn(Unary, u32) -> u32 + Sync,
    B: Fn(Binary, u32, u32) -> u32 + Sync,
    C: Fn(usize) -> u32 + Sync,
    N: Fn(&[u32], &[u32]) -> Vec<u32>,
    S: Fn(&[u32]) -> Vec<u32>,
    R: Fn(&[u32], usize, usize) -> Vec<u32>,
>(
    ar: &Arith<U, B, C>,
    bl: &Blocks<N, S, R>,
    m: &V2Model,
    state: &mut V2State<u32>,
    layer: usize,
    p0: usize,
    q: &Vec<Vec<u32>>,
    k: &Vec<Vec<u32>>,
    v: &Vec<Vec<u32>>,
    gate: &Vec<Vec<u32>>,
    Ghost(p): Ghost<Pass>,
    Ghost(xh): Ghost<Seq<Seq<u32>>>,
) -> (out: Vec<Vec<u32>>)
    requires
        ar.wf(),
        bl.wf(),
        runnable(*m),
        p.n == ar@,
        p.o == bl@,
        p.m == *m,
        layer < m.cfg.num_layers,
        p0 + q@.len() <= p.tokens.len(),
        k@.len() == q@.len(),
        v@.len() == q@.len(),
        gate@.len() == q@.len(),
        xh.len() == q@.len(),
        mid_pass(
            *old(state),
            p,
            layer as int,
            p0 + q@.len(),
            p0 as int,
            p0 as int,
        ),
        forall|i: int|
            0 <= i < xh.len() ==> #[trigger] xh[i] == p.projected(
                layer as int,
                p0 + i,
                p.lanes(layer as int, p0 + i),
            ),
        forall|i: int|
            0 <= i < q@.len() ==> (#[trigger] q@[i])@ == products(
                ar@,
                m.layers@[layer as int].q_proj,
                xh[i],
                m.cfg.num_heads * m.cfg.head_dim,
            ),
        forall|i: int|
            0 <= i < k@.len() ==> (#[trigger] k@[i])@ == products(
                ar@,
                m.layers@[layer as int].k_proj,
                xh[i],
                m.cfg.num_kv_heads * m.cfg.head_dim,
            ),
        forall|i: int|
            0 <= i < v@.len() ==> (#[trigger] v@[i])@ == products(
                ar@,
                m.layers@[layer as int].v_proj,
                xh[i],
                m.cfg.num_kv_heads * m.cfg.head_dim,
            ),
        forall|i: int|
            0 <= i < gate@.len() ==> (#[trigger] gate@[i])@ == products(
                ar@,
                m.layers@[layer as int].gate_proj,
                xh[i],
                m.cfg.num_heads * m.cfg.head_dim,
            ),
    ensures
        mid_pass(
            *final(state),
            p,
            layer as int,
            p0 + q@.len(),
            p0 + q@.len(),
            p0 as int,
        ),
        final(state).engram_v == old(state).engram_v,
        final(state).same_frame(old(state)),
        out@.len() == q@.len(),
        all_len(out@, m.layers@[layer as int].out_proj.in_padded as int),
        forall|i: int|
            0 <= i < q@.len() ==> (#[trigger] out@[i])@ == prepared(
                ar@,
                m.layers@[layer as int].out_proj,
                attended(
                    ar@,
                    bl@,
                    m.cfg,
                    query_of(ar@, bl@, m.cfg, m.layers@[layer as int], xh[i], p0 + i),
                    gate@[i]@,
                    p.rows(layer as int, p0 + i + 1),
                    p.window,
                    p0 + i,
                ),
            ),
{
    let n: usize = q.len();
    let l = &m.layers[layer];
    let n_hist: usize = state.history.len();
    assert(layer_fits(m.cfg, m.layers@[layer as int]));
    let ghost s0 = *state;
    let mut out: Vec<Vec<u32>> = Vec::new();
    let mut i: usize = 0;
    while i < n
        invariant
            i <= n,
            n == q@.len(),
            ar.wf(),
            bl.wf(),
            runnable(*m),
            p.n == ar@,
            p.o == bl@,
            p.m == *m,
            layer < m.cfg.num_layers,
            *l == m.layers@[layer as int],
            layer_fits(m.cfg, *l),
            n_hist == p.tokens.len(),
            p0 + n <= p.tokens.len(),
            k@.len() == n,
            v@.len() == n,
            gate@.len() == n,
            xh.len() == n,
            mid_pass(*state, p, layer as int, p0 + n, p0 + i, p0 as int),
            state.engram_v == s0.engram_v,
            state.same_frame(&s0),
            forall|i: int|
                0 <= i < xh.len() ==> #[trigger] xh[i] == p.projected(
                    layer as int,
                    p0 + i,
                    p.lanes(layer as int, p0 + i),
                ),
            forall|i: int|
                0 <= i < q@.len() ==> (#[trigger] q@[i])@ == products(
                    ar@,
                    l.q_proj,
                    xh[i],
                    m.cfg.num_heads * m.cfg.head_dim,
                ),
            forall|i: int|
                0 <= i < k@.len() ==> (#[trigger] k@[i])@ == products(
                    ar@,
                    l.k_proj,
                    xh[i],
                    m.cfg.num_kv_heads * m.cfg.head_dim,
                ),
            forall|i: int|
                0 <= i < v@.len() ==> (#[trigger] v@[i])@ == products(
                    ar@,
                    l.v_proj,
                    xh[i],
                    m.cfg.num_kv_heads * m.cfg.head_dim,
                ),
            forall|i: int|
                0 <= i < gate@.len() ==> (#[trigger] gate@[i])@ == products(
                    ar@,
                    l.gate_proj,
                    xh[i],
                    m.cfg.num_heads * m.cfg.head_dim,
                ),
            out@.len() == i,
            all_len(out@, l.out_proj.in_padded as int),
            forall|j: int|
                0 <= j < i ==> (#[trigger] out@[j])@ == prepared(
                    ar@,
                    l.out_proj,
                    attended(
                        ar@,
                        bl@,
                        m.cfg,
                        query_of(ar@, bl@, m.cfg, *l, xh[j], p0 + j),
                        gate@[j]@,
                        p.rows(layer as int, p0 + j + 1),
                        p.window,
                        p0 + j,
                    ),
                ),
        decreases n - i,
    {
        let pos: usize = p0 + i;
        assert(xh[i as int] == p.projected(
            layer as int,
            p0 + i,
            p.lanes(layer as int, p0 + i),
        ));
        let a = write_and_attend(
            ar,
            bl,
            m,
            state,
            layer,
            pos,
            q[i].as_slice(),
            k[i].as_slice(),
            v[i].as_slice(),
            gate[i].as_slice(),
            Ghost(p),
            Ghost(p0 + n),
            Ghost(p0 as int),
            Ghost(xh[i as int]),
        );
        out.push(l.out_proj.prepare_input(ar, a.as_slice()));
        i = i + 1;
    }
    out
}

/// One layer at every position of a chunk.
fn layer_chunk<
    U: Fn(Unary, u32) -> u32 + Sync,
    B: Fn(Binary, u32, u32) -> u32 + Sync,
    C: Fn(usize) -> u32 + Sync,
    N: Fn(&[u32], &[u32]) -> Vec<u32>,
    S: Fn(&[u32]) -> Vec<u32>,
    R: Fn(&[u32], usize, usize) -> Vec<u32>,
>(
    ar: &Arith<U, B, C>,
    bl: &Blocks<N, S, R>,
    m: &V2Model,
    state: &mut V2State<u32>,
    layer: usize,
    p0: usize,
    lanes: &Vec<Vec<u32>>,
    recs: &Vec<Recall>,
    Ghost(p): Ghost<Pass>,
) -> (out: Vec<Vec<u32>>)
    requires
        ar.wf(),
        bl.wf(),
        runnable(*m),
        p.n == ar@,
        p.o == bl@,
        p.m == *m,
        layer < m.cfg.num_layers,
        p0 + lanes@.len() <= p.tokens.len(),
        mid_pass(
            *old(state),
            p,
            layer as int,
            p0 + lanes@.len(),
            p0 as int,
            p0 as int,
        ),
        are_lanes(lanes@, p, layer as int, p0 as int, lanes@.len() as int),
        recs@.len() == lanes@.len(),
        forall|i: int| 0 <= i < recs@.len() ==> is_recall(#[trigger] recs@[i], p, p0 + i),
    ensures
        mid_pass(
            *final(state),
            p,
            layer + 1,
            p0 + lanes@.len(),
            p0 as int,
            p0 as int,
        ),
        final(state).engram_v == old(state).engram_v,
        final(state).same_frame(old(state)),
        are_lanes(out@, p, layer + 1, p0 as int, lanes@.len() as int),
{
    let k: usize = lanes.len();
    let c = &m.cfg;
    let n: usize = c.mhc_lanes;
    let d: usize = c.d_model;
    let l = &m.layers[layer];
    assert(layer_fits(m.cfg, m.layers@[layer as int]));
    let n_res: usize = m.mhc.b_res.len();
    proof {
        lemma_router_rows(*m, layer as int);
    }
    let xr = read_routers(ar, m, lanes);
    let pre = project_all(ar, &m.mhc.phi_pre, &xr, layer * n, n);
    let ins = read_inputs(ar, bl, m, layer, lanes, &pre, recs, Ghost(p), Ghost(p0 as int));
    let q = project_all(ar, &l.q_proj, &ins.xh, 0, l.q_proj.out_feat);
    let kk = project_all(ar, &l.k_proj, &ins.xh, 0, l.k_proj.out_feat);
    let v = project_all(ar, &l.v_proj, &ins.xh, 0, l.v_proj.out_feat);
    let gate = project_all(ar, &l.gate_proj, &ins.xh, 0, l.gate_proj.out_feat);
    let ghost xs = Seq::new(k as nat, |i: int| ins.xh@[i]@);
    proof {
        let attn = c.num_heads * c.head_dim;
        let kv = c.num_kv_heads * c.head_dim;
        assert forall|i: int| 0 <= i < k implies #[trigger] xs[i] == p.projected(
            layer as int,
            p0 + i,
            p.lanes(layer as int, p0 + i),
        ) by {
            assert(lanes@[i]@ == p.lanes(layer as int, p0 + i));
            assert(ins.xh@[i]@ == p.projected(layer as int, p0 + i, lanes@[i]@));
        }
        assert forall|i: int| 0 <= i < k implies (#[trigger] q@[i])@ == products(
            ar@,
            l.q_proj,
            xs[i],
            attn,
        ) by {
            assert(q@[i]@ =~= products(ar@, l.q_proj, xs[i], attn));
        }
        assert forall|i: int| 0 <= i < k implies (#[trigger] kk@[i])@ == products(
            ar@,
            l.k_proj,
            xs[i],
            kv,
        ) by {
            assert(kk@[i]@ =~= products(ar@, l.k_proj, xs[i], kv));
        }
        assert forall|i: int| 0 <= i < k implies (#[trigger] v@[i])@ == products(
            ar@,
            l.v_proj,
            xs[i],
            kv,
        ) by {
            assert(v@[i]@ =~= products(ar@, l.v_proj, xs[i], kv));
        }
        assert forall|i: int| 0 <= i < k implies (#[trigger] gate@[i])@ == products(
            ar@,
            l.gate_proj,
            xs[i],
            attn,
        ) by {
            assert(gate@[i]@ =~= products(ar@, l.gate_proj, xs[i], attn));
        }
    }
    let ap = attend_all(
        ar,
        bl,
        m,
        state,
        layer,
        p0,
        &q,
        &kk,
        &v,
        &gate,
        Ghost(p),
        Ghost(xs),
    );
    let att = project_all(ar, &l.out_proj, &ap, 0, d);
    let post = project_all(ar, &m.mhc.phi_post, &xr, layer * n, n);
    let res = project_all(ar, &m.mhc.phi_res, &xr, layer * n * n, n * n);
    let mut out: Vec<Vec<u32>> = Vec::new();
    let mut i: usize = 0;
    while i < k
        invariant
            i <= k,
            k == lanes@.len(),
            ar.wf(),
            bl.wf(),
            runnable(*m),
            p.n == ar@,
            p.o == bl@,
            p.m == *m,
            layer < m.cfg.num_layers,
            *l == m.layers@[layer as int],
            layer_fits(m.cfg, *l),
            *c == m.cfg,
            n == c.mhc_lanes,
            d == c.d_model,
            are_lanes(lanes@, p, layer as int, p0 as int, k as int),
            xs.len() == k,
            forall|j: int|
                0 <= j < k ==> #[trigger] xs[j] == p.projected(
                    layer as int,
                    p0 + j,
                    p.lanes(layer as int, p0 + j),
                ),
            ins.u@.len() == k,
            ins.bx@.len() == k,
            all_len(ins.u@, d as int),
            all_len(ins.bx@, d as int),
            forall|j: int|
                0 <= j < k ==> (#[trigger] ins.u@[j])@ == p.input(layer as int, lanes@[j]@),
            forall|j: int|
                0 <= j < k ==> (#[trigger] ins.bx@[j])@ == p.block_in(
                    layer as int,
                    p0 + j,
                    lanes@[j]@,
                ),
            gate@.len() == k,
            forall|j: int|
                0 <= j < k ==> (#[trigger] gate@[j])@ == products(
                    ar@,
                    l.gate_proj,
                    xs[j],
                    c.num_heads * c.head_dim,
                ),
            ap@.len() == k,
            forall|j: int|
                0 <= j < k ==> (#[trigger] ap@[j])@ == prepared(
                    ar@,
                    l.out_proj,
                    attended(
                        ar@,
                        bl@,
                        m.cfg,
                        query_of(ar@, bl@, m.cfg, *l, xs[j], p0 + j),
                        gate@[j]@,
                        p.rows(layer as int, p0 + j + 1),
                        p.window,
                        p0 + j,
                    ),
                ),
            att@.len() == k,
            forall|j: int|
                0 <= j < k ==> (#[trigger] att@[j])@ == band_products(
                    ar@,
                    l.out_proj,
                    ap@[j]@,
                    0,
                    d as int,
                ),
            xr@.len() == k,
            forall|j: int|
                0 <= j < k ==> (#[trigger] xr@[j])@ == router_input(ar@, m.mhc, lanes@[j]@),
            post@.len() == k,
            forall|j: int|
                0 <= j < k ==> (#[trigger] post@[j])@ == band_products(
                    ar@,
                    m.mhc.phi_post,
                    xr@[j]@,
                    layer * n,
                    n as int,
                ),
            res@.len() == k,
            forall|j: int|
                0 <= j < k ==> (#[trigger] res@[j])@ == band_products(
                    ar@,
                    m.mhc.phi_res,
                    xr@[j]@,
                    layer * n * n,
                    n * n,
                ),
            out@.len() == i,
            all_len(out@, n * d),
            forall|j: int|
                0 <= j < i ==> (#[trigger] out@[j])@ == p.lanes(layer + 1, p0 + j),
        decreases k - i,
    {
        proof {
            let j = i as int;
            assert(lanes@[j]@ == p.lanes(layer as int, p0 + j));
            assert(lanes@[j]@.len() == n * d);
            assert(ins.u@[j]@.len() == d);
            assert(ins.bx@[j]@.len() == d);
            assert(att@[j]@ =~= products(ar@, l.out_proj, ap@[j]@, d as int));
            assert(att@[j]@ == attention_of(
                ar@,
                bl@,
                m.cfg,
                *l,
                xs[j],
                p.rows(layer as int, p0 + j + 1),
                p.window,
                p0 + j,
            ));
            assert(xr@[j]@ == router_input(ar@, m.mhc, lanes@[j]@));
        }
        let y = finish_block(
            ar,
            bl,
            l,
            ins.bx[i].as_slice(),
            ins.u[i].as_slice(),
            att[i].as_slice(),
        );
        let next = mix_out(
            ar,
            c,
            &m.mhc,
            lanes[i].as_slice(),
            post[i].as_slice(),
            res[i].as_slice(),
            y.as_slice(),
            layer,
        );
        assert(next@ == p.lanes(layer + 1, p0 + i));
        out.push(next);
        i = i + 1;
    }
    proof {
        lemma_next_layer(*state, p, layer as int, p0 + k, p0 as int);
    }
    out
}

/// Process a chunk of admitted tokens, and give the lanes of each after the last
/// layer.
fn prefill_chunk<
    U: Fn(Unary, u32) -> u32 + Sync,
    B: Fn(Binary, u32, u32) -> u32 + Sync,
    C: Fn(usize) -> u32 + Sync,
    N: Fn(&[u32], &[u32]) -> Vec<u32>,
    S: Fn(&[u32]) -> Vec<u32>,
    R: Fn(&[u32], usize, usize) -> Vec<u32>,
>(
    ar: &Arith<U, B, C>,
    bl: &Blocks<N, S, R>,
    m: &V2Model,
    tokens: &[u32],
    state: &mut V2State<u32>,
) -> (lanes: Vec<Vec<u32>>)
    requires
        ar.wf(),
        bl.wf(),
        runnable(*m),
        old(state).pos + tokens@.len() <= m.cfg.max_seq_len,
        forall|i: int| 0 <= i < tokens@.len() ==> #[trigger] tokens@[i] < m.cfg.vocab_size,
        in_step(*old(state), pass_of(ar@, bl@, *m, *old(state)), old(state).pos as int),
    ensures
        in_step(*final(state), pass_of(ar@, bl@, *m, *final(state)), final(state).pos as int),
        final(state).pos == old(state).pos + tokens@.len(),
        final(state).history@ == fed(old(state).history@, old(state).pos as int, tokens@),
        final(state).kv_window == old(state).kv_window,
        final(state).cache_len == old(state).cache_len,
        final(state).hidden@ == old(state).hidden@,
        are_lanes(
            lanes@,
            pass_of(ar@, bl@, *m, *final(state)),
            m.cfg.num_layers as int,
            old(state).pos as int,
            tokens@.len() as int,
        ),
{
    let k: usize = tokens.len();
    let p0: usize = state.pos;
    let ghost s0 = *state;
    let ghost q0 = pass_of(ar@, bl@, *m, s0);
    state.record(tokens);
    let ghost p = pass_of(ar@, bl@, *m, *state);
    proof {
        assert forall|q: int| 0 <= q < p0 implies #[trigger] q0.tokens[q] == p.tokens[q] by {}
        lemma_in_step_prefix(s0, q0, p, p0 as int);
        lemma_recorded(s0, *state, p, p0 as int);
        lemma_pass_starts(*state, p, p0 + k, p0 as int);
    }
    let mut lanes: Vec<Vec<u32>> = Vec::new();
    let mut i: usize = 0;
    while i < k
        invariant
            i <= k,
            k == tokens@.len(),
            ar.wf(),
            runnable(*m),
            p.n == ar@,
            p.m == *m,
            forall|i: int| 0 <= i < tokens@.len() ==> #[trigger] tokens@[i] < m.cfg.vocab_size,
            p0 + k <= p.tokens.len(),
            forall|j: int| 0 <= j < k ==> #[trigger] tokens@[j] == p.tokens[p0 + j],
            are_lanes(lanes@, p, 0, p0 as int, i as int),
        decreases k - i,
    {
        let first = embed(ar, m, tokens[i]);
        assert(tokens@[i as int] == p.tokens[p0 + i]);
        lanes.push(first);
        i = i + 1;
    }
    let ghost s1 = *state;
    let recs = recall_chunk(ar, m, state, p0, k, Ghost(p));
    proof {
        lemma_pass_keeps(s1, *state, p, 0, p0 + k, p0 as int, p0 as int);
    }
    let mut layer: usize = 0;
    while layer < m.cfg.num_layers
        invariant
            layer <= m.cfg.num_layers,
            ar.wf(),
            bl.wf(),
            runnable(*m),
            p.n == ar@,
            p.o == bl@,
            p.m == *m,
            p0 + k <= p.tokens.len(),
            mid_pass(*state, p, layer as int, p0 + k, p0 as int, p0 as int),
            state.pos == p0,
            state.kv_window == s0.kv_window,
            state.cache_len == s0.cache_len,
            state.hidden@ == s0.hidden@,
            mid_memory(*state, p, m.cfg.engram.sites@.len() as int, p0 + k, p0 as int),
            recs@.len() == k,
            forall|i: int| 0 <= i < k ==> is_recall(#[trigger] recs@[i], p, p0 + i),
            are_lanes(lanes@, p, layer as int, p0 as int, k as int),
        decreases m.cfg.num_layers - layer,
    {
        let ghost before = *state;
        lanes = layer_chunk(ar, bl, m, state, layer, p0, &lanes, &recs, Ghost(p));
        proof {
            lemma_memory_keeps(
                before,
                *state,
                p,
                m.cfg.engram.sites@.len() as int,
                p0 + k,
                p0 as int,
            );
        }
        layer = layer + 1;
    }
    let ghost s2 = *state;
    state.advance(k);
    proof {
        lemma_pass_ends(s2, p, p0 + k, p0 as int);
        let p1 = pass_of(ar@, bl@, *m, *state);
        assert(p1.tokens =~= p.tokens);
        lemma_same_cells(s2, *state, p, p1, p0 + k);
    }
    lanes
}

/// What feeding tokens does to a state, whether they are admitted or not.
pub open spec fn fed_all(
    before: V2State<u32>,
    after: V2State<u32>,
    n: Num<u32>,
    o: VectorOps,
    m: V2Model,
    tokens: Seq<u32>,
    fault: Option<&'static str>,
) -> bool {
    &&& in_step(after, pass_of(n, o, m, after), after.pos as int)
    &&& after.kv_window == before.kv_window
    &&& after.cache_len == before.cache_len
    &&& match fault {
        Some(_) => after == before,
        None => {
            &&& after.pos == before.pos + tokens.len()
            &&& after.history@ == fed(before.history@, before.pos as int, tokens)
            &&& tokens.len() == 0 ==> after.hidden@ == before.hidden@
            &&& tokens.len() > 0 ==> after.hidden@ == pass_of(n, o, m, after).hidden(
                after.pos - 1,
            ) && after.hidden@.len() == m.cfg.d_model
        },
    }
}

impl V2Model {
    /// Feed tokens from the current position on, in chunks of the batch's size.
    ///
    /// `logits` is the length of the caller's buffer for scores, where there is one;
    /// then the scores of the last token are given. The state is left as feeding the
    /// tokens one by one would leave it. Tokens that are not admitted leave it as it
    /// was.
    pub fn prefill_batch<
        U: Fn(Unary, u32) -> u32 + Sync,
        B: Fn(Binary, u32, u32) -> u32 + Sync,
        C: Fn(usize) -> u32 + Sync,
        N: Fn(&[u32], &[u32]) -> Vec<u32>,
        S: Fn(&[u32]) -> Vec<u32>,
        R: Fn(&[u32], usize, usize) -> Vec<u32>,
    >(
        &self,
        ar: &Arith<U, B, C>,
        bl: &Blocks<N, S, R>,
        tokens: &[u32],
        state: &mut V2State<u32>,
        batch: &V2Batch,
        logits: Option<usize>,
    ) -> (r: Result<Option<Vec<u32>>, &'static str>)
        requires
            ar.wf(),
            bl.wf(),
            runnable(*self),
            in_step(*old(state), pass_of(ar@, bl@, *self, *old(state)), old(state).pos as int),
        ensures
            fed_all(
                *old(state),
                *final(state),
                ar@,
                bl@,
                *self,
                tokens@,
                prefill_fault(self.cfg, old(state).pos as int, tokens@, logits),
            ),
            match prefill_fault(self.cfg, old(state).pos as int, tokens@, logits) {
                Some(e) => r is Err && r->Err_0 == e,
                None => {
                    &&& r is Ok
                    &&& r->Ok_0 is Some <==> logits is Some && tokens@.len() > 0
                    &&& r->Ok_0 is Some ==> r->Ok_0->0@ == pass_of(
                        ar@,
                        bl@,
                        *self,
                        *final(state),
                    ).scores(old(state).pos + tokens@.len() - 1)
                },
            },
    {
        let p0: usize = state.pos;
        let n: usize = tokens.len();
        let ghost s0 = *state;
        let ghost cap = if batch.cap == 0 {
            1
        } else {
            batch.cap as int
        };
        let chunks = match self.plan_prefill(tokens, p0, batch.cap, logits) {
            Ok(v) => v,
            Err(e) => return Err(e),
        };
        let mut scores: Option<Vec<u32>> = None;
        let mut c: usize = 0;
        let mut done: usize = 0;
        proof {
            assert(fed(s0.history@, p0 as int, tokens@.take(0)) =~= s0.history@);
            if n == 0 {
                assert(chunks@.len() == 0) by {
                    vstd::arithmetic::div_mod::lemma_basic_div(cap - 1, cap);
                }
            } else {
                vstd::arithmetic::div_mod::lemma_div_is_ordered(cap, n + cap - 1, cap);
                vstd::arithmetic::div_mod::lemma_div_by_self(cap);
                assert(0 * cap == 0);
            }
        }
        while c < chunks.len()
            invariant
                c <= chunks@.len(),
                n == tokens@.len(),
                done <= n,
                ar.wf(),
                bl.wf(),
                runnable(*self),
                cap > 0,
                n == 0 <==> chunks@.len() == 0,
                is_chunking(chunks@, n as int, cap, logits is Some),
                n > 0 ==> p0 + n <= self.cfg.max_seq_len,
                forall|i: int| 0 <= i < n ==> #[trigger] tokens@[i] < self.cfg.vocab_size,
                s0.history@.len() == self.cfg.max_seq_len,
                p0 <= s0.history@.len(),
                c < chunks@.len() ==> done == chunks@[c as int].start,
                c == chunks@.len() ==> done == n,
                in_step(*state, pass_of(ar@, bl@, *self, *state), state.pos as int),
                state.pos == p0 + done,
                state.history@ == fed(s0.history@, p0 as int, tokens@.take(done as int)),
                state.kv_window == s0.kv_window,
                state.cache_len == s0.cache_len,
                n == 0 ==> state.hidden@ == s0.hidden@,
                n > 0 && c == chunks@.len() ==> state.hidden@ == pass_of(
                    ar@,
                    bl@,
                    *self,
                    *state,
                ).hidden(p0 + n - 1) && state.hidden@.len() == self.cfg.d_model,
                scores is Some <==> logits is Some && n > 0 && c == chunks@.len(),
                scores is Some ==> scores->0@ == pass_of(ar@, bl@, *self, *state).scores(
                    p0 + n - 1,
                ),
            decreases chunks@.len() - c,
        {
            let ch: Chunk = chunks[c];
            proof {
                law_chunks_cover_the_prompt(chunks@, n as int, cap, logits is Some, c as int);
            }
            let part = slice_subrange(tokens, ch.start, ch.end);
            let ghost before = *state;
            proof {
                assert forall|i: int| 0 <= i < part@.len() implies #[trigger] part@[i]
                    < self.cfg.vocab_size by {
                    assert(part@[i] == tokens@[ch.start + i]);
                }
            }
            let lanes = prefill_chunk(ar, bl, self, part, state);
            proof {
                law_cutting_a_prompt_keeps_the_history(
                    s0.history@,
                    p0 as int,
                    tokens@.take(done as int),
                    part@,
                );
                assert(tokens@.take(done as int) + part@ =~= tokens@.take(ch.end as int));
            }
            if c + 1 == chunks.len() {
                let at: usize = ch.end - ch.start - 1;
                let ghost p = pass_of(ar@, bl@, *self, *state);
                assert(lanes@[at as int]@ == p.lanes(
                    self.cfg.num_layers as int,
                    before.pos + at,
                ));
                assert(lanes@[at as int]@.len() == self.cfg.mhc_lanes * self.cfg.d_model);
                let hidden = pool(ar, bl, self, &lanes[at], Ghost(p));
                if ch.scores {
                    scores = Some(score_hidden(ar, self, hidden.as_slice()));
                }
                let ghost fed_state = *state;
                state.hidden = hidden;
                proof {
                    let p1 = pass_of(ar@, bl@, *self, *state);
                    assert(p1.tokens =~= p.tokens);
                    lemma_same_cells(fed_state, *state, p, p1, state.pos as int);
                }
            }
            done = ch.end;
            c = c + 1;
        }
        assert(tokens@.take(n as int) =~= tokens@);
        Ok(scores)
    }
}

/// `states` are what feeding the tokens one by one makes of the first of them.
pub open spec fn are_steps(
    states: Seq<V2State<u32>>,
    n: Num<u32>,
    o: VectorOps,
    m: V2Model,
    tokens: Seq<u32>,
) -> bool {
    &&& states.len() == tokens.len() + 1
    &&& forall|i: int|
        0 <= i < tokens.len() ==> #[trigger] fed_one(
            states[i],
            states[i + 1],
            n,
            o,
            m,
            tokens[i],
            None,
        )
}

proof fn lemma_steps(
    states: Seq<V2State<u32>>,
    n: Num<u32>,
    o: VectorOps,
    m: V2Model,
    tokens: Seq<u32>,
    i: int,
)
    requires
        are_steps(states, n, o, m, tokens),
        in_step(states[0], pass_of(n, o, m, states[0]), states[0].pos as int),
        states[0].pos + tokens.len() <= states[0].history@.len(),
        0 <= i <= tokens.len(),
    ensures
        states[i].pos == states[0].pos + i,
        states[i].history@ == fed(states[0].history@, states[0].pos as int, tokens.take(i)),
        states[i].kv_window == states[0].kv_window,
        states[i].cache_len == states[0].cache_len,
        in_step(states[i], pass_of(n, o, m, states[i]), states[i].pos as int),
    decreases i,
{
    let first = states[0].history@;
    let pos = states[0].pos as int;
    if i == 0 {
        assert(fed(first, pos, tokens.take(0)) =~= first);
    } else {
        lemma_steps(states, n, o, m, tokens, i - 1);
        assert(fed_one(states[i - 1], states[i - 1 + 1], n, o, m, tokens[i - 1], None));
        law_cutting_a_prompt_keeps_the_history(
            first,
            pos,
            tokens.take(i - 1),
            seq![tokens[i - 1]],
        );
        assert(tokens.take(i - 1) + seq![tokens[i - 1]] =~= tokens.take(i));
    }
}

/// Feeding a prompt in chunks leaves what feeding it token by token leaves: the
/// same tokens at the same positions, the same pass and so the same scores at
/// every position, the same hidden state, and the same keys, values and memory
/// wherever they can be read.
pub proof fn law_chunks_give_what_steps_give(
    before: V2State<u32>,
    after: V2State<u32>,
    states: Seq<V2State<u32>>,
    n: Num<u32>,
    o: VectorOps,
    m: V2Model,
    tokens: Seq<u32>,
)
    requires
        in_step(before, pass_of(n, o, m, before), before.pos as int),
        before.pos + tokens.len() <= before.history@.len(),
        fed_all(before, after, n, o, m, tokens, None),
        are_steps(states, n, o, m, tokens),
        states[0] == before,
    ensures
        states.last().pos == after.pos,
        states.last().history@ == after.history@,
        states.last().hidden@ == after.hidden@,
        pass_of(n, o, m, states.last()) == pass_of(n, o, m, after),
        forall|l: int, h: int, q: int|
            0 <= l < m.cfg.num_layers && 0 <= h < after.kv_heads && 0 <= q < after.pos && after.pos
                - q <= after.cache_len ==> {
                &&& #[trigger] states.last().key(l, h, q) == after.key(l, h, q)
                &&& states.last().value(l, h, q) == after.value(l, h, q)
            },
        forall|s: int, q: int|
            0 <= s < m.cfg.engram.sites@.len() && 0 <= q < after.pos && after.pos - q <= after.ring
                ==> #[trigger] states.last().memory(s, q) == after.memory(s, q),
{
    let k = tokens.len() as int;
    lemma_steps(states, n, o, m, tokens, k);
    assert(tokens.take(k) =~= tokens);
    let b = states.last();
    if k > 0 {
        lemma_steps(states, n, o, m, tokens, k - 1);
        assert(fed_one(states[k - 1], states[k - 1 + 1], n, o, m, tokens[k - 1], None));
    }
    let p = pass_of(n, o, m, after);
    let pos = after.pos as int;
    assert forall|l: int, h: int, q: int|
        0 <= l < m.cfg.num_layers && 0 <= h < after.kv_heads && 0 <= q < after.pos && after.pos - q
            <= after.cache_len implies {
        &&& #[trigger] b.key(l, h, q) == after.key(l, h, q)
        &&& b.value(l, h, q) == after.value(l, h, q)
    } by {
        crate::pass::lemma_rows(p, l, pos);
        assert(crate::state::remembers(b, l, p.rows(l, pos)));
        assert(crate::state::remembers(after, l, p.rows(l, pos)));
        assert(after.key(l, h, q) == after.key(l, h, q));
    }
    assert forall|s: int, q: int|
        0 <= s < m.cfg.engram.sites@.len() && 0 <= q < after.pos && after.pos - q
            <= after.ring implies #[trigger] b.memory(s, q) == after.memory(s, q) by {
        assert(crate::batch::recalls(b, s, p.values(s, pos)));
        assert(crate::batch::recalls(after, s, p.values(s, pos)));
        assert(after.memory(s, q) == p.values(s, pos)[q]);
    }
}

/// A blank state of a model's sizes is in step with the empty sequence.
pub proof fn law_a_blank_state_is_in_step(
    s: V2State<u32>,
    n: Num<u32>,
    o: VectorOps,
    m: V2Model,
)
    requires
        s.wf(),
        s.pos == 0,
        is_sized(s, m.cfg, s.cache_len as int),
    ensures
        in_step(s, pass_of(n, o, m, s), 0),
{
    let p = pass_of(n, o, m, s);
    assert forall|l: int| 0 <= l < m.cfg.num_layers implies crate::state::remembers(
        s,
        l,
        #[trigger] p.rows(l, 0),
    ) by {
        crate::pass::lemma_rows(p, l, 0);
    }
}

} // verus!
