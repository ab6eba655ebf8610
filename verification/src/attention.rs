//! Attention over the cached rows of a window, and the rest of a layer.

use crate::arith::{Arith, Binary, Num, Unary, ONE};
use crate::blocks::{Blocks, VectorOps};
use crate::config::{config_fault, kv_head, law_query_heads_share_key_heads_in_blocks, V2Config};
use crate::dot::{dot_in_order, group_dot_serial, sum};
use crate::exact::{is_semiring, lemma_distributed};
use crate::kernels::{hadamard_block, hadamard_mlp};
use crate::lanes::{add_scaled, add_scaled_to};
use crate::memory::products;
use crate::model::{is_width_for, layer_fault, V2Layer};
use crate::pow2::is_pow2;
use crate::rotate::prepared;
use crate::state::{law_window_stays_within_the_rings, remembers, window_start, V2State};
use vstd::arithmetic::div_mod::*;
use vstd::prelude::*;
use vstd::slice::slice_subrange;

verus! {

/// Key and value of a position, all heads one behind the other.
pub type KvRow = (Seq<u32>, Seq<u32>);

/// Head `h` of a vector of heads.
pub open spec fn head_part(x: Seq<u32>, h: int, hd: int) -> Seq<u32> {
    x.subrange(h * hd, h * hd + hd)
}

/// Every head normed with the same scale.
pub open spec fn heads_normed(o: VectorOps, x: Seq<u32>, hd: int, scale: Seq<u32>) -> Seq<u32> {
    Seq::new(x.len(), |i: int| (o.norm)(head_part(x, i / hd, hd), scale)[i % hd])
}

/// What a layer's projections read.
pub open spec fn block_input(n: Num<u32>, o: VectorOps, l: V2Layer, bx: Seq<u32>) -> Seq<u32> {
    prepared(n, l.q_proj, (o.norm)(bx, l.norm_in@))
}

/// The query of a position.
pub open spec fn query_of(
    n: Num<u32>,
    o: VectorOps,
    c: V2Config,
    l: V2Layer,
    xh: Seq<u32>,
    pos: int,
) -> Seq<u32> {
    let raw = products(n, l.q_proj, xh, c.num_heads * c.head_dim);
    (o.rope)(
        heads_normed(o, raw, c.head_dim as int, l.q_norm@),
        c.num_heads,
        pos as usize,
    )
}

/// Key and value of a position.
pub open spec fn kv_of(
    n: Num<u32>,
    o: VectorOps,
    c: V2Config,
    l: V2Layer,
    xh: Seq<u32>,
    pos: int,
) -> KvRow {
    let w = c.num_kv_heads * c.head_dim;
    let raw = products(n, l.k_proj, xh, w);
    (
        (o.rope)(
            heads_normed(o, raw, c.head_dim as int, l.k_norm@),
            c.num_kv_heads,
            pos as usize,
        ),
        products(n, l.v_proj, xh, w),
    )
}

/// The factor on attention scores.
pub open spec fn score_scale(n: Num<u32>, c: V2Config) -> u32 {
    n.over(n.one, n.root(n.number(c.head_dim as int)))
}

/// The attention scores of one head over the positions from `lo` to `pos`.
pub open spec fn head_scores(
    n: Num<u32>,
    c: V2Config,
    q: Seq<u32>,
    rows: Seq<KvRow>,
    head: int,
    lo: int,
    pos: int,
) -> Seq<u32> {
    let hd = c.head_dim as int;
    Seq::new(
        (pos - lo + 1) as nat,
        |s: int|
            n.times(
                dot_in_order(
                    n,
                    head_part(q, head, hd),
                    head_part(rows[lo + s].0, kv_head(c, head), hd),
                ),
                score_scale(n, c),
            ),
    )
}

/// Entry `i` of the values of the first `k` positions from `lo` on, weighted and
/// summed.
pub open spec fn weighted_at(
    n: Num<u32>,
    hd: int,
    w: Seq<u32>,
    rows: Seq<KvRow>,
    kvh: int,
    lo: int,
    k: int,
    i: int,
) -> u32
    decreases k,
{
    if k <= 0 {
        n.zero
    } else {
        n.plus(
            weighted_at(n, hd, w, rows, kvh, lo, k - 1, i),
            n.times(w[k - 1], head_part(rows[lo + k - 1].1, kvh, hd)[i]),
        )
    }
}

/// What one head attends to: the values of its window, weighted by the softmax
/// of its scores.
pub open spec fn head_attended(
    n: Num<u32>,
    o: VectorOps,
    c: V2Config,
    q: Seq<u32>,
    rows: Seq<KvRow>,
    head: int,
    lo: int,
    pos: int,
) -> Seq<u32> {
    let hd = c.head_dim as int;
    let w = (o.softmax)(head_scores(n, c, q, rows, head, lo, pos));
    Seq::new(
        hd as nat,
        |i: int| weighted_at(n, hd, w, rows, kv_head(c, head), lo, pos - lo + 1, i),
    )
}

/// What all heads attend to, gated.
pub open spec fn attended(
    n: Num<u32>,
    o: VectorOps,
    c: V2Config,
    q: Seq<u32>,
    gate: Seq<u32>,
    rows: Seq<KvRow>,
    window: int,
    pos: int,
) -> Seq<u32> {
    let hd = c.head_dim as int;
    let lo = window_start(window, pos);
    Seq::new(
        (c.num_heads * c.head_dim) as nat,
        |j: int|
            n.times(
                head_attended(n, o, c, q, rows, j / hd, lo, pos)[j % hd],
                n.sigmoid(gate[j]),
            ),
    )
}

/// The attention of a layer at a position whose projections read `xh`. `rows`
/// are the keys and values of all positions up to it.
pub open spec fn attention_of(
    n: Num<u32>,
    o: VectorOps,
    c: V2Config,
    l: V2Layer,
    xh: Seq<u32>,
    rows: Seq<KvRow>,
    window: int,
    pos: int,
) -> Seq<u32> {
    let q = query_of(n, o, c, l, xh, pos);
    let gate = products(n, l.gate_proj, xh, c.num_heads * c.head_dim);
    let a = attended(n, o, c, q, gate, rows, window, pos);
    products(n, l.out_proj, prepared(n, l.out_proj, a), c.d_model as int)
}

proof fn lemma_weighted_of_window(
    n: Num<u32>,
    hd: int,
    w: Seq<u32>,
    a: Seq<KvRow>,
    b: Seq<KvRow>,
    kvh: int,
    lo: int,
    k: int,
    i: int,
)
    requires
        forall|q: int| lo <= q < lo + k ==> #[trigger] a[q] == b[q],
    ensures
        weighted_at(n, hd, w, a, kvh, lo, k, i) == weighted_at(n, hd, w, b, kvh, lo, k, i),
    decreases k,
{
    if k > 0 {
        lemma_weighted_of_window(n, hd, w, a, b, kvh, lo, k - 1, i);
        assert(a[lo + k - 1] == b[lo + k - 1]);
    }
}

/// Attention reads the keys and values of its window and of no other position:
/// neither later ones nor those before the window.
pub proof fn law_attention_reads_its_window(
    n: Num<u32>,
    o: VectorOps,
    c: V2Config,
    l: V2Layer,
    xh: Seq<u32>,
    a: Seq<KvRow>,
    b: Seq<KvRow>,
    window: int,
    pos: int,
)
    requires
        0 <= window,
        0 <= pos,
        forall|q: int| window_start(window, pos) <= q <= pos ==> #[trigger] a[q] == b[q],
    ensures
        attention_of(n, o, c, l, xh, a, window, pos) == attention_of(
            n,
            o,
            c,
            l,
            xh,
            b,
            window,
            pos,
        ),
{
    let lo = window_start(window, pos);
    let q = query_of(n, o, c, l, xh, pos);
    let gate = products(n, l.gate_proj, xh, c.num_heads * c.head_dim);
    let hd = c.head_dim as int;
    assert forall|head: int|
        #[trigger] head_attended(n, o, c, q, a, head, lo, pos) == head_attended(
            n,
            o,
            c,
            q,
            b,
            head,
            lo,
            pos,
        ) by {
        let sa = head_scores(n, c, q, a, head, lo, pos);
        let sb = head_scores(n, c, q, b, head, lo, pos);
        assert forall|s: int| 0 <= s < sa.len() implies sa[s] == sb[s] by {
            assert(a[lo + s] == b[lo + s]);
        }
        assert(sa =~= sb);
        let w = (o.softmax)(sa);
        let (ha, hb) = (
            head_attended(n, o, c, q, a, head, lo, pos),
            head_attended(n, o, c, q, b, head, lo, pos),
        );
        assert forall|i: int| 0 <= i < ha.len() implies ha[i] == hb[i] by {
            lemma_weighted_of_window(n, hd, w, a, b, kv_head(c, head), lo, pos - lo + 1, i);
        }
        assert(ha =~= hb);
    }
    let (ga, gb) = (
        attended(n, o, c, q, gate, a, window, pos),
        attended(n, o, c, q, gate, b, window, pos),
    );
    assert forall|j: int| 0 <= j < ga.len() implies ga[j] == gb[j] by {
        assert(head_attended(n, o, c, q, a, j / hd, lo, pos) == head_attended(
            n,
            o,
            c,
            q,
            b,
            j / hd,
            lo,
            pos,
        ));
    }
    assert(ga =~= gb);
}

proof fn lemma_weighted_of_key_head(
    n: Num<u32>,
    hd: int,
    w: Seq<u32>,
    a: Seq<KvRow>,
    b: Seq<KvRow>,
    kvh: int,
    lo: int,
    k: int,
    i: int,
)
    requires
        forall|p: int|
            lo <= p < lo + k ==> (#[trigger] a[p]).1.subrange(kvh * hd, kvh * hd + hd)
                == b[p].1.subrange(kvh * hd, kvh * hd + hd),
    ensures
        weighted_at(n, hd, w, a, kvh, lo, k, i) == weighted_at(n, hd, w, b, kvh, lo, k, i),
    decreases k,
{
    if k > 0 {
        lemma_weighted_of_key_head(n, hd, w, a, b, kvh, lo, k - 1, i);
        let p = lo + k - 1;
        assert(a[p].1.subrange(kvh * hd, kvh * hd + hd) == b[p].1.subrange(
            kvh * hd,
            kvh * hd + hd,
        ));
    }
}

proof fn lemma_block_of_heads(c: V2Config, k: int, i: int, e: int)
    requires
        config_fault(c) is None,
        0 <= k < c.num_kv_heads,
        0 <= i < c.num_heads as int / c.num_kv_heads as int,
        0 <= e < c.head_dim,
    ensures
        ({
            let head = k * (c.num_heads as int / c.num_kv_heads as int) + i;
            let j = head * c.head_dim + e;
            &&& kv_head(c, head) == k
            &&& 0 <= j < c.num_heads * c.head_dim
            &&& j / (c.head_dim as int) == head
            &&& j % (c.head_dim as int) == e
        }),
{
    let hd = c.head_dim as int;
    let head = k * (c.num_heads as int / c.num_kv_heads as int) + i;
    let j = head * hd + e;
    law_query_heads_share_key_heads_in_blocks(c, k, i);
    lemma_head_cell(head, c.num_heads as int, e, hd);
    assert(j == hd * head + e) by (nonlinear_arith)
        requires
            j == head * hd + e,
    ;
    lemma_fundamental_div_mod_converse(j, hd, head, e);
}

/// The query heads of a block read one key head and no other: what block `k` of
/// neighbouring query heads attends to depends on the `k`th part of the keys and
/// of the values alone. With two query heads for each key head, heads 0 and 1 read
/// the first part, heads 2 and 3 the second.
pub proof fn law_query_heads_read_their_key_head_alone(
    n: Num<u32>,
    o: VectorOps,
    c: V2Config,
    q: Seq<u32>,
    gate: Seq<u32>,
    a: Seq<KvRow>,
    b: Seq<KvRow>,
    window: int,
    pos: int,
    k: int,
    i: int,
    e: int,
)
    requires
        config_fault(c) is None,
        0 <= window,
        0 <= pos,
        0 <= k < c.num_kv_heads,
        0 <= i < c.num_heads as int / c.num_kv_heads as int,
        0 <= e < c.head_dim,
        forall|p: int|
            window_start(window, pos) <= p <= pos ==> (#[trigger] a[p]).0.subrange(
                k * c.head_dim,
                k * c.head_dim + c.head_dim,
            ) == b[p].0.subrange(k * c.head_dim, k * c.head_dim + c.head_dim)
                && a[p].1.subrange(k * c.head_dim, k * c.head_dim + c.head_dim)
                == b[p].1.subrange(k * c.head_dim, k * c.head_dim + c.head_dim),
    ensures
        ({
            let j = (k * (c.num_heads as int / c.num_kv_heads as int) + i) * c.head_dim + e;
            attended(n, o, c, q, gate, a, window, pos)[j] == attended(
                n,
                o,
                c,
                q,
                gate,
                b,
                window,
                pos,
            )[j]
        }),
{
    let hd = c.head_dim as int;
    let lo = window_start(window, pos);
    let head = k * (c.num_heads as int / c.num_kv_heads as int) + i;
    lemma_block_of_heads(c, k, i, e);
    let sa = head_scores(n, c, q, a, head, lo, pos);
    let sb = head_scores(n, c, q, b, head, lo, pos);
    assert forall|s: int| 0 <= s < sa.len() implies sa[s] == sb[s] by {
        assert(a[lo + s].0.subrange(k * hd, k * hd + hd) == b[lo + s].0.subrange(
            k * hd,
            k * hd + hd,
        ));
    }
    assert(sa =~= sb);
    lemma_weighted_of_key_head(n, hd, (o.softmax)(sa), a, b, k, lo, pos - lo + 1, e);
}

proof fn lemma_weights_of_one_value(
    n: Num<u32>,
    hd: int,
    w: Seq<u32>,
    rows: Seq<KvRow>,
    kvh: int,
    lo: int,
    k: int,
    i: int,
    v: u32,
)
    requires
        is_semiring(n),
        0 <= k <= w.len(),
        forall|p: int|
            lo <= p < lo + k ==> head_part((#[trigger] rows[p]).1, kvh, hd)[i] == v,
    ensures
        weighted_at(n, hd, w, rows, kvh, lo, k, i) == n.times(sum(n, w.take(k)), v),
    decreases k,
{
    if k > 0 {
        lemma_weights_of_one_value(n, hd, w, rows, kvh, lo, k - 1, i, v);
        assert(w.take(k).drop_last() =~= w.take(k - 1));
        assert(rows[lo + k - 1] == rows[lo + (k - 1)]);
        lemma_distributed(n, sum(n, w.take(k - 1)), w[k - 1], v);
    }
}

/// Attention is a weighted mean of the values: in exact arithmetic, where the
/// values of key head `k` are the same at every position of the window and the
/// weights add up to one, every query head of that block gives that value, times
/// its own sigmoid.
pub proof fn law_attention_of_equal_values_is_that_value(
    n: Num<u32>,
    o: VectorOps,
    c: V2Config,
    q: Seq<u32>,
    gate: Seq<u32>,
    rows: Seq<KvRow>,
    window: int,
    pos: int,
    k: int,
    i: int,
    e: int,
    v: u32,
)
    requires
        is_semiring(n),
        forall|x: u32| #[trigger] n.times(n.one, x) == x,
        config_fault(c) is None,
        0 <= window,
        0 <= pos,
        0 <= k < c.num_kv_heads,
        0 <= i < c.num_heads as int / c.num_kv_heads as int,
        0 <= e < c.head_dim,
        forall|p: int|
            window_start(window, pos) <= p <= pos ==> c.num_kv_heads * c.head_dim <= (
            #[trigger] rows[p]).1.len() && rows[p].1[k * c.head_dim + e] == v,
        forall|s: Seq<u32>|
            s.len() > 0 ==> (#[trigger] (o.softmax)(s)).len() == s.len() && sum(n, (o.softmax)(s))
                == n.one,
    ensures
        ({
            let j = (k * (c.num_heads as int / c.num_kv_heads as int) + i) * c.head_dim + e;
            attended(n, o, c, q, gate, rows, window, pos)[j] == n.times(v, n.sigmoid(gate[j]))
        }),
{
    let hd = c.head_dim as int;
    let lo = window_start(window, pos);
    let head = k * (c.num_heads as int / c.num_kv_heads as int) + i;
    lemma_block_of_heads(c, k, i, e);
    lemma_head_cell(k, c.num_kv_heads as int, e, hd);
    let s = head_scores(n, c, q, rows, head, lo, pos);
    let w = (o.softmax)(s);
    let count = pos - lo + 1;
    assert(s.len() == count);
    assert forall|p: int| lo <= p < lo + count implies head_part((#[trigger] rows[p]).1, k, hd)[e]
        == v by {
        assert(rows[p].1[k * hd + e] == v);
    }
    lemma_weights_of_one_value(n, hd, w, rows, k, lo, count, e, v);
    assert(w.take(count) =~= w);
}

/// What a layer gives, less what it read: the gated attention residual and the
/// Hadamard residual.
pub open spec fn block_output(
    n: Num<u32>,
    o: VectorOps,
    l: V2Layer,
    bx: Seq<u32>,
    u: Seq<u32>,
    att: Seq<u32>,
) -> Seq<u32> {
    let y = add_scaled(n, bx, n.sigmoid(l.attn_gate), (o.norm)(att, l.post_norm@));
    let m = hadamard_block(n, (o.norm)(y, l.pre_hada@), l.d1@, l.d2@, l.d3@);
    Seq::new(y.len(), |i: int| n.minus(n.plus(y[i], m[i]), u[i]))
}

/// A layer's matrices have the shapes that the geometry needs.
pub open spec fn layer_fits(c: V2Config, l: V2Layer) -> bool {
    let attn = c.num_heads * c.head_dim;
    let kv = c.num_kv_heads * c.head_dim;
    &&& config_fault(c) is None
    &&& is_width_for(c.hada_n as int, c.d_model as int)
    &&& layer_fault(c, l) is None
    &&& l.q_proj.wf() && l.q_proj.in_feat == c.d_model && l.q_proj.out_feat == attn
    &&& l.k_proj.wf() && l.k_proj.in_padded == l.q_proj.in_padded && l.k_proj.out_feat == kv
    &&& l.v_proj.wf() && l.v_proj.in_padded == l.q_proj.in_padded && l.v_proj.out_feat == kv
    &&& l.gate_proj.wf() && l.gate_proj.in_padded == l.q_proj.in_padded && l.gate_proj.out_feat
        == attn
    &&& l.out_proj.wf() && l.out_proj.in_feat == attn && l.out_proj.out_feat == c.d_model
}

proof fn lemma_head_cell(h: int, heads: int, i: int, hd: int)
    requires
        0 <= h < heads,
        0 <= i < hd,
    ensures
        0 <= h * hd,
        h * hd + i < heads * hd,
        h * hd + hd <= heads * hd,
        (h * hd + i) / hd == h,
        (h * hd + i) % hd == i,
        (h + 1) * hd == h * hd + hd,
{
    assert(0 <= h * hd && h * hd + hd <= heads * hd && (h + 1) * hd == h * hd + hd)
        by (nonlinear_arith)
        requires
            0 <= h,
            h + 1 <= heads,
            0 <= hd,
    ;
    assert(h * hd + i == hd * h + i) by (nonlinear_arith);
    lemma_fundamental_div_mod_converse(h * hd + i, hd, h, i);
}

/// What a layer's projections read.
pub fn read_block<
    U: Fn(Unary, u32) -> u32 + Sync,
    B: Fn(Binary, u32, u32) -> u32 + Sync,
    C: Fn(usize) -> u32 + Sync,
    N: Fn(&[u32], &[u32]) -> Vec<u32>,
    S: Fn(&[u32]) -> Vec<u32>,
    R: Fn(&[u32], usize, usize) -> Vec<u32>,
>(ar: &Arith<U, B, C>, bl: &Blocks<N, S, R>, l: &V2Layer, bx: &[u32]) -> (xh: Vec<u32>)
    requires
        ar.wf(),
        bl.wf(),
        l.q_proj.wf(),
        bx@.len() == l.q_proj.in_feat,
    ensures
        xh@ == block_input(ar@, bl@, *l, bx@),
        xh@.len() == l.q_proj.in_padded,
{
    let h = bl.norm_of(bx, l.norm_in.as_slice());
    l.q_proj.prepare_input(ar, h.as_slice())
}

/// Norm every head with the same scale.
pub fn norm_heads<
    N: Fn(&[u32], &[u32]) -> Vec<u32>,
    S: Fn(&[u32]) -> Vec<u32>,
    R: Fn(&[u32], usize, usize) -> Vec<u32>,
>(bl: &Blocks<N, S, R>, x: &[u32], heads: usize, hd: usize, scale: &[u32]) -> (out: Vec<u32>)
    requires
        bl.wf(),
        hd > 0,
        x@.len() == heads * hd,
    ensures
        out@ == heads_normed(bl@, x@, hd as int, scale@),
{
    let total: usize = x.len();
    let ghost want = heads_normed(bl@, x@, hd as int, scale@);
    let mut out: Vec<u32> = Vec::new();
    let mut h: usize = 0;
    while h < heads
        invariant
            h <= heads,
            bl.wf(),
            hd > 0,
            total == x@.len(),
            x@.len() == heads * hd,
            want == heads_normed(bl@, x@, hd as int, scale@),
            out@.len() == h * hd,
            forall|i: int| 0 <= i < h * hd ==> #[trigger] out@[i] == want[i],
        decreases heads - h,
    {
        proof {
            lemma_head_cell(h as int, heads as int, 0, hd as int);
        }
        let part = slice_subrange(x, h * hd, h * hd + hd);
        let normed = bl.norm_of(part, scale);
        let mut i: usize = 0;
        while i < hd
            invariant
                i <= hd,
                h < heads,
                hd > 0,
                x@.len() == heads * hd,
                normed@.len() == hd,
                normed@ == (bl@.norm)(head_part(x@, h as int, hd as int), scale@),
                want == heads_normed(bl@, x@, hd as int, scale@),
                out@.len() == h * hd + i,
                forall|j: int| 0 <= j < h * hd + i ==> #[trigger] out@[j] == want[j],
            decreases hd - i,
        {
            proof {
                lemma_head_cell(h as int, heads as int, i as int, hd as int);
            }
            out.push(normed[i]);
            i = i + 1;
        }
        h = h + 1;
    }
    assert(out@ =~= want);
    out
}

/// The query of a position, from the raw projection.
pub fn finish_query<
    N: Fn(&[u32], &[u32]) -> Vec<u32>,
    S: Fn(&[u32]) -> Vec<u32>,
    R: Fn(&[u32], usize, usize) -> Vec<u32>,
>(bl: &Blocks<N, S, R>, c: &V2Config, l: &V2Layer, raw: &[u32], pos: usize) -> (q: Vec<u32>)
    requires
        bl.wf(),
        c.head_dim > 0,
        raw@.len() == c.num_heads * c.head_dim,
    ensures
        q@ == (bl@.rope)(
            heads_normed(bl@, raw@, c.head_dim as int, l.q_norm@),
            c.num_heads,
            pos,
        ),
        q@.len() == raw@.len(),
{
    let normed = norm_heads(bl, raw, c.num_heads, c.head_dim, l.q_norm.as_slice());
    bl.rope_of(normed.as_slice(), c.num_heads, pos)
}

/// The key of a position, from the raw projection.
pub fn finish_key<
    N: Fn(&[u32], &[u32]) -> Vec<u32>,
    S: Fn(&[u32]) -> Vec<u32>,
    R: Fn(&[u32], usize, usize) -> Vec<u32>,
>(bl: &Blocks<N, S, R>, c: &V2Config, l: &V2Layer, raw: &[u32], pos: usize) -> (k: Vec<u32>)
    requires
        bl.wf(),
        c.head_dim > 0,
        raw@.len() == c.num_kv_heads * c.head_dim,
    ensures
        k@ == (bl@.rope)(
            heads_normed(bl@, raw@, c.head_dim as int, l.k_norm@),
            c.num_kv_heads,
            pos,
        ),
        k@.len() == raw@.len(),
{
    let normed = norm_heads(bl, raw, c.num_kv_heads, c.head_dim, l.k_norm.as_slice());
    bl.rope_of(normed.as_slice(), c.num_kv_heads, pos)
}

/// The attention scores of one head over its window.
fn score_head<
    U: Fn(Unary, u32) -> u32 + Sync,
    B: Fn(Binary, u32, u32) -> u32 + Sync,
    C: Fn(usize) -> u32 + Sync,
>(
    ar: &Arith<U, B, C>,
    c: &V2Config,
    state: &V2State<u32>,
    layer: usize,
    q: &[u32],
    head: usize,
    kvh: usize,
    lo: usize,
    pos: usize,
    Ghost(rows): Ghost<Seq<KvRow>>,
) -> (scores: Vec<u32>)
    requires
        ar.wf(),
        config_fault(*c) is None,
        state.wf(),
        layer < state.k_cache@.len(),
        state.kv_heads == c.num_kv_heads,
        state.head_dim == c.head_dim,
        pos < state.history@.len(),
        lo == window_start(state.kv_window as int, pos as int),
        head < c.num_heads,
        kvh == kv_head(*c, head as int),
        kvh < c.num_kv_heads,
        q@.len() == c.num_heads * c.head_dim,
        rows.len() == pos + 1,
        remembers(*state, layer as int, rows),
    ensures
        scores@ == head_scores(ar@, *c, q@, rows, head as int, lo as int, pos as int),
{
    let hd: usize = c.head_dim;
    let total: usize = q.len();
    proof {
        lemma_head_cell(head as int, c.num_heads as int, 0, hd as int);
        law_window_stays_within_the_rings(*state, pos as int, pos as int);
    }
    let qrow = slice_subrange(q, head * hd, head * hd + hd);
    let scale: u32 = ar.div(ONE, ar.sqrt(ar.number(hd)));
    let mut scores: Vec<u32> = Vec::new();
    let mut p: usize = lo;
    while p <= pos
        invariant
            lo <= p <= pos + 1,
            ar.wf(),
            config_fault(*c) is None,
            state.wf(),
            layer < state.k_cache@.len(),
            state.kv_heads == c.num_kv_heads,
            state.head_dim == c.head_dim,
            hd == c.head_dim,
            pos < state.history@.len(),
            lo == window_start(state.kv_window as int, pos as int),
            kvh == kv_head(*c, head as int),
            kvh < c.num_kv_heads,
            qrow@ == head_part(q@, head as int, hd as int),
            qrow@.len() == hd,
            scale == score_scale(ar@, *c),
            rows.len() == pos + 1,
            remembers(*state, layer as int, rows),
            scores@.len() == p - lo,
            forall|s: int|
                0 <= s < p - lo ==> #[trigger] scores@[s] == head_scores(
                    ar@,
                    *c,
                    q@,
                    rows,
                    head as int,
                    lo as int,
                    pos as int,
                )[s],
        decreases pos + 1 - p,
    {
        let n_hist: usize = state.history.len();
        proof {
            law_window_stays_within_the_rings(*state, pos as int, p as int);
            assert(state.key(layer as int, kvh as int, p as int) == rows[p as int].0.subrange(
                kvh * hd,
                kvh * hd + hd,
            ));
        }
        let krow = state.k_at(layer, kvh, p);
        let dot: u32 = group_dot_serial(ar, qrow, krow);
        let v: u32 = ar.mul(dot, scale);
        proof {
            let s = p - lo;
            assert(rows[lo + s] == rows[p as int]);
        }
        scores.push(v);
        p = p + 1;
    }
    assert(scores@ =~= head_scores(ar@, *c, q@, rows, head as int, lo as int, pos as int));
    scores
}

/// The values of a window, weighted and summed.
fn weigh_head<
    U: Fn(Unary, u32) -> u32 + Sync,
    B: Fn(Binary, u32, u32) -> u32 + Sync,
    C: Fn(usize) -> u32 + Sync,
>(
    ar: &Arith<U, B, C>,
    c: &V2Config,
    state: &V2State<u32>,
    layer: usize,
    w: &[u32],
    kvh: usize,
    lo: usize,
    pos: usize,
    Ghost(rows): Ghost<Seq<KvRow>>,
) -> (out: Vec<u32>)
    requires
        ar.wf(),
        state.wf(),
        layer < state.k_cache@.len(),
        state.kv_heads == c.num_kv_heads,
        state.head_dim == c.head_dim,
        pos < state.history@.len(),
        lo == window_start(state.kv_window as int, pos as int),
        kvh < c.num_kv_heads,
        w@.len() == pos - lo + 1,
        rows.len() == pos + 1,
        remembers(*state, layer as int, rows),
    ensures
        out@ == Seq::new(
            c.head_dim as nat,
            |i: int|
                weighted_at(
                    ar@,
                    c.head_dim as int,
                    w@,
                    rows,
                    kvh as int,
                    lo as int,
                    pos - lo + 1,
                    i,
                ),
        ),
{
    let hd: usize = c.head_dim;
    let n_hist: usize = state.history.len();
    proof {
        law_window_stays_within_the_rings(*state, pos as int, pos as int);
    }
    let span: usize = pos - lo + 1;
    let mut out: Vec<u32> = crate::state::filled_cells(0u32, hd);
    let mut s: usize = 0;
    while s < span
        invariant
            s <= span,
            span == pos - lo + 1,
            lo <= pos,
            pos < state.history@.len(),
            n_hist == state.history@.len(),
            ar.wf(),
            state.wf(),
            layer < state.k_cache@.len(),
            state.kv_heads == c.num_kv_heads,
            state.head_dim == c.head_dim,
            hd == c.head_dim,
            lo == window_start(state.kv_window as int, pos as int),
            kvh < c.num_kv_heads,
            w@.len() == span,
            rows.len() == pos + 1,
            remembers(*state, layer as int, rows),
            out@.len() == hd,
            forall|i: int|
                0 <= i < hd ==> #[trigger] out@[i] == weighted_at(
                    ar@,
                    hd as int,
                    w@,
                    rows,
                    kvh as int,
                    lo as int,
                    s as int,
                    i,
                ),
        decreases span - s,
    {
        let p: usize = lo + s;
        proof {
            law_window_stays_within_the_rings(*state, pos as int, p as int);
            assert(state.key(layer as int, kvh as int, p as int) == state.key(
                layer as int,
                kvh as int,
                p as int,
            ));
            assert(state.value(layer as int, kvh as int, p as int) == rows[p as int].1.subrange(
                kvh * hd,
                kvh * hd + hd,
            ));
        }
        let vrow = state.v_at(layer, kvh, p);
        let weight: u32 = w[s];
        let ghost before = out@;
        let mut i: usize = 0;
        while i < hd
            invariant
                i <= hd,
                ar.wf(),
                vrow@.len() == hd,
                before.len() == hd,
                out@.len() == hd,
                forall|j: int|
                    0 <= j < i ==> #[trigger] out@[j] == ar@.plus(
                        before[j],
                        ar@.times(weight, vrow@[j]),
                    ),
                forall|j: int| i <= j < hd ==> #[trigger] out@[j] == before[j],
            decreases hd - i,
        {
            let v: u32 = ar.mul_add(out[i], weight, vrow[i]);
            out.set(i, v);
            i = i + 1;
        }
        proof {
            assert forall|i: int| 0 <= i < hd implies #[trigger] out@[i] == weighted_at(
                ar@,
                hd as int,
                w@,
                rows,
                kvh as int,
                lo as int,
                s + 1,
                i,
            ) by {
                assert(before[i] == weighted_at(
                    ar@,
                    hd as int,
                    w@,
                    rows,
                    kvh as int,
                    lo as int,
                    s as int,
                    i,
                ));
                assert(vrow@ == head_part(rows[lo + (s + 1) - 1].1, kvh as int, hd as int));
            }
        }
        s = s + 1;
    }
    assert(out@ =~= Seq::new(
        c.head_dim as nat,
        |i: int|
            weighted_at(
                ar@,
                c.head_dim as int,
                w@,
                rows,
                kvh as int,
                lo as int,
                pos - lo + 1,
                i,
            ),
    ));
    out
}

/// What all heads of a layer attend to at a position, gated. The rings hold the
/// rows of the positions up to it.
pub(crate) fn attend<
    U: Fn(Unary, u32) -> u32 + Sync,
    B: Fn(Binary, u32, u32) -> u32 + Sync,
    C: Fn(usize) -> u32 + Sync,
    N: Fn(&[u32], &[u32]) -> Vec<u32>,
    S: Fn(&[u32]) -> Vec<u32>,
    R: Fn(&[u32], usize, usize) -> Vec<u32>,
>(
    ar: &Arith<U, B, C>,
    bl: &Blocks<N, S, R>,
    c: &V2Config,
    state: &V2State<u32>,
    layer: usize,
    q: &[u32],
    gate: &[u32],
    pos: usize,
    Ghost(rows): Ghost<Seq<KvRow>>,
) -> (out: Vec<u32>)
    requires
        ar.wf(),
        bl.wf(),
        config_fault(*c) is None,
        state.wf(),
        layer < state.k_cache@.len(),
        state.kv_heads == c.num_kv_heads,
        state.head_dim == c.head_dim,
        pos < state.history@.len(),
        q@.len() == c.num_heads * c.head_dim,
        gate@.len() == c.num_heads * c.head_dim,
        rows.len() == pos + 1,
        remembers(*state, layer as int, rows),
    ensures
        out@ == attended(
            ar@,
            bl@,
            *c,
            q@,
            gate@,
            rows,
            state.kv_window as int,
            pos as int,
        ),
{
    let hd: usize = c.head_dim;
    let total: usize = gate.len();
    let lo: usize = state.window_lo(pos);
    proof {
        law_window_stays_within_the_rings(*state, pos as int, pos as int);
    }
    let ghost want = attended(
        ar@,
        bl@,
        *c,
        q@,
        gate@,
        rows,
        state.kv_window as int,
        pos as int,
    );
    let mut out: Vec<u32> = Vec::new();
    let mut head: usize = 0;
    while head < c.num_heads
        invariant
            head <= c.num_heads,
            ar.wf(),
            bl.wf(),
            config_fault(*c) is None,
            state.wf(),
            layer < state.k_cache@.len(),
            state.kv_heads == c.num_kv_heads,
            state.head_dim == c.head_dim,
            hd == c.head_dim,
            hd > 0,
            pos < state.history@.len(),
            lo == window_start(state.kv_window as int, pos as int),
            lo <= pos,
            q@.len() == c.num_heads * hd,
            gate@.len() == c.num_heads * hd,
            total == gate@.len(),
            rows.len() == pos + 1,
            remembers(*state, layer as int, rows),
            want == attended(
                ar@,
                bl@,
                *c,
                q@,
                gate@,
                rows,
                state.kv_window as int,
                pos as int,
            ),
            out@.len() == head * hd,
            forall|j: int| 0 <= j < head * hd ==> #[trigger] out@[j] == want[j],
        decreases c.num_heads - head,
    {
        proof {
            lemma_head_cell(head as int, c.num_heads as int, 0, hd as int);
        }
        let kvh: usize = c.kv_head_of(head);
        let scores = score_head(
            ar,
            c,
            state,
            layer,
            q,
            head,
            kvh,
            lo,
            pos,
            Ghost(rows),
        );
        let w = bl.softmax_of(scores.as_slice());
        let part = weigh_head(ar, c, state, layer, w.as_slice(), kvh, lo, pos, Ghost(rows));
        assert(part@ =~= head_attended(
            ar@,
            bl@,
            *c,
            q@,
            rows,
            head as int,
            lo as int,
            pos as int,
        ));
        let mut i: usize = 0;
        while i < hd
            invariant
                i <= hd,
                head < c.num_heads,
                ar.wf(),
                hd == c.head_dim,
                hd > 0,
                lo == window_start(state.kv_window as int, pos as int),
                gate@.len() == c.num_heads * hd,
                total == gate@.len(),
                head * hd + hd <= c.num_heads * hd,
                part@.len() == hd,
                part@ == head_attended(
                    ar@,
                    bl@,
                    *c,
                    q@,
                    rows,
                    head as int,
                    lo as int,
                    pos as int,
                ),
                want == attended(
                    ar@,
                    bl@,
                    *c,
                    q@,
                    gate@,
                    rows,
                    state.kv_window as int,
                    pos as int,
                ),
                out@.len() == head * hd + i,
                forall|j: int| 0 <= j < head * hd + i ==> #[trigger] out@[j] == want[j],
            decreases hd - i,
        {
            proof {
                lemma_head_cell(head as int, c.num_heads as int, i as int, hd as int);
            }
            let v: u32 = ar.mul(part[i], ar.sigmoid(gate[head * hd + i]));
            out.push(v);
            i = i + 1;
        }
        head = head + 1;
    }
    assert(out@ =~= want);
    out
}

/// What a layer gives, less what it read.
pub fn finish_block<
    U: Fn(Unary, u32) -> u32 + Sync,
    B: Fn(Binary, u32, u32) -> u32 + Sync,
    C: Fn(usize) -> u32 + Sync,
    N: Fn(&[u32], &[u32]) -> Vec<u32>,
    S: Fn(&[u32]) -> Vec<u32>,
    R: Fn(&[u32], usize, usize) -> Vec<u32>,
>(
    ar: &Arith<U, B, C>,
    bl: &Blocks<N, S, R>,
    l: &V2Layer,
    bx: &[u32],
    u: &[u32],
    att: &[u32],
) -> (y: Vec<u32>)
    requires
        ar.wf(),
        bl.wf(),
        u@.len() == bx@.len(),
        att@.len() == bx@.len(),
        is_pow2(l.d1@.len() as int),
        l.d2@.len() == l.d1@.len(),
        l.d3@.len() == l.d1@.len(),
        bx@.len() <= l.d1@.len(),
    ensures
        y@ == block_output(ar@, bl@, *l, bx@, u@, att@),
{
    let normed = bl.norm_of(att, l.post_norm.as_slice());
    let g: u32 = ar.sigmoid(l.attn_gate);
    let y0 = add_scaled_to(ar, bx, g, normed.as_slice());
    let h = bl.norm_of(y0.as_slice(), l.pre_hada.as_slice());
    let m = hadamard_mlp(ar, h.as_slice(), l.d1.as_slice(), l.d2.as_slice(), l.d3.as_slice());
    let d: usize = y0.len();
    let ghost want = block_output(ar@, bl@, *l, bx@, u@, att@);
    let mut y: Vec<u32> = Vec::new();
    let mut i: usize = 0;
    while i < d
        invariant
            i <= d,
            ar.wf(),
            d == y0@.len(),
            d == m@.len(),
            d == u@.len(),
            want == Seq::new(d as nat, |i: int| ar@.minus(ar@.plus(y0@[i], m@[i]), u@[i])),
            y@.len() == i,
            forall|j: int| 0 <= j < i ==> #[trigger] y@[j] == want[j],
        decreases d - i,
    {
        y.push(ar.sub(ar.add(y0[i], m[i]), u[i]));
        i = i + 1;
    }
    assert(y@ =~= want);
    y
}

} // verus!
