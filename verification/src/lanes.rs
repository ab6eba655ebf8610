//! The lane router: several copies of the residual stream, mixed before every
//! layer and updated after it.

use crate::arith::{Arith, Binary, Num, Unary};
use crate::config::{lane_of, V2Config, FOUR, MINUS_FOUR};
use crate::cq::CqWeight;
use crate::kernels::{balanced, rms_unit_to, sinkhorn, unit_rms};
use crate::matmul::product;
use crate::model::{mhc_fault, V2Mhc};
use crate::rotate::prepared;
use vstd::prelude::*;

verus! {

/// Bits of the float 2.
pub const TWO: u32 = 0x4000_0000;

/// `x` plus `s` times `y`.
pub open spec fn add_scaled(n: Num<u32>, x: Seq<u32>, s: u32, y: Seq<u32>) -> Seq<u32> {
    Seq::new(x.len(), |i: int| n.plus(x[i], n.times(s, y[i])))
}

/// `x` plus `s` times `y`.
pub fn add_scaled_to<
    U: Fn(Unary, u32) -> u32 + Sync,
    B: Fn(Binary, u32, u32) -> u32 + Sync,
    C: Fn(usize) -> u32 + Sync,
>(ar: &Arith<U, B, C>, x: &[u32], s: u32, y: &[u32]) -> (out: Vec<u32>)
    requires
        ar.wf(),
        x@.len() == y@.len(),
    ensures
        out@ == add_scaled(ar@, x@, s, y@),
{
    let n: usize = x.len();
    let mut out: Vec<u32> = Vec::new();
    let mut i: usize = 0;
    while i < n
        invariant
            i <= n,
            ar.wf(),
            n == x@.len(),
            n == y@.len(),
            out@.len() == i,
            forall|j: int| 0 <= j < i ==> #[trigger] out@[j] == add_scaled(ar@, x@, s, y@)[j],
        decreases n - i,
    {
        out.push(ar.mul_add(x[i], s, y[i]));
        i = i + 1;
    }
    assert(out@ =~= add_scaled(ar@, x@, s, y@));
    out
}

/// Entry `c` of the first `k` rows weighted by `h` and summed.
pub open spec fn mixed_at(n: Num<u32>, h: Seq<u32>, rows: Seq<u32>, d: int, k: int, c: int) -> u32
    decreases k,
{
    if k <= 0 {
        n.zero
    } else {
        n.plus(mixed_at(n, h, rows, d, k - 1, c), n.times(h[k - 1], rows[(k - 1) * d + c]))
    }
}

/// Rows weighted by `h` and summed.
pub open spec fn mixed_rows(n: Num<u32>, h: Seq<u32>, rows: Seq<u32>, d: int) -> Seq<u32> {
    Seq::new(d as nat, |c: int| mixed_at(n, h, rows, d, h.len() as int, c))
}

proof fn lemma_row_cell(k: int, n: int, c: int, d: int)
    requires
        0 <= k < n,
        0 <= c < d,
    ensures
        0 <= k * d,
        k * d + c < n * d,
        k * d + d <= n * d,
{
    assert(0 <= k * d && k * d + d <= n * d) by (nonlinear_arith)
        requires
            0 <= k,
            k + 1 <= n,
            0 <= d,
    ;
}

/// Rows weighted by `h` and summed.
pub fn mix_rows<
    U: Fn(Unary, u32) -> u32 + Sync,
    B: Fn(Binary, u32, u32) -> u32 + Sync,
    C: Fn(usize) -> u32 + Sync,
>(ar: &Arith<U, B, C>, h: &[u32], rows: &[u32], d: usize) -> (out: Vec<u32>)
    requires
        ar.wf(),
        rows@.len() == h@.len() * d,
    ensures
        out@ == mixed_rows(ar@, h@, rows@, d as int),
{
    let n: usize = h.len();
    let total: usize = rows.len();
    let mut out: Vec<u32> = Vec::new();
    let mut c: usize = 0;
    while c < d
        invariant
            c <= d,
            ar.wf(),
            n == h@.len(),
            total == rows@.len(),
            rows@.len() == n * d,
            out@.len() == c,
            forall|j: int|
                0 <= j < c ==> #[trigger] out@[j] == mixed_rows(ar@, h@, rows@, d as int)[j],
        decreases d - c,
    {
        let mut acc: u32 = 0;
        let mut k: usize = 0;
        while k < n
            invariant
                k <= n,
                c < d,
                ar.wf(),
                n == h@.len(),
                total == rows@.len(),
                rows@.len() == n * d,
                acc == mixed_at(ar@, h@, rows@, d as int, k as int, c as int),
            decreases n - k,
        {
            proof {
                lemma_row_cell(k as int, n as int, c as int, d as int);
            }
            acc = ar.mul_add(acc, h[k], rows[k * d + c]);
            k = k + 1;
        }
        out.push(acc);
        c = c + 1;
    }
    assert(out@ =~= mixed_rows(ar@, h@, rows@, d as int));
    out
}

/// The offset before the input gate of a lane.
pub open spec fn input_offset(c: V2Config, layer: int, lane: int) -> u32 {
    if lane == lane_of(c, layer) {
        FOUR
    } else {
        MINUS_FOUR
    }
}

/// The offset before the output gate of a lane.
pub open spec fn output_offset(c: V2Config, layer: int, lane: int) -> u32 {
    if lane == lane_of(c, layer) {
        0
    } else {
        MINUS_FOUR
    }
}

/// The lane streams normed and rotated, as the router reads them.
pub open spec fn router_input(n: Num<u32>, m: V2Mhc, lanes: Seq<u32>) -> Seq<u32> {
    prepared(n, m.phi_pre, unit_rms(n, lanes))
}

/// A gate before the sigmoid.
pub open spec fn gate_input(n: Num<u32>, a: u32, p: u32, b: u32, off: u32) -> u32 {
    n.plus(n.plus(n.times(a, p), b), off)
}

/// The input gates of a layer's lanes.
pub open spec fn input_gates(
    n: Num<u32>,
    c: V2Config,
    m: V2Mhc,
    xh: Seq<u32>,
    layer: int,
) -> Seq<u32> {
    let l = c.mhc_lanes as int;
    Seq::new(
        l as nat,
        |lane: int|
            n.sigmoid(
                gate_input(
                    n,
                    m.a_pre@[layer],
                    product(n, m.phi_pre, layer * l + lane, xh),
                    m.b_pre@[layer * l + lane],
                    input_offset(c, layer, lane),
                ),
            ),
    )
}

/// The output gates of a layer's lanes.
pub open spec fn output_gates(
    n: Num<u32>,
    c: V2Config,
    m: V2Mhc,
    xh: Seq<u32>,
    layer: int,
) -> Seq<u32> {
    let l = c.mhc_lanes as int;
    Seq::new(
        l as nat,
        |lane: int|
            n.times(
                TWO,
                n.sigmoid(
                    gate_input(
                        n,
                        m.a_post@[layer],
                        product(n, m.phi_post, layer * l + lane, xh),
                        m.b_post@[layer * l + lane],
                        output_offset(c, layer, lane),
                    ),
                ),
            ),
    )
}

/// The mixing matrix of a layer's lanes.
pub open spec fn lane_matrix(
    n: Num<u32>,
    c: V2Config,
    m: V2Mhc,
    xh: Seq<u32>,
    layer: int,
) -> Seq<u32> {
    let l = c.mhc_lanes as int;
    let raw = Seq::new(
        (l * l) as nat,
        |k: int|
            n.plus(
                n.times(m.a_res@[layer], product(n, m.phi_res, layer * l * l + k, xh)),
                m.b_res@[layer * l * l + k],
            ),
    );
    balanced(n, raw, l)
}

/// What a layer reads: the lanes weighted by its input gates.
pub open spec fn layer_input(
    n: Num<u32>,
    c: V2Config,
    m: V2Mhc,
    lanes: Seq<u32>,
    layer: int,
) -> Seq<u32> {
    mixed_rows(
        n,
        input_gates(n, c, m, router_input(n, m, lanes), layer),
        lanes,
        c.d_model as int,
    )
}

/// The lanes after a layer that gave `y`: every lane is a mix of all lanes, plus
/// its share of `y`.
pub open spec fn lanes_after(
    n: Num<u32>,
    c: V2Config,
    m: V2Mhc,
    lanes: Seq<u32>,
    y: Seq<u32>,
    layer: int,
) -> Seq<u32> {
    let xh = router_input(n, m, lanes);
    let l = c.mhc_lanes as int;
    let d = c.d_model as int;
    let gates = output_gates(n, c, m, xh, layer);
    let mix = lane_matrix(n, c, m, xh, layer);
    Seq::new(
        (l * d) as nat,
        |k: int|
            n.plus(
                mixed_at(n, mix.subrange((k / d) * l, (k / d) * l + l), lanes, d, l, k % d),
                n.times(gates[k / d], y[k % d]),
            ),
    )
}

/// The router's matrices have the shapes that the lanes need.
pub open spec fn router_fits(c: V2Config, m: V2Mhc) -> bool {
    &&& c.mhc_lanes > 0
    &&& c.d_model > 0
    &&& mhc_fault(c, m) is None
    &&& m.phi_pre.wf()
    &&& m.phi_post.wf()
    &&& m.phi_res.wf()
    &&& m.phi_post.in_padded == m.phi_pre.in_padded
    &&& m.phi_res.in_padded == m.phi_pre.in_padded
}

/// The lane streams normed and rotated.
pub fn read_router<
    U: Fn(Unary, u32) -> u32 + Sync,
    B: Fn(Binary, u32, u32) -> u32 + Sync,
    C: Fn(usize) -> u32 + Sync,
>(ar: &Arith<U, B, C>, c: &V2Config, m: &V2Mhc, lanes: &[u32]) -> (xh: Vec<u32>)
    requires
        ar.wf(),
        router_fits(*c, *m),
        lanes@.len() == c.mhc_lanes * c.d_model,
    ensures
        xh@ == router_input(ar@, *m, lanes@),
        xh@.len() == m.phi_pre.in_padded,
{
    let nx = rms_unit_to(ar, lanes);
    m.phi_pre.prepare_input(ar, nx.as_slice())
}

proof fn lemma_layer_rows(layer: int, layers: int, n: int)
    requires
        0 <= layer < layers,
        0 < n,
    ensures
        0 <= layer * n,
        layer * n + n <= layers * n,
        0 <= layer * n * n,
        layer * n * n + n * n <= layers * n * n,
        0 <= n * n,
{
    assert(0 <= layer * n && layer * n + n <= layers * n) by (nonlinear_arith)
        requires
            0 <= layer,
            layer + 1 <= layers,
            0 < n,
    ;
    let a = layer * n;
    let b = layers * n;
    assert(0 <= a * n && a * n + n * n <= b * n && 0 <= n * n) by (nonlinear_arith)
        requires
            0 <= a,
            a + n <= b,
            0 < n,
    ;
}

/// The products of a layer's band of rows of a router matrix.
pub open spec fn band_products(n: Num<u32>, w: CqWeight, xh: Seq<u32>, start: int, rows: int) -> Seq<
    u32,
> {
    Seq::new(rows as nat, |r: int| product(n, w, start + r, xh))
}

/// The input gates of a layer's lanes. `rows` are the router's products for them.
pub(crate) fn in_gates<
    U: Fn(Unary, u32) -> u32 + Sync,
    B: Fn(Binary, u32, u32) -> u32 + Sync,
    C: Fn(usize) -> u32 + Sync,
>(
    ar: &Arith<U, B, C>,
    c: &V2Config,
    m: &V2Mhc,
    rows: &[u32],
    layer: usize,
    Ghost(xh): Ghost<Seq<u32>>,
) -> (gates: Vec<u32>)
    requires
        ar.wf(),
        router_fits(*c, *m),
        layer < c.num_layers,
        rows@ == band_products(
            ar@,
            m.phi_pre,
            xh,
            layer * c.mhc_lanes,
            c.mhc_lanes as int,
        ),
    ensures
        gates@ == input_gates(ar@, *c, *m, xh, layer as int),
        gates@.len() == c.mhc_lanes,
{
    let n: usize = c.mhc_lanes;
    proof {
        lemma_layer_rows(layer as int, c.num_layers as int, n as int);
    }
    let first: usize = layer * n;
    let mut gates: Vec<u32> = Vec::new();
    let mut lane: usize = 0;
    while lane < n
        invariant
            lane <= n,
            ar.wf(),
            router_fits(*c, *m),
            layer < c.num_layers,
            n == c.mhc_lanes,
            first == layer * n,
            first + n <= c.num_layers * n,
            rows@ == band_products(ar@, m.phi_pre, xh, first as int, n as int),
            gates@.len() == lane,
            forall|j: int|
                0 <= j < lane ==> #[trigger] gates@[j] == input_gates(
                    ar@,
                    *c,
                    *m,
                    xh,
                    layer as int,
                )[j],
        decreases n - lane,
    {
        let total: usize = m.b_pre.len();
        let z: u32 = ar.add(
            ar.add(ar.mul(m.a_pre[layer], rows[lane]), m.b_pre[first + lane]),
            c.pre_off(layer, lane),
        );
        gates.push(ar.sigmoid(z));
        lane = lane + 1;
    }
    assert(gates@ =~= input_gates(ar@, *c, *m, xh, layer as int));
    gates
}

/// What a layer reads: the lanes weighted by its input gates. `rows` are the
/// router's products for them.
pub fn mix_in<
    U: Fn(Unary, u32) -> u32 + Sync,
    B: Fn(Binary, u32, u32) -> u32 + Sync,
    C: Fn(usize) -> u32 + Sync,
>(
    ar: &Arith<U, B, C>,
    c: &V2Config,
    m: &V2Mhc,
    lanes: &[u32],
    rows: &[u32],
    layer: usize,
) -> (u: Vec<u32>)
    requires
        ar.wf(),
        router_fits(*c, *m),
        layer < c.num_layers,
        lanes@.len() == c.mhc_lanes * c.d_model,
        rows@ == band_products(
            ar@,
            m.phi_pre,
            router_input(ar@, *m, lanes@),
            layer * c.mhc_lanes,
            c.mhc_lanes as int,
        ),
    ensures
        u@ == layer_input(ar@, *c, *m, lanes@, layer as int),
        u@.len() == c.d_model,
{
    let gates = in_gates(ar, c, m, rows, layer, Ghost(router_input(ar@, *m, lanes@)));
    mix_rows(ar, gates.as_slice(), lanes, c.d_model)
}

/// The output gates of a layer's lanes.
pub(crate) fn out_gates<
    U: Fn(Unary, u32) -> u32 + Sync,
    B: Fn(Binary, u32, u32) -> u32 + Sync,
    C: Fn(usize) -> u32 + Sync,
>(
    ar: &Arith<U, B, C>,
    c: &V2Config,
    m: &V2Mhc,
    rows: &[u32],
    layer: usize,
    Ghost(xh): Ghost<Seq<u32>>,
) -> (gates: Vec<u32>)
    requires
        ar.wf(),
        router_fits(*c, *m),
        layer < c.num_layers,
        rows@ == band_products(
            ar@,
            m.phi_post,
            xh,
            layer * c.mhc_lanes,
            c.mhc_lanes as int,
        ),
    ensures
        gates@ == output_gates(ar@, *c, *m, xh, layer as int),
{
    let n: usize = c.mhc_lanes;
    proof {
        lemma_layer_rows(layer as int, c.num_layers as int, n as int);
    }
    let first: usize = layer * n;
    let mut gates: Vec<u32> = Vec::new();
    let mut lane: usize = 0;
    while lane < n
        invariant
            lane <= n,
            ar.wf(),
            router_fits(*c, *m),
            layer < c.num_layers,
            n == c.mhc_lanes,
            first == layer * n,
            first + n <= c.num_layers * n,
            rows@ == band_products(ar@, m.phi_post, xh, first as int, n as int),
            gates@.len() == lane,
            forall|j: int|
                0 <= j < lane ==> #[trigger] gates@[j] == output_gates(
                    ar@,
                    *c,
                    *m,
                    xh,
                    layer as int,
                )[j],
        decreases n - lane,
    {
        let total: usize = m.b_post.len();
        let z: u32 = ar.add(
            ar.add(ar.mul(m.a_post[layer], rows[lane]), m.b_post[first + lane]),
            c.post_off(layer, lane),
        );
        gates.push(ar.mul(TWO, ar.sigmoid(z)));
        lane = lane + 1;
    }
    assert(gates@ =~= output_gates(ar@, *c, *m, xh, layer as int));
    gates
}

/// The mixing matrix of a layer's lanes.
pub(crate) fn mixing<
    U: Fn(Unary, u32) -> u32 + Sync,
    B: Fn(Binary, u32, u32) -> u32 + Sync,
    C: Fn(usize) -> u32 + Sync,
>(
    ar: &Arith<U, B, C>,
    c: &V2Config,
    m: &V2Mhc,
    rows: &[u32],
    layer: usize,
    Ghost(xh): Ghost<Seq<u32>>,
) -> (mix: Vec<u32>)
    requires
        ar.wf(),
        router_fits(*c, *m),
        layer < c.num_layers,
        rows@ == band_products(
            ar@,
            m.phi_res,
            xh,
            layer * c.mhc_lanes * c.mhc_lanes,
            c.mhc_lanes * c.mhc_lanes,
        ),
    ensures
        mix@ == lane_matrix(ar@, *c, *m, xh, layer as int),
        mix@.len() == c.mhc_lanes * c.mhc_lanes,
{
    let n: usize = c.mhc_lanes;
    let total: usize = m.b_res.len();
    proof {
        lemma_layer_rows(layer as int, c.num_layers as int, n as int);
    }
    let square: usize = n * n;
    let first: usize = layer * n * n;
    let ghost raw = Seq::new(
        (n * n) as nat,
        |k: int|
            ar@.plus(
                ar@.times(m.a_res@[layer as int], product(ar@, m.phi_res, first + k, xh)),
                m.b_res@[first + k],
            ),
    );
    let mut mix: Vec<u32> = Vec::new();
    let mut k: usize = 0;
    while k < square
        invariant
            k <= square,
            ar.wf(),
            layer < c.num_layers,
            square == n * n,
            first + square <= m.b_res@.len(),
            total == m.b_res@.len(),
            m.a_res@.len() == c.num_layers,
            rows@ == band_products(ar@, m.phi_res, xh, first as int, square as int),
            raw == Seq::new(
                (n * n) as nat,
                |k: int|
                    ar@.plus(
                        ar@.times(m.a_res@[layer as int], product(ar@, m.phi_res, first + k, xh)),
                        m.b_res@[first + k],
                    ),
            ),
            mix@.len() == k,
            forall|j: int| 0 <= j < k ==> #[trigger] mix@[j] == raw[j],
        decreases square - k,
    {
        mix.push(ar.add(ar.mul(m.a_res[layer], rows[k]), m.b_res[first + k]));
        k = k + 1;
    }
    assert(mix@ =~= raw);
    sinkhorn(ar, &mut mix, n);
    proof {
        let l = c.mhc_lanes as int;
        let spec_raw = Seq::new(
            (l * l) as nat,
            |k: int|
                ar@.plus(
                    ar@.times(
                        m.a_res@[layer as int],
                        product(ar@, m.phi_res, layer as int * l * l + k, xh),
                    ),
                    m.b_res@[layer as int * l * l + k],
                ),
        );
        assert(raw =~= spec_raw);
        lemma_balanced_len(ar@, raw, l);
    }
    mix
}

proof fn lemma_balanced_len(n: Num<u32>, m: Seq<u32>, d: int)
    ensures
        balanced(n, m, d).len() == m.len(),
{
    lemma_normalised_len(n, m, d, crate::kernels::SINKHORN_ITERS as int);
}

proof fn lemma_normalised_len(n: Num<u32>, m: Seq<u32>, d: int, k: int)
    ensures
        crate::kernels::normalised(n, m, d, k).len() == m.len(),
    decreases k,
{
    if k > 0 {
        lemma_normalised_len(n, m, d, k - 1);
    }
}

/// The lanes after a layer that gave `y`, mixed by its matrix and with the shares
/// of its output gates.
pub(crate) fn mix_lanes<
    U: Fn(Unary, u32) -> u32 + Sync,
    B: Fn(Binary, u32, u32) -> u32 + Sync,
    C: Fn(usize) -> u32 + Sync,
>(
    ar: &Arith<U, B, C>,
    c: &V2Config,
    lanes: &[u32],
    gates: &[u32],
    mix: &[u32],
    y: &[u32],
    layer: usize,
    Ghost(m): Ghost<V2Mhc>,
) -> (out: Vec<u32>)
    requires
        ar.wf(),
        c.d_model > 0,
        lanes@.len() == c.mhc_lanes * c.d_model,
        gates@ == output_gates(ar@, *c, m, router_input(ar@, m, lanes@), layer as int),
        mix@ == lane_matrix(ar@, *c, m, router_input(ar@, m, lanes@), layer as int),
        gates@.len() == c.mhc_lanes,
        mix@.len() == c.mhc_lanes * c.mhc_lanes,
        y@.len() == c.d_model,
    ensures
        out@ == lanes_after(ar@, *c, m, lanes@, y@, layer as int),
        out@.len() == c.mhc_lanes * c.d_model,
{
    let ghost xh = router_input(ar@, m, lanes@);
    let n: usize = c.mhc_lanes;
    let d: usize = c.d_model;
    let total: usize = lanes.len();
    let n_mix: usize = mix.len();
    let ghost want = lanes_after(ar@, *c, m, lanes@, y@, layer as int);
    let mut out: Vec<u32> = Vec::new();
    let mut lane: usize = 0;
    while lane < n
        invariant
            lane <= n,
            ar.wf(),
            n == c.mhc_lanes,
            d == c.d_model,
            d > 0,
            total == lanes@.len(),
            lanes@.len() == n * d,
            y@.len() == d,
            n_mix == mix@.len(),
            mix@.len() == n * n,
            gates@.len() == n,
            gates@ == output_gates(ar@, *c, m, xh, layer as int),
            mix@ == lane_matrix(ar@, *c, m, xh, layer as int),
            xh == router_input(ar@, m, lanes@),
            want == lanes_after(ar@, *c, m, lanes@, y@, layer as int),
            out@.len() == lane * d,
            forall|k: int| 0 <= k < lane * d ==> #[trigger] out@[k] == want[k],
        decreases n - lane,
    {
        proof {
            lemma_row_cell(lane as int, n as int, 0, d as int);
            lemma_row_cell(lane as int, n as int, 0, n as int);
            assert((lane + 1) * d == lane * d + d) by (nonlinear_arith);
        }
        let row = vstd::slice::slice_subrange(mix, lane * n, lane * n + n);
        let part = mix_rows(ar, row, lanes, d);
        let mut col: usize = 0;
        while col < d
            invariant
                col <= d,
                lane < n,
                ar.wf(),
                n == c.mhc_lanes,
                d == c.d_model,
                d > 0,
                n * d == lanes@.len(),
                lane * d + d <= n * d,
                y@.len() == d,
                mix@.len() == n * n,
                gates@.len() == n,
                gates@ == output_gates(ar@, *c, m, xh, layer as int),
                mix@ == lane_matrix(ar@, *c, m, xh, layer as int),
                xh == router_input(ar@, m, lanes@),
                row@ == mix@.subrange(lane * n, lane * n + n),
                row@.len() == n,
                part@ == mixed_rows(ar@, row@, lanes@, d as int),
                want == lanes_after(ar@, *c, m, lanes@, y@, layer as int),
                out@.len() == lane * d + col,
                forall|k: int| 0 <= k < lane * d + col ==> #[trigger] out@[k] == want[k],
            decreases d - col,
        {
            let v: u32 = ar.mul_add(part[col], gates[lane], y[col]);
            proof {
                let k = lane * d + col;
                assert(k == d * lane + col) by (nonlinear_arith)
                    requires
                        k == lane * d + col,
                ;
                vstd::arithmetic::div_mod::lemma_fundamental_div_mod_converse(
                    k,
                    d as int,
                    lane as int,
                    col as int,
                );
                lemma_row_cell(lane as int, n as int, col as int, d as int);
                assert(v == want[k]);
            }
            out.push(v);
            col = col + 1;
        }
        lane = lane + 1;
    }
    assert(out@ =~= want);
    out
}

/// The lanes after a layer that gave `y`. `post` and `res` are the router's
/// products for the gates and for the mixing matrix.
pub fn mix_out<
    U: Fn(Unary, u32) -> u32 + Sync,
    B: Fn(Binary, u32, u32) -> u32 + Sync,
    C: Fn(usize) -> u32 + Sync,
>(
    ar: &Arith<U, B, C>,
    c: &V2Config,
    m: &V2Mhc,
    lanes: &[u32],
    post: &[u32],
    res: &[u32],
    y: &[u32],
    layer: usize,
) -> (out: Vec<u32>)
    requires
        ar.wf(),
        router_fits(*c, *m),
        layer < c.num_layers,
        lanes@.len() == c.mhc_lanes * c.d_model,
        post@ == band_products(
            ar@,
            m.phi_post,
            router_input(ar@, *m, lanes@),
            layer * c.mhc_lanes,
            c.mhc_lanes as int,
        ),
        res@ == band_products(
            ar@,
            m.phi_res,
            router_input(ar@, *m, lanes@),
            layer * c.mhc_lanes * c.mhc_lanes,
            c.mhc_lanes * c.mhc_lanes,
        ),
        y@.len() == c.d_model,
    ensures
        out@ == lanes_after(ar@, *c, *m, lanes@, y@, layer as int),
        out@.len() == c.mhc_lanes * c.d_model,
{
    let ghost xh = router_input(ar@, *m, lanes@);
    let gates = out_gates(ar, c, m, post, layer, Ghost(xh));
    let mix = mixing(ar, c, m, res, layer, Ghost(xh));
    mix_lanes(ar, c, lanes, gates.as_slice(), mix.as_slice(), y, layer, Ghost(*m))
}

} // verus!
