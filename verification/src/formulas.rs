//! What the formulas of the model come to, apart from rounding: which entries they
//! pick, what they leave alone, and with which numbers they scale.

use crate::arith::Num;
use crate::attention::{block_input, head_scores, kv_of, KvRow};
use crate::blocks::VectorOps;
use crate::config::{config_fault, law_query_heads_share_key_heads_in_blocks, EngramGeometry, V2Config};
use crate::cq::CqWeight;
use crate::dot::{chain, dot_in_order, sum};
use crate::exact::{is_ring, is_semiring, lemma_distributed, products_associate};
use crate::heads::{cell_score, pooled_of, probe_over, probe_pooled, probe_row, ProbeHeadWeights};
use crate::kernels::{balanced, columns_normalised, engram_hash, engram_state, exponentials, largest_of, log_sum, matrix_column, normalised, rows_normalised, squares, unit_rms};
use crate::lanes::{input_gates, input_offset, lane_matrix, lanes_after, mixed_at, mixed_rows, output_gates, output_offset};
use crate::matmul::product;
use crate::memory::{convolved, convolved_at, fetched};
use crate::engram::entry_row;
use crate::pass::Pass;
use crate::forward::is_site_of;
use crate::model::{V2Layer, V2Mhc};
use crate::probes::logistic;
use crate::rotate::{padded, prepared, row_weights};
use crate::rotation::law_product_is_that_of_the_plain_weights;
use crate::state::window_start;
use vstd::arithmetic::div_mod::*;
use vstd::arithmetic::mul::*;
use vstd::prelude::*;

verus! {

/// Zero adds nothing and takes everything, and one changes nothing.
pub open spec fn has_units(n: Num<u32>) -> bool {
    &&& forall|a: u32| #[trigger] n.plus(a, n.zero) == a
    &&& forall|a: u32| #[trigger] n.plus(n.zero, a) == a
    &&& forall|a: u32| #[trigger] n.times(n.zero, a) == n.zero
    &&& forall|a: u32| #[trigger] n.times(a, n.zero) == n.zero
    &&& forall|a: u32| #[trigger] n.times(n.one, a) == a
    &&& forall|a: u32| #[trigger] n.times(a, n.one) == a
}

/// `h` is one at `j` and zero elsewhere.
pub open spec fn picks(n: Num<u32>, h: Seq<u32>, j: int) -> bool {
    &&& 0 <= j < h.len()
    &&& h[j] == n.one
    &&& forall|k: int| 0 <= k < h.len() && k != j ==> #[trigger] h[k] == n.zero
}

proof fn lemma_mixed_picks(n: Num<u32>, h: Seq<u32>, rows: Seq<u32>, d: int, j: int, k: int, c: int)
    requires
        has_units(n),
        picks(n, h, j),
        0 <= k <= h.len(),
    ensures
        mixed_at(n, h, rows, d, k, c) == if k > j {
            rows[j * d + c]
        } else {
            n.zero
        },
    decreases k,
{
    if k > 0 {
        lemma_mixed_picks(n, h, rows, d, j, k - 1, c);
    }
}

/// Mixing reads every row: with a weight of one on a row and none on the others, the
/// mix is that row, whichever it is.
pub proof fn law_mixing_picks_a_row(n: Num<u32>, h: Seq<u32>, rows: Seq<u32>, d: int, j: int)
    requires
        has_units(n),
        picks(n, h, j),
        0 <= d,
        h.len() * d <= rows.len(),
    ensures
        mixed_rows(n, h, rows, d) == rows.subrange(j * d, j * d + d),
{
    let got = mixed_rows(n, h, rows, d);
    assert(0 <= j * d && j * d + d <= h.len() * d) by (nonlinear_arith)
        requires
            0 <= j,
            j + 1 <= h.len(),
            0 <= d,
    ;
    assert forall|c: int| 0 <= c < d implies got[c] == rows[j * d + c] by {
        lemma_mixed_picks(n, h, rows, d, j, h.len() as int, c);
    }
    assert(got =~= rows.subrange(j * d, j * d + d));
}

proof fn lemma_chain_picks(n: Num<u32>, u: Seq<u32>, x: Seq<u32>, j: int, k: int)
    requires
        has_units(n),
        picks(n, x, j),
        u.len() == x.len(),
        0 <= k <= x.len(),
    ensures
        chain(n, n.zero, u, x, 0, k) == if k > j {
            u[j]
        } else {
            n.zero
        },
    decreases k,
{
    if k > 0 {
        lemma_chain_picks(n, u, x, j, k - 1);
    }
}

/// A dot product reads every entry: with a vector that is one in one place and zero
/// elsewhere it gives the entry there.
pub proof fn law_dot_products_pick_an_entry(n: Num<u32>, u: Seq<u32>, x: Seq<u32>, j: int)
    requires
        has_units(n),
        picks(n, x, j),
        u.len() == x.len(),
    ensures
        dot_in_order(n, u, x) == u[j],
{
    lemma_chain_picks(n, u, x, j, x.len() as int);
}

proof fn lemma_convolved_picks(
    n: Num<u32>,
    c: V2Config,
    taps: Seq<u32>,
    values: Seq<Seq<u32>>,
    pos: int,
    t: int,
    j: int,
    col: int,
)
    requires
        has_units(n),
        0 <= t < c.engram.conv_taps,
        taps[t * c.d_model + col] == n.one,
        forall|i: int|
            0 <= i < c.engram.conv_taps && i != t ==> taps[#[trigger] (i * c.d_model) + col]
                == n.zero,
        0 <= j <= c.engram.conv_taps,
    ensures
        convolved_at(n, c, taps, values, pos, j, col) == if j > t && t * c.engram.conv_dilation
            <= pos {
            values[pos - t * c.engram.conv_dilation][col]
        } else {
            n.zero
        },
    decreases j,
{
    if j > 0 {
        lemma_convolved_picks(n, c, taps, values, pos, t, j - 1, col);
        if j - 1 != t {
            assert(taps[((j - 1) * c.d_model) + col] == n.zero);
        }
    }
}

/// The convolution reads every tap: where only tap `t` of a column is one and the
/// others zero, it gives the value `t` times the dilation back, or zero where that is
/// before the first position.
pub proof fn law_the_convolution_picks_a_tap(
    n: Num<u32>,
    c: V2Config,
    taps: Seq<u32>,
    values: Seq<Seq<u32>>,
    pos: int,
    t: int,
    col: int,
)
    requires
        has_units(n),
        0 <= t < c.engram.conv_taps,
        0 <= col < c.d_model,
        taps[t * c.d_model + col] == n.one,
        forall|i: int|
            0 <= i < c.engram.conv_taps && i != t ==> taps[#[trigger] (i * c.d_model) + col]
                == n.zero,
    ensures
        convolved(n, c, taps, values, pos)[col] == if t * c.engram.conv_dilation <= pos {
            values[pos - t * c.engram.conv_dilation][col]
        } else {
            n.zero
        },
{
    lemma_convolved_picks(n, c, taps, values, pos, t, c.engram.conv_taps as int, col);
}

/// One over a number times the number is one.
pub open spec fn inverts(n: Num<u32>, a: u32) -> bool {
    &&& n.times(n.over(n.one, a), a) == n.one
    &&& n.times(a, n.over(n.one, a)) == n.one
    &&& forall|x: u32| #[trigger] n.times(x, n.one) == x
    &&& forall|x: u32| #[trigger] n.times(n.one, x) == x
    &&& products_associate(n)
}

proof fn lemma_inverse_product(n: Num<u32>, x: u32, a: u32)
    requires
        inverts(n, a),
    ensures
        n.times(n.times(x, n.over(n.one, a)), a) == x,
{
    reveal(products_associate);
    assert(n.times(n.times(x, n.over(n.one, a)), a) == n.times(x, n.times(n.over(n.one, a), a)));
}

/// An attention score times the root of the head width is the product of the query
/// with the key: that of the query head with the key head of its block, at the
/// position that the score is for.
pub proof fn law_scores_times_the_root_are_products(
    n: Num<u32>,
    c: V2Config,
    q: Seq<u32>,
    rows: Seq<KvRow>,
    k: int,
    i: int,
    lo: int,
    pos: int,
    s: int,
)
    requires
        config_fault(c) is None,
        inverts(n, n.root(n.number(c.head_dim as int))),
        0 <= k < c.num_kv_heads,
        0 <= i < c.num_heads as int / c.num_kv_heads as int,
        0 <= s <= pos - lo,
    ensures
        ({
            let hd = c.head_dim as int;
            let head = k * (c.num_heads as int / c.num_kv_heads as int) + i;
            let scores = head_scores(n, c, q, rows, head, lo, pos);
            &&& scores.len() == pos - lo + 1
            &&& n.times(scores[s], n.root(n.number(hd))) == dot_in_order(
                n,
                q.subrange(head * hd, head * hd + hd),
                rows[lo + s].0.subrange(k * hd, k * hd + hd),
            )
        }),
{
    law_query_heads_share_key_heads_in_blocks(c, k, i);
    let hd = c.head_dim as int;
    let head = k * (c.num_heads as int / c.num_kv_heads as int) + i;
    lemma_inverse_product(
        n,
        dot_in_order(
            n,
            q.subrange(head * hd, head * hd + hd),
            rows[lo + s].0.subrange(k * hd, k * hd + hd),
        ),
        n.root(n.number(hd)),
    );
}

/// A window of `w` positions is the last `w` of them, or all where there are not yet
/// as many; a window of zero is all of them.
pub proof fn law_a_window_is_the_last_positions(w: int, pos: int)
    requires
        0 <= w,
        0 <= pos,
    ensures
        0 <= window_start(w, pos) <= pos,
        w == 0 ==> window_start(w, pos) == 0,
        0 < w <= pos + 1 ==> pos - window_start(w, pos) + 1 == w,
        w > pos ==> window_start(w, pos) == 0,
{
}

proof fn lemma_one_inverse(n: Num<u32>, r: u32, a: u32)
    requires
        inverts(n, a),
        n.times(r, a) == n.one,
    ensures
        r == n.over(n.one, a),
{
    reveal(products_associate);
    let inv = n.over(n.one, a);
    assert(n.times(n.times(r, a), inv) == n.times(r, n.times(a, inv)));
}

/// A vector is scaled to unit mean square: all its entries by one factor, and that
/// factor times the root of the mean square, with a millionth added, is one.
pub proof fn law_unit_vectors_have_unit_mean_square(n: Num<u32>, x: Seq<u32>, r: u32, i: int)
    requires
        0 <= i < x.len(),
        ({
            let mean = n.over(
                sum(n, x.map_values(|v: u32| n.times(v, v))),
                n.number(x.len() as int),
            );
            let root = n.root(n.plus(mean, 0x3586_37BD));
            inverts(n, root) && n.times(r, root) == n.one
        }),
    ensures
        unit_rms(n, x).len() == x.len(),
        unit_rms(n, x)[i] == n.times(x[i], r),
{
    let sq = x.map_values(|v: u32| n.times(v, v));
    assert(squares(n, x) =~= sq);
    let mean = n.over(sum(n, sq), n.number(x.len() as int));
    lemma_one_inverse(n, r, n.root(n.plus(mean, 0x3586_37BD)));
}

/// An embedding for retrieval is scaled to unit length: all outputs of the head by one
/// factor, and that factor times the root of the sum of their squares, with a
/// millionth of a millionth added, is one.
pub proof fn law_embeddings_have_unit_length(
    n: Num<u32>,
    h: ProbeHeadWeights,
    pooled: Seq<u32>,
    r: u32,
    i: int,
)
    requires
        0 <= i < h.out_dim,
        ({
            let total = sum(n, h.projected(n, pooled).map_values(|v: u32| n.times(v, v)));
            let root = n.root(n.plus(total, 0x2B8C_BCCC));
            inverts(n, root) && n.times(r, root) == n.one
        }),
    ensures
        h.projected_unit(n, pooled).len() == h.out_dim,
        h.projected_unit(n, pooled)[i] == n.times(h.projected(n, pooled)[i], r),
{
    let out = h.projected(n, pooled);
    let sq = out.map_values(|v: u32| n.times(v, v));
    assert(squares(n, out) =~= sq);
    lemma_one_inverse(n, r, n.root(n.plus(sum(n, sq), 0x2B8C_BCCC)));
}

/// A lane matrix is balanced in twenty rounds, each of the rows and then of the
/// columns; what comes out are the exponentials.
pub proof fn law_balancing_takes_twenty_rounds(n: Num<u32>, m: Seq<u32>, d: int, rounds: Seq<
    Seq<u32>,
>)
    requires
        rounds.len() == 21,
        rounds[0] == m,
        forall|k: int|
            0 <= k < 20 ==> #[trigger] rounds[k + 1] == columns_normalised(
                n,
                rows_normalised(n, rounds[k], d),
                d,
            ),
    ensures
        balanced(n, m, d) == rounds[20].map_values(|v: u32| n.exponential(v)),
{
    lemma_rounds(n, m, d, rounds, 20);
}

proof fn lemma_rounds(n: Num<u32>, m: Seq<u32>, d: int, rounds: Seq<Seq<u32>>, k: int)
    requires
        rounds.len() == 21,
        rounds[0] == m,
        forall|k: int|
            0 <= k < 20 ==> #[trigger] rounds[k + 1] == columns_normalised(
                n,
                rows_normalised(n, rounds[k], d),
                d,
            ),
        0 <= k <= 20,
    ensures
        normalised(n, m, d, k) == rounds[k],
    decreases k,
{
    if k > 0 {
        lemma_rounds(n, m, d, rounds, k - 1);
        assert(rounds[(k - 1) + 1] == columns_normalised(
            n,
            rows_normalised(n, rounds[k - 1], d),
            d,
        ));
    }
}

/// The hash of an n-gram starts from a multiple of the golden ratio that the table
/// gives, takes the tokens in one by one, most recent first, and folds its high bits
/// into the low ones before the row is taken.
pub proof fn law_the_hash_takes_tokens_one_by_one(table: u32, slots: u32, tokens: Seq<u32>, t: u32)
    requires
        table < u32::MAX,
        slots > 0,
    ensures
        engram_state(table, Seq::empty()) == (0x9E37_79B9 * (table + 1)) % 0x1_0000_0000,
        engram_state(table, tokens.push(t)) == ((engram_state(table, tokens) ^ t) * 0x0100_0193)
            % 0x1_0000_0000,
        ({
            let a = engram_state(table, tokens);
            engram_hash(table, slots, tokens) == (a ^ (a >> 15)) % slots
        }),
{
    assert(tokens.push(t).drop_last() =~= tokens);
    assert(tokens.push(t).last() == t);
}

/// A layer reads the memory of its own site: two models that differ in other sites
/// only give it the same input. A layer without a site reads no memory.
pub proof fn law_layers_read_their_own_site(
    a: Pass,
    b: Pass,
    layer: int,
    pos: int,
    lanes: Seq<u32>,
    site: int,
)
    requires
        a.n == b.n,
        a.o == b.o,
        a.tokens == b.tokens,
        a.m.cfg == b.m.cfg,
        a.m.mhc == b.m.mhc,
        0 <= site < a.m.cfg.engram.sites@.len(),
        a.m.cfg.engram.sites@[site] == layer,
        forall|j: int| 0 <= j < site ==> a.m.cfg.engram.sites@[j] != layer,
        a.m.engrams@[site] == b.m.engrams@[site],
    ensures
        a.block_in(layer, pos, lanes) == b.block_in(layer, pos, lanes),
        forall|other: int|
            (forall|j: int|
                0 <= j < a.m.cfg.engram.sites@.len() ==> a.m.cfg.engram.sites@[j] != other)
                ==> #[trigger] a.block_in(other, pos, lanes) == a.input(other, lanes),
{
    let e = a.m.cfg.engram;
    assert(is_site_of(e, layer, site));
    let t = choose|t: int| is_site_of(e, layer, t);
    assert(t == site);
    assert(a.values(site, pos + 1) =~= b.values(site, pos + 1));
    assert forall|other: int|
        (forall|j: int| 0 <= j < e.sites@.len() ==> e.sites@[j] != other)
            implies #[trigger] a.block_in(other, pos, lanes) == a.input(other, lanes) by {
        assert(forall|s: int| !is_site_of(e, other, s));
    }
}

/// The gated memory of a layer is added to its input: what comes on top is the
/// recalled value times its share, and with a share of zero nothing.
pub proof fn law_memory_is_added_to_the_input(
    p: Pass,
    layer: int,
    pos: int,
    lanes: Seq<u32>,
    site: int,
    i: int,
)
    requires
        has_units(p.n),
        is_site_of(p.m.cfg.engram, layer, site),
        0 <= i < p.input(layer, lanes).len(),
    ensures
        ({
            let alpha = p.alpha(layer, pos, lanes);
            &&& alpha is Some
            &&& alpha == Some(p.n.one) ==> p.block_in(layer, pos, lanes)[i] == p.n.plus(
                p.input(layer, lanes)[i],
                p.recalled(site, pos)[i],
            )
            &&& alpha == Some(p.n.zero) ==> p.block_in(layer, pos, lanes)[i] == p.input(
                layer,
                lanes,
            )[i]
        }),
{
    let t = choose|t: int| is_site_of(p.m.cfg.engram, layer, t);
    assert(t == site);
}

/// Equal lanes pool to what they hold: where every lane has `x` in an entry, and a
/// number of equal terms over that number is the term, the mean has `x` there.
pub proof fn law_the_mean_of_equal_lanes_is_theirs(p: Pass, lanes: Seq<u32>, c: int, x: u32)
    requires
        0 <= c < p.m.cfg.d_model,
        forall|k: int|
            0 <= k < p.m.cfg.mhc_lanes ==> lanes[#[trigger] (k * p.m.cfg.d_model) + c] == x,
        p.n.times(p.n.number(0), x) == p.n.zero,
        forall|k: int|
            0 <= k < p.m.cfg.mhc_lanes ==> #[trigger] p.n.plus(p.n.times(p.n.number(k), x), x)
                == p.n.times(p.n.number(k + 1), x),
        p.n.over(
            p.n.times(p.n.number(p.m.cfg.mhc_lanes as int), x),
            p.n.number(p.m.cfg.mhc_lanes as int),
        ) == x,
    ensures
        p.pooled(lanes)[c] == x,
{
    lemma_equal_lanes(p, lanes, c, x, p.m.cfg.mhc_lanes as int);
}

proof fn lemma_equal_lanes(p: Pass, lanes: Seq<u32>, c: int, x: u32, k: int)
    requires
        0 <= k <= p.m.cfg.mhc_lanes,
        forall|k: int|
            0 <= k < p.m.cfg.mhc_lanes ==> lanes[#[trigger] (k * p.m.cfg.d_model) + c] == x,
        p.n.times(p.n.number(0), x) == p.n.zero,
        forall|k: int|
            0 <= k < p.m.cfg.mhc_lanes ==> #[trigger] p.n.plus(p.n.times(p.n.number(k), x), x)
                == p.n.times(p.n.number(k + 1), x),
    ensures
        p.lane_sum(lanes, k, c) == p.n.times(p.n.number(k), x),
    decreases k,
{
    if k > 0 {
        lemma_equal_lanes(p, lanes, c, x, k - 1);
        assert(lanes[((k - 1) * p.m.cfg.d_model) + c] == x);
        assert(p.n.plus(p.n.times(p.n.number(k - 1), x), x) == p.n.times(p.n.number(k), x));
    }
}

/// The gates start out in favour of the lane whose turn it is: four above zero before
/// the input gate and zero before the output gate, against four below zero for every
/// other lane.
pub proof fn law_gates_favour_the_lane_whose_turn_it_is(c: V2Config, layer: int, lane: int)
    requires
        c.mhc_lanes > 0,
        0 <= layer,
        0 <= lane < c.mhc_lanes,
    ensures
        layer % (c.mhc_lanes as int) == lane ==> input_offset(c, layer, lane) == 0x4080_0000
            && output_offset(c, layer, lane) == 0,
        layer % (c.mhc_lanes as int) != lane ==> input_offset(c, layer, lane) == 0xC080_0000
            && output_offset(c, layer, lane) == 0xC080_0000,
{
}

/// Exponentials turn a difference to a logarithm into a quotient.
pub open spec fn logarithms_divide(n: Num<u32>) -> bool {
    forall|v: u32, m: u32, s: u32|
        #[trigger] n.exponential(n.minus(v, n.plus(m, n.logarithm(s)))) == n.times(
            n.exponential(n.minus(v, m)),
            n.over(n.one, s),
        )
}

proof fn lemma_sum_of_shares(n: Num<u32>, x: Seq<u32>, m: u32, f: u32)
    requires
        is_semiring(n),
    ensures
        sum(n, x.map_values(|v: u32| n.times(n.exponential(n.minus(v, m)), f))) == n.times(
            sum(n, exponentials(n, x, m)),
            f,
        ),
    decreases x.len(),
{
    let shares = x.map_values(|v: u32| n.times(n.exponential(n.minus(v, m)), f));
    let e = exponentials(n, x, m);
    if x.len() > 0 {
        let rest = x.drop_last();
        lemma_sum_of_shares(n, rest, m, f);
        assert(shares.drop_last() =~= rest.map_values(
            |v: u32| n.times(n.exponential(n.minus(v, m)), f),
        ));
        assert(e.drop_last() =~= exponentials(n, rest, m));
        lemma_distributed(n, sum(n, e.drop_last()), e.last(), f);
    }
}

/// In a balanced matrix the entries of every column sum to one, apart from rounding.
pub proof fn law_columns_of_a_balanced_matrix_sum_to_one(
    n: Num<u32>,
    m: Seq<u32>,
    d: int,
    j: int,
)
    requires
        is_semiring(n),
        logarithms_divide(n),
        forall|s: u32| inverts(n, s),
        m.len() == d * d,
        0 <= j < d,
    ensures
        sum(n, Seq::new(d as nat, |i: int| balanced(n, m, d)[i * d + j])) == n.one,
{
    lemma_rounds_keep_the_size(n, m, d, 19);
    let r = rows_normalised(n, normalised(n, m, d, 19), d);
    let x = matrix_column(r, j, d);
    let top = largest_of(n, x);
    let s = sum(n, exponentials(n, x, top));
    let f = n.over(n.one, s);
    assert(normalised(n, m, d, 20) == columns_normalised(n, r, d));
    let column = Seq::new(d as nat, |i: int| balanced(n, m, d)[i * d + j]);
    let shares = x.map_values(|v: u32| n.times(n.exponential(n.minus(v, top)), f));
    assert forall|i: int| 0 <= i < d implies column[i] == shares[i] by {
        lemma_cell(i, j, d);
        assert(balanced(n, m, d)[i * d + j] == n.exponential(
            n.minus(r[i * d + j], log_sum(n, x)),
        ));
        assert(x[i] == r[i * d + j]);
    }
    assert(column =~= shares);
    lemma_sum_of_shares(n, x, top, f);
    assert(inverts(n, s));
}

proof fn lemma_cell(i: int, j: int, d: int)
    requires
        0 <= i < d,
        0 <= j < d,
    ensures
        0 <= i * d + j < d * d,
        (i * d + j) % d == j,
{
    assert(0 <= i * d && i * d + d <= d * d) by (nonlinear_arith)
        requires
            0 <= i,
            i + 1 <= d,
    ;
    lemma_mul_is_commutative(i, d);
    lemma_fundamental_div_mod_converse(i * d + j, d, i, j);
}

proof fn lemma_rounds_keep_the_size(n: Num<u32>, m: Seq<u32>, d: int, k: int)
    ensures
        normalised(n, m, d, k).len() == m.len(),
    decreases k,
{
    if k > 0 {
        lemma_rounds_keep_the_size(n, m, d, k - 1);
    }
}

/// The score of a cell times the root of the width is the product of the cell with the
/// probe.
pub proof fn law_cell_scores_times_the_root_are_products(
    n: Num<u32>,
    probe: Seq<u32>,
    cell: Seq<u32>,
)
    requires
        forall|x: u32, r: u32| #[trigger] n.times(n.over(x, r), r) == x,
    ensures
        n.times(cell_score(n, probe, cell), n.root(n.number(probe.len() as int))) == dot_in_order(
            n,
            cell,
            probe,
        ),
{
}

/// Output `o` of a head reads row `o` of its projection: of a pooled vector that is one
/// in one place and zero elsewhere, the entry of the row there and the bias.
pub proof fn law_heads_project_row_by_row(
    n: Num<u32>,
    h: ProbeHeadWeights,
    pooled: Seq<u32>,
    o: int,
    j: int,
)
    requires
        has_units(n),
        picks(n, pooled, j),
        pooled.len() == h.num_probes * h.d_model,
        h.proj@.len() == h.out_dim * (h.num_probes * h.d_model),
        0 <= o < h.out_dim,
    ensures
        h.projected(n, pooled).len() == h.out_dim,
        h.projected(n, pooled)[o] == n.plus(
            h.proj@[o * (h.num_probes * h.d_model) + j],
            h.bias@[o],
        ),
{
    let w = h.num_probes * h.d_model;
    assert(0 <= o * w && o * w + w <= h.out_dim * w) by (nonlinear_arith)
        requires
            0 <= o,
            o + 1 <= h.out_dim,
            0 <= w,
    ;
    law_dot_products_pick_an_entry(n, h.proj@.subrange(o * w, o * w + w), pooled, j);
}

/// What the probes pool stands side by side: entry `i` of probe `k` at `k` widths and
/// `i`.
pub proof fn law_probes_pool_side_by_side(
    n: Num<u32>,
    probes: Seq<u32>,
    d: int,
    cells: Seq<Seq<u32>>,
    total: int,
    k: int,
    i: int,
)
    requires
        0 <= k < total,
        0 <= i < d,
        probes.len() == total * d,
    ensures
        pooled_of(n, probes, d, cells, total).len() == total * d,
        pooled_of(n, probes, d, cells, total)[k * d + i] == probe_pooled(
            n,
            probes.subrange(k * d, k * d + d),
            cells,
        )[i],
{
    lemma_pooled(n, probes, d, cells, total, total);
}

proof fn lemma_probe_width(n: Num<u32>, probe: Seq<u32>, cells: Seq<Seq<u32>>)
    ensures
        probe_over(n, probe, cells).acc.len() == probe.len(),
    decreases cells.len(),
{
    if cells.len() > 0 {
        lemma_probe_width(n, probe, cells.drop_last());
    }
}

proof fn lemma_pooled(
    n: Num<u32>,
    probes: Seq<u32>,
    d: int,
    cells: Seq<Seq<u32>>,
    total: int,
    upto: int,
)
    requires
        0 <= upto <= total,
        0 < d,
        probes.len() == total * d,
    ensures
        pooled_of(n, probes, d, cells, upto).len() == upto * d,
        forall|k: int, i: int|
            0 <= k < upto && 0 <= i < d ==> #[trigger] pooled_of(n, probes, d, cells, upto)[k * d + i]
                == probe_pooled(n, probe_row(probes, k, d), cells)[i],
    decreases upto,
{
    if upto > 0 {
        let last = upto - 1;
        lemma_pooled(n, probes, d, cells, total, last);
        assert(0 <= last * d && last * d + d == upto * d && upto * d <= total * d)
            by (nonlinear_arith)
            requires
                0 <= last,
                last == upto - 1,
                upto <= total,
                0 < d,
        ;
        lemma_probe_width(n, probe_row(probes, last, d), cells);
        let before = pooled_of(n, probes, d, cells, last);
        let all = pooled_of(n, probes, d, cells, upto);
        let here = probe_pooled(n, probe_row(probes, last, d), cells);
        assert(all == before + here);
        assert forall|k: int, i: int| 0 <= k < upto && 0 <= i < d implies #[trigger] all[k * d + i]
            == probe_pooled(n, probe_row(probes, k, d), cells)[i] by {
            if k < last {
                assert(0 <= k * d && k * d + d <= last * d) by (nonlinear_arith)
                    requires
                        0 <= k,
                        k + 1 <= last,
                        0 < d,
                ;
                assert(before[k * d + i] == probe_pooled(n, probe_row(probes, k, d), cells)[i]);
            } else {
                assert(all[k * d + i] == here[i]);
            }
        }
    } else {
        assert(0 * d == 0) by (nonlinear_arith);
    }
}

/// Apart from rounding, the score of a token is the product of its own row of the
/// embedding with the hidden state.
pub proof fn law_tokens_score_by_their_embedding(p: Pass, pos: int, token: int)
    requires
        is_ring(p.n),
        p.m.embedding.wf(),
        p.hidden(pos).len() == p.m.embedding.in_feat,
        p.m.cfg.vocab_size <= p.m.embedding.out_feat,
        0 <= token < p.m.cfg.vocab_size,
    ensures
        p.scores(pos).len() == p.m.cfg.vocab_size,
        p.scores(pos)[token] == dot_in_order(
            p.n,
            row_weights(p.n, p.m.embedding, token),
            p.hidden(pos),
        ),
{
    law_product_is_that_of_the_plain_weights(p.n, p.m.embedding, token, p.hidden(pos));
}

/// Apart from rounding, a value is the product of the value weights with the normed
/// input of the layer.
pub proof fn law_values_are_products_with_the_value_weights(
    n: Num<u32>,
    o: VectorOps,
    c: V2Config,
    l: V2Layer,
    bx: Seq<u32>,
    pos: int,
    r: int,
)
    requires
        is_ring(n),
        l.v_proj.wf(),
        l.v_proj.in_feat == l.q_proj.in_feat,
        l.v_proj.in_padded == l.q_proj.in_padded,
        l.v_proj.group == l.q_proj.group,
        l.v_proj.out_feat == c.num_kv_heads * c.head_dim,
        (o.norm)(bx, l.norm_in@).len() == l.v_proj.in_feat,
        0 <= r < c.num_kv_heads * c.head_dim,
    ensures
        kv_of(n, o, c, l, block_input(n, o, l, bx), pos).1.len() == c.num_kv_heads * c.head_dim,
        kv_of(n, o, c, l, block_input(n, o, l, bx), pos).1[r] == dot_in_order(
            n,
            row_weights(n, l.v_proj, r),
            (o.norm)(bx, l.norm_in@),
        ),
{
    let x = (o.norm)(bx, l.norm_in@);
    assert(padded(l.q_proj, x) =~= padded(l.v_proj, x));
    assert(block_input(n, o, l, bx) == prepared(n, l.v_proj, x));
    law_product_is_that_of_the_plain_weights(n, l.v_proj, r, x);
}

/// Apart from rounding, a probability times one more than the exponential of the negated
/// score is one.
pub proof fn law_probabilities_are_logistic(n: Num<u32>, z: u32)
    requires
        forall|x: u32, r: u32| #[trigger] n.times(n.over(x, r), r) == x,
    ensures
        n.times(
            logistic(n, z),
            n.plus(n.one, n.exponential(n.minus(n.zero, z))),
        ) == n.one,
{
}

/// What a probe pools, times the sum of the weights, is the sum of the cells times
/// theirs.
pub proof fn law_pooled_entries_times_the_weights_are_sums(
    n: Num<u32>,
    probe: Seq<u32>,
    cells: Seq<Seq<u32>>,
    i: int,
)
    requires
        inverts(n, probe_over(n, probe, cells).s),
        0 <= i < probe.len(),
    ensures
        probe_pooled(n, probe, cells).len() == probe.len(),
        n.times(probe_pooled(n, probe, cells)[i], probe_over(n, probe, cells).s) == probe_over(
            n,
            probe,
            cells,
        ).acc[i],
{
    lemma_probe_width(n, probe, cells);
    let p = probe_over(n, probe, cells);
    lemma_inverse_product(n, p.acc[i], p.s);
}

/// What the tables give stands side by side: entry `j` of table `t` at `t` widths and
/// `j`, and zero where the table gives nothing.
pub proof fn law_fetched_rows_stand_side_by_side(
    n: Num<u32>,
    e: EngramGeometry,
    tables: CqWeight,
    history: Seq<u32>,
    pos: int,
    t: int,
    j: int,
)
    requires
        0 <= t < e.num_tables,
        0 <= j < e.sub_dim,
    ensures
        fetched(n, e, tables, history, pos).len() == e.num_tables * e.sub_dim,
        0 <= t * e.sub_dim + j < e.num_tables * e.sub_dim,
        fetched(n, e, tables, history, pos)[t * e.sub_dim + j] == match entry_row(
            e,
            history,
            pos,
            t,
        ) {
            Some(r) => row_weights(n, tables, r)[j],
            None => n.zero,
        },
{
    let w = e.sub_dim as int;
    assert(0 <= t * w && t * w + w <= e.num_tables * w) by (nonlinear_arith)
        requires
            0 <= t,
            t + 1 <= e.num_tables,
            0 < w,
    ;
    lemma_mul_is_commutative(t, w);
    lemma_fundamental_div_mod_converse(t * w + j, w, t, j);
}

/// Layers are routed alike: two of them whose turn falls on the same lane, and whose rows,
/// factors and biases in the router agree, read and write the lanes in the same way.
pub proof fn law_layers_are_routed_alike(
    n: Num<u32>,
    c: V2Config,
    m: V2Mhc,
    xh: Seq<u32>,
    a: int,
    b: int,
)
    requires
        a % (c.mhc_lanes as int) == b % (c.mhc_lanes as int),
        m.a_pre@[a] == m.a_pre@[b] && m.a_post@[a] == m.a_post@[b] && m.a_res@[a] == m.a_res@[b],
        forall|k: int|
            #![trigger m.b_pre@[a * c.mhc_lanes + k]]
            0 <= k < c.mhc_lanes ==> {
                &&& m.b_pre@[a * c.mhc_lanes + k] == m.b_pre@[b * c.mhc_lanes + k]
                &&& m.b_post@[a * c.mhc_lanes + k] == m.b_post@[b * c.mhc_lanes + k]
                &&& product(n, m.phi_pre, a * c.mhc_lanes + k, xh) == product(
                    n,
                    m.phi_pre,
                    b * c.mhc_lanes + k,
                    xh,
                )
                &&& product(n, m.phi_post, a * c.mhc_lanes + k, xh) == product(
                    n,
                    m.phi_post,
                    b * c.mhc_lanes + k,
                    xh,
                )
            },
        forall|k: int|
            #![trigger m.b_res@[a * c.mhc_lanes * c.mhc_lanes + k]]
            0 <= k < c.mhc_lanes * c.mhc_lanes ==> {
                &&& m.b_res@[a * c.mhc_lanes * c.mhc_lanes + k] == m.b_res@[b * c.mhc_lanes
                    * c.mhc_lanes + k]
                &&& product(n, m.phi_res, a * c.mhc_lanes * c.mhc_lanes + k, xh) == product(
                    n,
                    m.phi_res,
                    b * c.mhc_lanes * c.mhc_lanes + k,
                    xh,
                )
            },
    ensures
        input_gates(n, c, m, xh, a) == input_gates(n, c, m, xh, b),
        output_gates(n, c, m, xh, a) == output_gates(n, c, m, xh, b),
        lane_matrix(n, c, m, xh, a) == lane_matrix(n, c, m, xh, b),
{
    let l = c.mhc_lanes as int;
    assert(input_gates(n, c, m, xh, a) =~= input_gates(n, c, m, xh, b)) by {
        assert forall|k: int| 0 <= k < l implies input_gates(n, c, m, xh, a)[k] == input_gates(
            n,
            c,
            m,
            xh,
            b,
        )[k] by {
            assert(m.b_pre@[a * c.mhc_lanes + k] == m.b_pre@[b * c.mhc_lanes + k]);
        }
    }
    assert(output_gates(n, c, m, xh, a) =~= output_gates(n, c, m, xh, b)) by {
        assert forall|k: int| 0 <= k < l implies output_gates(n, c, m, xh, a)[k] == output_gates(
            n,
            c,
            m,
            xh,
            b,
        )[k] by {
            assert(m.b_pre@[a * c.mhc_lanes + k] == m.b_pre@[b * c.mhc_lanes + k]);
        }
    }
    let raw = |layer: int|
        Seq::new(
            (l * l) as nat,
            |k: int|
                n.plus(
                    n.times(m.a_res@[layer], product(n, m.phi_res, layer * l * l + k, xh)),
                    m.b_res@[layer * l * l + k],
                ),
        );
    let (ra, rb) = (raw(a), raw(b));
    assert(ra =~= rb) by {
        assert forall|k: int| 0 <= k < l * l implies ra[k] == rb[k] by {
            assert(m.b_res@[a * c.mhc_lanes * c.mhc_lanes + k] == m.b_res@[b * c.mhc_lanes
                * c.mhc_lanes + k]);
        }
    }
    assert(lane_matrix(n, c, m, xh, a) == balanced(n, ra, l));
    assert(lane_matrix(n, c, m, xh, b) == balanced(n, rb, l));
}

/// No layer is passed over and no position: every layer goes on from the lanes of the
/// one before, with the keys and values that it gave at every position so far.
pub proof fn law_every_layer_and_position_takes_part(p: Pass, layer: int, pos: int, q: int)
    requires
        0 <= layer,
        0 <= q <= pos,
    ensures
        p.lanes(layer + 1, pos) == lanes_after(
            p.n,
            p.m.cfg,
            p.m.mhc,
            p.lanes(layer, pos),
            p.block_out(layer, pos, p.lanes(layer, pos), p.rows(layer, pos + 1)),
            layer,
        ),
        p.rows(layer, pos + 1).len() == pos + 1,
        p.rows(layer, pos + 1)[q] == p.kv(layer, q, p.lanes(layer, q)),
    decreases pos,
{
    if pos > 0 {
        law_every_layer_and_position_takes_part(
            p,
            layer,
            pos - 1,
            if q < pos {
                q
            } else {
                0
            },
        );
    }
    let before = p.rows(layer, pos);
    assert(before.len() == pos) by {
        if pos == 0 {
            assert(p.rows(layer, 0) == Seq::<KvRow>::empty());
        }
    }
    assert(p.rows(layer, pos + 1) == before.push(p.kv(layer, pos, p.lanes(layer, pos))));
}

} // verus!
