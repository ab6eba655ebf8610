//! The n-gram memory: what a position fetches, the values and keys that this
//! gives, and the convolution over earlier values.

use crate::arith::{Arith, Binary, Num, Unary};
use crate::batch::{law_taps_read_their_position, recalls, row_of};
use crate::config::{fetched_width, value_window, EngramGeometry, V2Config};
use crate::cq::CqWeight;
use crate::engram::{entry_row, entry_rows, hashable, tap_position, tap_source, tap_sources, TapSource};
use crate::matmul::product;
use crate::model::V2Engram;
use crate::rotate::{prepared, row_weights};
use crate::state::{filled_cells, V2State};
use vstd::arithmetic::div_mod::*;
use vstd::prelude::*;

verus! {

/// What a position fetches, table by table: a row of the tables, or zeros.
pub open spec fn fetched(
    n: Num<u32>,
    e: EngramGeometry,
    tables: CqWeight,
    history: Seq<u32>,
    pos: int,
) -> Seq<u32> {
    let w = e.sub_dim as int;
    Seq::new(
        fetched_width(e) as nat,
        |i: int|
            match entry_row(e, history, pos, i / w) {
                Some(r) => row_weights(n, tables, r)[i % w],
                None => n.zero,
            },
    )
}

/// A site's matrices have the shapes that the geometry needs.
pub open spec fn site_fits(c: V2Config, s: V2Engram) -> bool {
    let e = c.engram;
    &&& hashable(e)
    &&& e.sub_dim > 0
    &&& c.d_model > 0
    &&& fetched_width(e) == c.d_model
    &&& e.conv_taps * e.conv_dilation <= usize::MAX
    &&& s.tables.wf()
    &&& s.tables.in_feat == e.sub_dim
    &&& s.tables.out_feat >= e.num_tables * e.slots
    &&& s.value_proj.wf()
    &&& s.value_proj.in_feat == c.d_model
    &&& s.value_proj.out_feat == c.d_model
    &&& s.key_proj.wf()
    &&& s.key_proj.out_feat == c.d_model
    &&& s.key_proj.in_padded == s.value_proj.in_padded
    &&& s.taps@.len() == e.conv_taps * c.d_model
}

/// What a site's projections read at a position.
pub open spec fn site_input(
    n: Num<u32>,
    c: V2Config,
    s: V2Engram,
    history: Seq<u32>,
    pos: int,
) -> Seq<u32> {
    prepared(n, s.value_proj, fetched(n, c.engram, s.tables, history, pos))
}

/// The products of the first `rows` rows.
pub open spec fn products(n: Num<u32>, w: CqWeight, xh: Seq<u32>, rows: int) -> Seq<u32> {
    Seq::new(rows as nat, |r: int| product(n, w, r, xh))
}

/// The memory value of a site at a position, before the convolution.
pub open spec fn site_value(
    n: Num<u32>,
    c: V2Config,
    s: V2Engram,
    history: Seq<u32>,
    pos: int,
) -> Seq<u32> {
    products(n, s.value_proj, site_input(n, c, s, history, pos), c.d_model as int)
}

/// The memory key of a site at a position.
pub open spec fn site_key(
    n: Num<u32>,
    c: V2Config,
    s: V2Engram,
    history: Seq<u32>,
    pos: int,
) -> Seq<u32> {
    products(n, s.key_proj, site_input(n, c, s, history, pos), c.d_model as int)
}

/// Entry `col` of the convolution over the first `j` taps: taps that reach back
/// before the first position add nothing.
pub open spec fn convolved_at(
    n: Num<u32>,
    c: V2Config,
    taps: Seq<u32>,
    values: Seq<Seq<u32>>,
    pos: int,
    j: int,
    col: int,
) -> u32
    decreases j,
{
    if j <= 0 {
        n.zero
    } else {
        let before = convolved_at(n, c, taps, values, pos, j - 1, col);
        match tap_position(c.engram, pos, j - 1) {
            None => before,
            Some(q) => n.plus(before, n.times(taps[(j - 1) * c.d_model + col], values[q][col])),
        }
    }
}

/// The convolution over a site's values at a position.
pub open spec fn convolved(
    n: Num<u32>,
    c: V2Config,
    taps: Seq<u32>,
    values: Seq<Seq<u32>>,
    pos: int,
) -> Seq<u32> {
    Seq::new(
        c.d_model as nat,
        |col: int| convolved_at(n, c, taps, values, pos, c.engram.conv_taps as int, col),
    )
}

proof fn lemma_table_cell(t: int, tables: int, k: int, w: int)
    requires
        0 <= t < tables,
        0 <= k < w,
    ensures
        0 <= t * w,
        t * w + k < tables * w,
        t * w + w <= tables * w,
        (t * w + k) / w == t,
        (t * w + k) % w == k,
        (t + 1) * w == t * w + w,
{
    assert(0 <= t * w && t * w + w <= tables * w && (t + 1) * w == t * w + w) by (nonlinear_arith)
        requires
            0 <= t,
            t + 1 <= tables,
            0 <= w,
    ;
    assert(t * w + k == w * t + k) by (nonlinear_arith);
    lemma_fundamental_div_mod_converse(t * w + k, w, t, k);
}

/// Fetch what a position reads from the tables.
pub fn fetch<
    U: Fn(Unary, u32) -> u32 + Sync,
    B: Fn(Binary, u32, u32) -> u32 + Sync,
    C: Fn(usize) -> u32 + Sync,
>(
    ar: &Arith<U, B, C>,
    e: &EngramGeometry,
    tables: &CqWeight,
    history: &[u32],
    pos: usize,
) -> (out: Vec<u32>)
    requires
        ar.wf(),
        hashable(*e),
        e.sub_dim > 0,
        fetched_width(*e) <= usize::MAX,
        tables.wf(),
        tables.in_feat == e.sub_dim,
        tables.out_feat >= e.num_tables * e.slots,
        pos < history@.len(),
    ensures
        out@ == fetched(ar@, *e, *tables, history@, pos as int),
{
    let w: usize = e.sub_dim;
    let rows = entry_rows(e, history, pos);
    let ghost want = fetched(ar@, *e, *tables, history@, pos as int);
    let mut out: Vec<u32> = Vec::new();
    let mut t: usize = 0;
    while t < e.num_tables
        invariant
            t <= e.num_tables,
            ar.wf(),
            w == e.sub_dim,
            w > 0,
            tables.wf(),
            tables.in_feat == w,
            tables.out_feat >= e.num_tables * e.slots,
            rows@.len() == e.num_tables,
            forall|t: int|
                0 <= t < e.num_tables ==> match entry_row(*e, history@, pos as int, t) {
                    Some(r) => #[trigger] rows@[t] == Some(r as usize) && 0 <= r < e.num_tables
                        * e.slots,
                    None => rows@[t] is None,
                },
            want == fetched(ar@, *e, *tables, history@, pos as int),
            out@.len() == t * w,
            forall|i: int| 0 <= i < t * w ==> #[trigger] out@[i] == want[i],
        decreases e.num_tables - t,
    {
        proof {
            lemma_table_cell(t as int, e.num_tables as int, 0, w as int);
        }
        let part: Vec<u32> = match rows[t] {
            Some(r) => tables.dequantize_row(ar, r),
            None => filled_cells(0u32, w),
        };
        let ghost row = entry_row(*e, history@, pos as int, t as int);
        assert(rows@[t as int] == rows@[t as int]);
        assert(part@.len() == w);
        let mut k: usize = 0;
        while k < w
            invariant
                k <= w,
                t < e.num_tables,
                w == e.sub_dim,
                part@.len() == w,
                row == entry_row(*e, history@, pos as int, t as int),
                match row {
                    Some(r) => part@ == row_weights(ar@, *tables, r),
                    None => part@ == Seq::new(w as nat, |i: int| 0u32),
                },
                want == fetched(ar@, *e, *tables, history@, pos as int),
                out@.len() == t * w + k,
                forall|i: int| 0 <= i < t * w + k ==> #[trigger] out@[i] == want[i],
            decreases w - k,
        {
            proof {
                lemma_table_cell(t as int, e.num_tables as int, k as int, w as int);
            }
            out.push(part[k]);
            k = k + 1;
        }
        t = t + 1;
    }
    assert(out@ =~= want);
    out
}

/// What a site's projections read at a position.
pub fn read_site<
    U: Fn(Unary, u32) -> u32 + Sync,
    B: Fn(Binary, u32, u32) -> u32 + Sync,
    C: Fn(usize) -> u32 + Sync,
>(ar: &Arith<U, B, C>, c: &V2Config, s: &V2Engram, history: &[u32], pos: usize) -> (xh: Vec<u32>)
    requires
        ar.wf(),
        site_fits(*c, *s),
        pos < history@.len(),
    ensures
        xh@ == site_input(ar@, *c, *s, history@, pos as int),
        xh@.len() == s.value_proj.in_padded,
{
    let entries = fetch(ar, &c.engram, &s.tables, history, pos);
    s.value_proj.prepare_input(ar, entries.as_slice())
}

/// Add one tap's share to the convolution.
fn add_tap<
    U: Fn(Unary, u32) -> u32 + Sync,
    B: Fn(Binary, u32, u32) -> u32 + Sync,
    C: Fn(usize) -> u32 + Sync,
>(ar: &Arith<U, B, C>, acc: &mut Vec<u32>, tap: &[u32], row: &[u32])
    requires
        ar.wf(),
        tap@.len() == old(acc)@.len(),
        row@.len() == old(acc)@.len(),
    ensures
        final(acc)@ == Seq::new(
            old(acc)@.len(),
            |i: int| ar@.plus(old(acc)@[i], ar@.times(tap@[i], row@[i])),
        ),
{
    let ghost before = acc@;
    let d: usize = acc.len();
    let mut i: usize = 0;
    while i < d
        invariant
            i <= d,
            ar.wf(),
            d == acc@.len(),
            before.len() == d,
            tap@.len() == d,
            row@.len() == d,
            forall|j: int|
                0 <= j < i ==> #[trigger] acc@[j] == ar@.plus(
                    before[j],
                    ar@.times(tap@[j], row@[j]),
                ),
            forall|j: int| i <= j < d ==> #[trigger] acc@[j] == before[j],
        decreases d - i,
    {
        let v: u32 = ar.mul_add(acc[i], tap[i], row[i]);
        acc.set(i, v);
        i = i + 1;
    }
    assert(acc@ =~= Seq::new(
        before.len(),
        |i: int| ar@.plus(before[i], ar@.times(tap@[i], row@[i])),
    ));
}

/// The convolution over a site's values at a position. The ring has seen the
/// first `p0` positions, `chunk` holds the values from there on.
pub(crate) fn convolve<
    U: Fn(Unary, u32) -> u32 + Sync,
    B: Fn(Binary, u32, u32) -> u32 + Sync,
    C: Fn(usize) -> u32 + Sync,
>(
    ar: &Arith<U, B, C>,
    c: &V2Config,
    s: &V2Engram,
    state: &V2State<u32>,
    site: usize,
    p0: usize,
    pos: usize,
    chunk: &[u32],
    Ghost(values): Ghost<Seq<Seq<u32>>>,
) -> (out: Vec<u32>)
    requires
        ar.wf(),
        site_fits(*c, *s),
        state.wf(),
        state.d_model == c.d_model,
        site < state.sites,
        c.engram.sites@.len() > 0,
        state.ring == value_window(c.engram) + 1,
        p0 <= pos + 1,
        pos < values.len() <= usize::MAX,
        p0 <= values.len(),
        forall|q: int| 0 <= q < values.len() ==> (#[trigger] values[q]).len() == c.d_model,
        recalls(*state, site as int, values.take(p0 as int)),
        chunk@.len() >= (values.len() - p0) * c.d_model,
        forall|i: int|
            0 <= i < values.len() - p0 ==> #[trigger] row_of(chunk@, i, c.d_model as int)
                == values[p0 + i],
    ensures
        out@ == convolved(ar@, *c, s.taps@, values, pos as int),
{
    let d: usize = c.d_model;
    let total: usize = s.taps.len();
    let sources = tap_sources(&c.engram, pos, p0);
    let mut acc: Vec<u32> = filled_cells(0u32, d);
    let mut j: usize = 0;
    while j < c.engram.conv_taps
        invariant
            j <= c.engram.conv_taps,
            ar.wf(),
            site_fits(*c, *s),
            state.wf(),
            d == c.d_model,
            state.d_model == d,
            site < state.sites,
            c.engram.sites@.len() > 0,
            state.ring == value_window(c.engram) + 1,
            p0 <= pos + 1,
            pos < values.len() <= usize::MAX,
            p0 <= values.len(),
            total == s.taps@.len(),
            forall|q: int| 0 <= q < values.len() ==> (#[trigger] values[q]).len() == d,
            recalls(*state, site as int, values.take(p0 as int)),
            chunk@.len() >= (values.len() - p0) * d,
            forall|i: int|
                0 <= i < values.len() - p0 ==> #[trigger] row_of(chunk@, i, d as int) == values[p0
                    + i],
            sources@.len() == c.engram.conv_taps,
            forall|j: int|
                0 <= j < c.engram.conv_taps ==> #[trigger] sources@[j] == tap_source(
                    c.engram,
                    pos as int,
                    p0 as int,
                    j,
                ),
            acc@.len() == d,
            forall|col: int|
                0 <= col < d ==> #[trigger] acc@[col] == convolved_at(
                    ar@,
                    *c,
                    s.taps@,
                    values,
                    pos as int,
                    j as int,
                    col,
                ),
        decreases c.engram.conv_taps - j,
    {
        let source: TapSource = sources[j];
        let ghost before = acc@;
        proof {
            law_taps_read_their_position(
                *state,
                *c,
                site as int,
                values,
                chunk@,
                p0 as int,
                pos as int,
                j as int,
            );
            lemma_table_cell(j as int, c.engram.conv_taps as int, 0, d as int);
            let shift = j * c.engram.conv_dilation;
            assert(0 <= shift) by (nonlinear_arith)
                requires
                    shift == j * c.engram.conv_dilation,
                    j >= 0,
                    c.engram.conv_dilation >= 0,
            ;
            if source is Chunk {
                let i = source->Chunk_0 as int;
                assert(i < values.len() - p0);
                assert((i + 1) * d <= (values.len() - p0) * d) by (nonlinear_arith)
                    requires
                        i + 1 <= values.len() - p0,
                        d >= 0,
                ;
            }
        }
        match state.tap_row(site, source, chunk) {
            Some(row) => {
                let tap = vstd::slice::slice_subrange(s.taps.as_slice(), j * d, j * d + d);
                assert(row@.len() == d);
                add_tap(ar, &mut acc, tap, row);
                proof {
                    assert forall|col: int| 0 <= col < d implies #[trigger] acc@[col]
                        == convolved_at(ar@, *c, s.taps@, values, pos as int, j + 1, col) by {
                        assert(before[col] == convolved_at(
                            ar@,
                            *c,
                            s.taps@,
                            values,
                            pos as int,
                            j as int,
                            col,
                        ));
                        assert(tap@[col] == s.taps@[j * d + col]);
                    }
                }
            },
            None => {},
        }
        j = j + 1;
    }
    assert(acc@ =~= convolved(ar@, *c, s.taps@, values, pos as int));
    acc
}

} // verus!
