//! Which memory entries and which earlier values a position reads.

use crate::config::{tables_per_order, value_window, EngramGeometry};
use crate::kernels::{engram_hash, engram_index, engram_table_order};
use vstd::arithmetic::div_mod::*;
use vstd::arithmetic::mul::*;
use vstd::prelude::*;

verus! {

/// The token `k` steps back from `pos`, zero before the first.
pub open spec fn token_back(history: Seq<u32>, pos: int, k: int) -> u32 {
    if k > pos {
        0
    } else {
        history[pos - k]
    }
}

/// The last `order` tokens up to `pos`, most recent first.
pub open spec fn tokens_back(history: Seq<u32>, pos: int, order: int) -> Seq<u32> {
    Seq::new(order as nat, |k: int| token_back(history, pos, k))
}

/// The n-gram order that a table hashes.
pub open spec fn table_order(e: EngramGeometry, table: int) -> int {
    e.orders@[table / tables_per_order(e)] as int
}

/// The table row that a position fetches: none where its n-gram reaches back
/// before the first token, and otherwise the hashed row of that table.
pub open spec fn entry_row(
    e: EngramGeometry,
    history: Seq<u32>,
    pos: int,
    table: int,
) -> Option<int> {
    let order = table_order(e, table);
    if order > 0 && order - 1 > pos {
        None
    } else {
        Some(
            table * e.slots + engram_hash(
                table as u32,
                e.slots as u32,
                tokens_back(history, pos, order),
            ),
        )
    }
}

/// A memory geometry whose tables can be numbered and hashed.
pub open spec fn hashable(e: EngramGeometry) -> bool {
    &&& e.orders@.len() > 0
    &&& e.num_tables > 0
    &&& e.num_tables as int % e.orders@.len() as int == 0
    &&& e.num_tables <= u32::MAX
    &&& 0 < e.slots <= u32::MAX
    &&& e.num_tables * e.slots <= usize::MAX
}

proof fn lemma_table_group(e: EngramGeometry, table: int)
    requires
        hashable(e),
        0 <= table < e.num_tables,
    ensures
        tables_per_order(e) > 0,
        0 <= table / tables_per_order(e) < e.orders@.len(),
{
    let n = e.num_tables as int;
    let o = e.orders@.len() as int;
    let h = n / o;
    lemma_fundamental_div_mod(n, o);
    assert(n == o * h);
    assert(h > 0) by (nonlinear_arith)
        requires
            n == o * h,
            n > 0,
            o > 0,
    ;
    lemma_div_pos_is_pos(table, h);
    lemma_fundamental_div_mod(table, h);
    lemma_mod_bound(table, h);
    let q = table / h;
    assert(q < o) by (nonlinear_arith)
        requires
            h * q <= table,
            table < o * h,
            h > 0,
    ;
}

/// The rows that a position fetches, table by table. A missing row stands for
/// an entry of zeros.
pub fn entry_rows(e: &EngramGeometry, history: &[u32], pos: usize) -> (rows: Vec<Option<usize>>)
    requires
        hashable(*e),
        pos < history@.len(),
    ensures
        rows@.len() == e.num_tables,
        forall|t: int|
            0 <= t < e.num_tables ==> match entry_row(*e, history@, pos as int, t) {
                Some(r) => #[trigger] rows@[t] == Some(r as usize) && 0 <= r < e.num_tables * e.slots,
                None => rows@[t] is None,
            },
{
    let heads: usize = e.heads();
    let mut rows: Vec<Option<usize>> = Vec::new();
    let mut table: usize = 0;
    while table < e.num_tables
        invariant
            table <= e.num_tables,
            heads == tables_per_order(*e),
            hashable(*e),
            pos < history@.len(),
            rows@.len() == table,
            forall|t: int|
                0 <= t < table ==> match entry_row(*e, history@, pos as int, t) {
                    Some(r) => #[trigger] rows@[t] == Some(r as usize) && 0 <= r < e.num_tables
                        * e.slots,
                    None => rows@[t] is None,
                },
        decreases e.num_tables - table,
    {
        proof {
            lemma_table_group(*e, table as int);
        }
        let order: usize = e.orders[engram_table_order(table, heads)];
        if order > 0 && order - 1 > pos {
            rows.push(None);
        } else {
            let at = |k: usize| -> (t: u32)
                ensures
                    t == token_back(history@, pos as int, k as int),
                {
                    if k > pos {
                        0
                    } else {
                        history[pos - k]
                    }
                };
            let idx: usize = engram_index(table, order, e.slots, at);
            proof {
                let tokens = choose|tokens: Seq<u32>|
                    #![trigger engram_hash(table as u32, e.slots as u32, tokens)]
                    tokens.len() == order && (forall|k: int|
                        0 <= k < order ==> call_ensures(at, (k as usize,), #[trigger] tokens[k]))
                        && idx == engram_hash(table as u32, e.slots as u32, tokens);
                assert forall|k: int| 0 <= k < order implies tokens[k] == token_back(
                    history@,
                    pos as int,
                    k,
                ) by {
                    assert(call_ensures(at, (k as usize,), tokens[k]));
                }
                assert(tokens =~= tokens_back(history@, pos as int, order as int));
                assert(table * e.slots + idx < e.num_tables * e.slots) by (nonlinear_arith)
                    requires
                        table + 1 <= e.num_tables,
                        idx < e.slots,
                ;
                assert(0 <= table * e.slots) by (nonlinear_arith)
                    requires
                        table >= 0,
                        e.slots >= 0,
                ;
            }
            rows.push(Some(table * e.slots + idx));
        }
        table = table + 1;
    }
    rows
}

/// The position that tap `j` reads: none where it lies before the first.
pub open spec fn tap_position(e: EngramGeometry, pos: int, j: int) -> Option<int> {
    if j * e.conv_dilation > pos {
        None
    } else {
        Some(pos - j * e.conv_dilation)
    }
}

/// Where a tap's value is while a chunk of positions is processed.
#[derive(Debug, Clone, Copy, PartialEq, Eq)]
pub enum TapSource {
    /// Before the first position: it contributes nothing.
    Skip,
    /// In the chunk, that many positions behind its start.
    Chunk(usize),
    /// In the value ring, at that position.
    Ring(usize),
}

/// Where tap `j` of position `pos` is read from in a chunk that starts at `p0`.
pub open spec fn tap_source(e: EngramGeometry, pos: int, p0: int, j: int) -> TapSource {
    match tap_position(e, pos, j) {
        None => TapSource::Skip,
        Some(q) => if q >= p0 {
            TapSource::Chunk((q - p0) as usize)
        } else {
            TapSource::Ring(q as usize)
        },
    }
}

/// The sources of all taps of position `pos` in a chunk that starts at `p0`.
pub fn tap_sources(e: &EngramGeometry, pos: usize, p0: usize) -> (v: Vec<TapSource>)
    requires
        e.conv_taps * e.conv_dilation <= usize::MAX,
    ensures
        v@.len() == e.conv_taps,
        forall|j: int|
            0 <= j < e.conv_taps ==> #[trigger] v@[j] == tap_source(*e, pos as int, p0 as int, j),
{
    let mut v: Vec<TapSource> = Vec::new();
    let mut j: usize = 0;
    while j < e.conv_taps
        invariant
            j <= e.conv_taps,
            e.conv_taps * e.conv_dilation <= usize::MAX,
            v@.len() == j,
            forall|i: int|
                0 <= i < j ==> #[trigger] v@[i] == tap_source(*e, pos as int, p0 as int, i),
        decreases e.conv_taps - j,
    {
        assert(0 <= j * e.conv_dilation <= e.conv_taps * e.conv_dilation) by (nonlinear_arith)
            requires
                0 <= j <= e.conv_taps,
        ;
        let shift: usize = j * e.conv_dilation;
        if shift > pos {
            v.push(TapSource::Skip);
        } else if pos - shift >= p0 {
            v.push(TapSource::Chunk(pos - shift - p0));
        } else {
            v.push(TapSource::Ring(pos - shift));
        }
        j = j + 1;
    }
    v
}

/// Cutting the positions into chunks does not change which value a tap reads:
/// the chunk's own entry, the ring, or nothing, it is that of the position the
/// tap reaches back to.
pub proof fn law_chunks_do_not_move_taps(e: EngramGeometry, pos: int, p0: int, j: int)
    requires
        0 <= p0 <= pos <= usize::MAX,
        0 <= j,
    ensures
        match tap_source(e, pos, p0, j) {
            TapSource::Skip => tap_position(e, pos, j) is None,
            TapSource::Chunk(i) => tap_position(e, pos, j) == Some(p0 + i) && p0 + i <= pos,
            TapSource::Ring(q) => tap_position(e, pos, j) == Some(q as int) && q < p0,
        },
{
    assert(0 <= j * e.conv_dilation) by (nonlinear_arith)
        requires
            0 <= j,
            0 <= e.conv_dilation,
    ;
}

/// A value that a chunk reads from the ring was not overwritten since: the
/// positions before the chunk are the last ones written, and the tap reaches
/// back less than the ring is long.
pub proof fn law_ring_holds_what_a_chunk_reads(e: EngramGeometry, pos: int, p0: int, j: int)
    requires
        0 <= p0 <= pos <= usize::MAX,
        0 <= j < e.conv_taps,
        e.sites@.len() > 0,
        tap_source(e, pos, p0, j) is Ring,
    ensures
        ({
            let q = tap_source(e, pos, p0, j)->Ring_0;
            q < p0 && (p0 - 1) - q < value_window(e) + 1
        }),
{
    assert(0 <= j * e.conv_dilation <= e.conv_taps * e.conv_dilation) by (nonlinear_arith)
        requires
            0 <= j <= e.conv_taps,
    ;
}

/// Which row a position fetches depends on the tokens up to it alone.
pub proof fn law_entries_look_back_only(
    e: EngramGeometry,
    a: Seq<u32>,
    b: Seq<u32>,
    pos: int,
    table: int,
)
    requires
        0 <= pos < a.len(),
        pos < b.len(),
        forall|q: int| 0 <= q <= pos ==> #[trigger] a[q] == b[q],
    ensures
        entry_row(e, a, pos, table) == entry_row(e, b, pos, table),
{
    let order = table_order(e, table);
    assert forall|k: int| 0 <= k implies token_back(a, pos, k) == token_back(b, pos, k) by {
        if k <= pos {
            assert(a[pos - k] == b[pos - k]);
        }
    }
    assert(tokens_back(a, pos, order) =~= tokens_back(b, pos, order));
}

/// Tables are shared out among the orders in blocks: of as many tables as there are
/// for one order, the first block hashes the first order, the next the second. A
/// table of the `k`th block fetches nothing where the `k`th order reaches back
/// before the first token. Otherwise its row lies among its own rows, and depends
/// on that many last tokens alone, wherever they stand.
pub proof fn law_tables_hash_their_order(
    e: EngramGeometry,
    a: Seq<u32>,
    b: Seq<u32>,
    p: int,
    q: int,
    k: int,
    i: int,
)
    requires
        hashable(e),
        0 <= p < a.len(),
        0 <= q < b.len(),
        0 <= k < e.orders@.len(),
        0 <= i < e.num_tables as int / e.orders@.len() as int,
        e.orders@[k] <= p + 1,
        e.orders@[k] <= q + 1,
        forall|j: int|
            0 <= j < e.orders@[k] ==> #[trigger] a[p - j] == b[q - j],
    ensures
        ({
            let t = k * (e.num_tables as int / e.orders@.len() as int) + i;
            &&& 0 <= t < e.num_tables
            &&& entry_row(e, a, p, t) is Some
            &&& entry_row(e, a, p, t) == entry_row(e, b, q, t)
            &&& t * e.slots <= entry_row(e, a, p, t)->0 < (t + 1) * e.slots
            &&& forall|r: int|
                0 <= r && r + 1 < e.orders@[k] ==> #[trigger] entry_row(e, a, r, t) is None
        }),
{
    let per = e.num_tables as int / e.orders@.len() as int;
    let t = k * per + i;
    lemma_fundamental_div_mod(e.num_tables as int, e.orders@.len() as int);
    assert(t == per * k + i && 0 <= t < e.orders@.len() * per) by (nonlinear_arith)
        requires
            t == k * per + i,
            0 <= k,
            k + 1 <= e.orders@.len(),
            0 <= i < per,
    ;
    lemma_fundamental_div_mod_converse(t, per, k, i);
    let order = e.orders@[k] as int;
    assert(table_order(e, t) == order);
    assert forall|j: int| 0 <= j < order implies token_back(a, p, j) == token_back(b, q, j) by {
        assert(a[p - j] == b[q - j]);
    }
    assert(tokens_back(a, p, order) =~= tokens_back(b, q, order));
    let h = engram_hash(t as u32, e.slots as u32, tokens_back(a, p, order));
    assert(h < e.slots);
    assert((t + 1) * e.slots == t * e.slots + e.slots) by (nonlinear_arith);
}

/// The taps stand `conv_dilation` positions apart: the first reads the position
/// itself, and every next one what the tap before it reads that far back, or
/// nothing where that is before the first position.
pub proof fn law_taps_step_back_by_the_dilation(e: EngramGeometry, pos: int, j: int)
    requires
        0 <= pos,
        0 <= j,
    ensures
        tap_position(e, pos, 0) == Some(pos),
        tap_position(e, pos, j + 1) == if pos < e.conv_dilation {
            None
        } else {
            tap_position(e, pos - e.conv_dilation, j)
        },
{
    assert((j + 1) * e.conv_dilation == j * e.conv_dilation + e.conv_dilation && 0 <= j
        * e.conv_dilation) by (nonlinear_arith)
        requires
            0 <= j,
            0 <= e.conv_dilation,
    ;
    assert(0 * e.conv_dilation == 0);
}

} // verus!
