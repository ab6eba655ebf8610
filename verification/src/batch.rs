//! Chunked prefill: a run of positions taken through the model together.
//!
//! The projections of a chunk are done at once. Two things keep their order.
//! Keys and values go into the rings position by position, each right before
//! the position attends, because a later position may overwrite the oldest row
//! that an earlier one still reads. Memory values of a chunk stay in a buffer
//! of their own until the whole chunk has been convolved, because the value
//! ring is shorter than a chunk.

use crate::config::{lemma_kv_heads, value_window, V2Config};
use crate::engram::{tap_position, tap_source, TapSource};
use crate::model::V2Model;
use crate::state::V2State;
use vstd::arithmetic::div_mod::*;
use vstd::prelude::*;

verus! {

/// Default number of positions in a chunk.
pub const DEFAULT_CHUNK: usize = 128;

/// The last of the positions `p0..p0 + k` that shares a ring slot with `q`,
/// counted from `p0`.
pub open spec fn last_on_slot(p0: int, k: int, q: int, ring: int) -> Option<int>
    decreases k,
{
    if k <= 0 {
        None
    } else if (p0 + k - 1) % ring == q % ring {
        Some(k - 1)
    } else {
        last_on_slot(p0, k - 1, q, ring)
    }
}

/// Row `i` of a buffer of rows of width `d`.
pub open spec fn row_of<T>(rows: Seq<T>, i: int, d: int) -> Seq<T> {
    rows.subrange(i * d, i * d + d)
}

proof fn lemma_row_fits(i: int, k: int, d: int)
    requires
        0 <= i < k,
        0 <= d,
    ensures
        0 <= i * d,
        i * d + d <= k * d,
{
    assert(0 <= i * d && i * d + d <= k * d) by (nonlinear_arith)
        requires
            0 <= i,
            i + 1 <= k,
            0 <= d,
    ;
}

/// The memory values of a site at positions `0..values.len()` that are still in
/// the value ring: the last `ring` of them.
pub open spec fn recalls<T>(s: V2State<T>, site: int, values: Seq<Seq<T>>) -> bool {
    forall|q: int|
        0 <= q < values.len() && values.len() - q <= s.ring ==> #[trigger] s.memory(site, q)
            == values[q]
}

impl<T: Copy> V2State<T> {
    /// Store the memory values of the `k` positions from `p0` on, in order.
    /// Where two of them share a slot the later one stays.
    pub fn write_memory_chunk(&mut self, site: usize, p0: usize, k: usize, rows: &[T])
        requires
            old(self).wf(),
            site < old(self).sites,
            rows@.len() == k * old(self).d_model,
            p0 + k <= usize::MAX,
        ensures
            final(self).wf(),
            final(self).same_frame(old(self)),
            final(self).k_cache == old(self).k_cache,
            final(self).v_cache == old(self).v_cache,
            forall|s: int, q: int|
                0 <= s < old(self).sites && 0 <= q ==> #[trigger] final(self).memory(s, q) == if s
                    == site {
                    match last_on_slot(p0 as int, k as int, q, old(self).ring as int) {
                        Some(i) => row_of(rows@, i, old(self).d_model as int),
                        None => old(self).memory(s, q),
                    }
                } else {
                    old(self).memory(s, q)
                },
    {
        let total: usize = rows.len();
        let d: usize = self.d_model;
        let ghost before = *self;
        let mut i: usize = 0;
        while i < k
            invariant
                i <= k,
                site < before.sites,
                d == before.d_model,
                total == rows@.len(),
                rows@.len() == k * d,
                p0 + k <= usize::MAX,
                before.wf(),
                self.wf(),
                self.same_frame(&before),
                self.k_cache == before.k_cache,
                self.v_cache == before.v_cache,
                forall|s: int, q: int|
                    0 <= s < before.sites && 0 <= q ==> #[trigger] self.memory(s, q) == if s
                        == site {
                        match last_on_slot(p0 as int, i as int, q, before.ring as int) {
                            Some(j) => row_of(rows@, j, d as int),
                            None => before.memory(s, q),
                        }
                    } else {
                        before.memory(s, q)
                    },
            decreases k - i,
        {
            proof {
                lemma_row_fits(i as int, k as int, d as int);
            }
            let ghost mid = *self;
            let row = vstd::slice::slice_subrange(rows, i * d, i * d + d);
            self.write_memory(site, p0 + i, row);
            i = i + 1;
            proof {
                assert forall|s: int, q: int|
                    0 <= s < before.sites && 0 <= q implies #[trigger] self.memory(s, q) == if s
                    == site {
                    match last_on_slot(p0 as int, i as int, q, before.ring as int) {
                        Some(j) => row_of(rows@, j, d as int),
                        None => before.memory(s, q),
                    }
                } else {
                    before.memory(s, q)
                } by {
                    assert(mid.memory(s, q) == mid.memory(s, q));
                }
            }
        }
    }

    /// The row that a tap reads while a chunk is processed: from the chunk's own
    /// values, from the ring, or none.
    pub fn tap_row<'a>(&'a self, site: usize, source: TapSource, chunk: &'a [T]) -> (r: Option<
        &'a [T],
    >)
        requires
            self.wf(),
            site < self.sites,
            source is Chunk ==> (source->Chunk_0 + 1) * self.d_model <= chunk@.len(),
        ensures
            match source {
                TapSource::Skip => r is None,
                TapSource::Chunk(i) => r is Some && r->0@ == row_of(
                    chunk@,
                    i as int,
                    self.d_model as int,
                ),
                TapSource::Ring(q) => r is Some && r->0@ == self.memory(site as int, q as int),
            },
    {
        match source {
            TapSource::Skip => None,
            TapSource::Chunk(i) => {
                let total: usize = chunk.len();
                let d: usize = self.d_model;
                proof {
                    lemma_row_fits(i as int, i + 1, d as int);
                }
                Some(vstd::slice::slice_subrange(chunk, i * d, i * d + d))
            },
            TapSource::Ring(q) => Some(self.memory_at(site, q)),
        }
    }
}

proof fn lemma_last_on_slot(p0: int, k: int, q: int, ring: int)
    requires
        ring > 0,
        0 <= p0,
    ensures
        match last_on_slot(p0, k, q, ring) {
            Some(i) => 0 <= i < k && (p0 + i) % ring == q % ring && forall|j: int|
                i < j < k ==> #[trigger] ((p0 + j) % ring) != q % ring,
            None => forall|j: int| 0 <= j < k ==> #[trigger] ((p0 + j) % ring) != q % ring,
        },
    decreases k,
{
    if k > 0 {
        lemma_last_on_slot(p0, k - 1, q, ring);
    }
}

proof fn lemma_slots_apart(a: int, b: int, ring: int)
    requires
        0 <= a,
        0 <= b,
        a != b,
        -ring < a - b < ring,
    ensures
        a % ring != b % ring,
{
    if a % ring == b % ring {
        lemma_fundamental_div_mod(a, ring);
        lemma_fundamental_div_mod(b, ring);
        let t = a / ring - b / ring;
        assert(ring * t == a - b) by (nonlinear_arith)
            requires
                t == a / ring - b / ring,
                a == ring * (a / ring) + a % ring,
                b == ring * (b / ring) + b % ring,
                a % ring == b % ring,
        ;
        assert(t == 0) by (nonlinear_arith)
            requires
                -ring < ring * t < ring,
        ;
        assert(ring * 0 == 0) by (nonlinear_arith);
    }
}

/// Storing a chunk's memory values keeps the ring in step: the last `ring`
/// values of the sequence, the chunk's included, can be read back, and those of
/// the other sites too.
pub proof fn law_value_ring_follows_a_chunk<T>(
    before: V2State<T>,
    after: V2State<T>,
    site: int,
    other: int,
    values: Seq<Seq<T>>,
    others: Seq<Seq<T>>,
    rows: Seq<T>,
    k: int,
)
    requires
        before.wf(),
        0 <= site < before.sites,
        0 <= other < before.sites,
        0 <= k,
        recalls(before, site, values),
        recalls(before, other, others),
        after.ring == before.ring,
        after.d_model == before.d_model,
        forall|s: int, q: int|
            0 <= s < before.sites && 0 <= q ==> #[trigger] after.memory(s, q) == if s == site {
                match last_on_slot(values.len() as int, k, q, before.ring as int) {
                    Some(i) => row_of(rows, i, before.d_model as int),
                    None => before.memory(s, q),
                }
            } else {
                before.memory(s, q)
            },
    ensures
        recalls(
            after,
            site,
            values + Seq::new(k as nat, |i: int| row_of(rows, i, before.d_model as int)),
        ),
        other != site ==> recalls(after, other, others),
{
    let ring = before.ring as int;
    let p0 = values.len() as int;
    let d = before.d_model as int;
    let all = values + Seq::new(k as nat, |i: int| row_of(rows, i, d));
    assert forall|q: int| 0 <= q < all.len() && all.len() - q <= after.ring implies #[trigger]
    after.memory(site, q) == all[q] by {
        lemma_last_on_slot(p0, k, q, ring);
        match last_on_slot(p0, k, q, ring) {
            Some(i) => {
                if q >= p0 {
                    let j = q - p0;
                    assert((p0 + j) % ring == q % ring);
                }
                if p0 + i != q {
                    lemma_slots_apart(p0 + i, q, ring);
                }
            },
            None => {
                if q >= p0 {
                    let j = q - p0;
                    assert((p0 + j) % ring == q % ring);
                }
                assert(before.memory(site, q) == values[q]);
            },
        }
    }
    if other != site {
        assert forall|q: int|
            0 <= q < others.len() && others.len() - q <= after.ring implies #[trigger] after.memory(
            other,
            q,
        ) == others[q] by {
            assert(before.memory(other, q) == others[q]);
        }
    }
}

/// A tap reads the value of the position it reaches back to, in a chunk as when
/// positions are taken one by one. `values` are the memory values of a site at
/// all positions up to the end of the chunk, of which the ring has seen `p0` and
/// `rows` holds the others. The row that tap `j` of position `pos` reads is that
/// of `tap_position`.
pub proof fn law_taps_read_their_position<T>(
    s: V2State<T>,
    c: V2Config,
    site: int,
    values: Seq<Seq<T>>,
    rows: Seq<T>,
    p0: int,
    pos: int,
    j: int,
)
    requires
        s.wf(),
        0 <= site < s.sites,
        c.engram.sites@.len() > 0,
        s.ring == value_window(c.engram) + 1,
        0 <= j < c.engram.conv_taps,
        0 <= p0 <= pos + 1,
        0 <= pos < values.len() <= usize::MAX,
        p0 <= values.len(),
        recalls(s, site, values.take(p0)),
        forall|i: int|
            0 <= i < values.len() - p0 ==> #[trigger] row_of(rows, i, s.d_model as int) == values[p0
                + i],
    ensures
        match tap_source(c.engram, pos, p0, j) {
            TapSource::Skip => tap_position(c.engram, pos, j) is None,
            TapSource::Chunk(i) => tap_position(c.engram, pos, j) is Some && row_of(
                rows,
                i as int,
                s.d_model as int,
            ) == values[tap_position(c.engram, pos, j)->0],
            TapSource::Ring(q) => tap_position(c.engram, pos, j) is Some && s.memory(
                site,
                q as int,
            ) == values[tap_position(c.engram, pos, j)->0],
        },
{
    let e = c.engram;
    assert(0 <= j * e.conv_dilation <= e.conv_taps * e.conv_dilation) by (nonlinear_arith)
        requires
            0 <= j <= e.conv_taps,
    ;
    match tap_source(e, pos, p0, j) {
        TapSource::Skip => {},
        TapSource::Chunk(i) => {
            assert(row_of(rows, i as int, s.d_model as int) == values[p0 + i]);
        },
        TapSource::Ring(q) => {
            assert(s.memory(site, q as int) == values.take(p0)[q as int]);
        },
    }
}

/// Widths of the vectors that one position of a chunk takes.
#[derive(Debug, Clone, Copy, PartialEq, Eq)]
pub struct BatchWidths {
    /// All lanes.
    pub lanes: usize,
    /// All lanes, rotated.
    pub lanes_prep: usize,
    pub model: usize,
    /// A block input, rotated.
    pub input_prep: usize,
    pub lane_count: usize,
    pub lane_pairs: usize,
    pub attn: usize,
    pub kv: usize,
    /// An attention output, rotated.
    pub output_prep: usize,
    /// One row per memory site.
    pub sites: usize,
}

/// The widths of a model's buffers.
pub open spec fn widths_of(m: V2Model) -> BatchWidths {
    let c = m.cfg;
    let e = c.engram;
    BatchWidths {
        lanes: (c.mhc_lanes * c.d_model) as usize,
        lanes_prep: m.mhc.phi_pre.in_padded,
        model: c.d_model,
        input_prep: m.layers@[0].q_proj.in_padded,
        lane_count: c.mhc_lanes,
        lane_pairs: (c.mhc_lanes * c.mhc_lanes) as usize,
        attn: (c.num_heads * c.head_dim) as usize,
        kv: (c.num_kv_heads * c.head_dim) as usize,
        output_prep: m.layers@[0].out_proj.in_padded,
        sites: (e.sites@.len() * c.d_model) as usize,
    }
}

/// The widths of a model's buffers can be counted.
pub open spec fn widths_fit(c: V2Config) -> bool {
    &&& c.num_heads * c.head_dim <= usize::MAX
    &&& c.engram.sites@.len() * c.d_model <= usize::MAX
}

impl BatchWidths {
    /// The widths of a model's buffers.
    pub fn of(m: &V2Model) -> (w: BatchWidths)
        requires
            m.wf(),
            widths_fit(m.cfg),
        ensures
            w == widths_of(*m),
    {
        let c = &m.cfg;
        proof {
            lemma_kv_heads(*c);
            assert(c.num_kv_heads * c.head_dim <= c.num_heads * c.head_dim) by (nonlinear_arith)
                requires
                    c.num_kv_heads <= c.num_heads,
            ;
            let n = c.mhc_lanes as int;
            let l = c.num_layers as int;
            assert(n * n <= l * n * n) by (nonlinear_arith)
                requires
                    l >= 1,
                    n >= 1,
            ;
        }
        let rows: usize = m.mhc.b_res.len();
        BatchWidths {
            lanes: c.mhc_width(),
            lanes_prep: m.mhc.phi_pre.prepared_len(),
            model: c.d_model,
            input_prep: m.layers[0].q_proj.prepared_len(),
            lane_count: c.mhc_lanes,
            lane_pairs: c.mhc_lanes * c.mhc_lanes,
            attn: c.attn_dim(),
            kv: c.kv_dim(),
            output_prep: m.layers[0].out_proj.prepared_len(),
            sites: c.engram.sites.len() * c.d_model,
        }
    }
}

/// Chunks of a prompt: how many positions each holds, and how much working memory
/// that takes.
#[derive(Debug, Clone, Copy, PartialEq, Eq)]
pub struct V2Batch {
    /// Positions in a chunk.
    pub cap: usize,
    pub widths: BatchWidths,
    /// Width of the Hadamard block.
    pub hada_n: usize,
    /// Longest sequence.
    pub max_seq_len: usize,
}

/// Numbers that one position of a chunk takes.
pub open spec fn position_cells(w: BatchWidths) -> int {
    3 * w.lanes + w.lanes_prep + 6 * w.model + w.input_prep + 2 * w.lane_count + w.lane_pairs + 3
        * w.attn + 2 * w.kv + w.output_prep + 2 * w.sites + 1
}

/// Numbers that a chunk takes: those of its positions, and those that positions
/// share. What one memory site fetches is not counted.
pub open spec fn chunk_cells(b: V2Batch) -> int {
    b.cap * position_cells(b.widths) + b.hada_n + b.max_seq_len
}

impl V2Batch {
    /// Chunks of `cap` positions, one where `cap` is zero.
    pub fn new(model: &V2Model, cap: usize) -> (b: V2Batch)
        requires
            model.wf(),
            widths_fit(model.cfg),
        ensures
            b.cap == if cap == 0 {
                1
            } else {
                cap
            },
            b.widths == widths_of(*model),
            b.hada_n == model.cfg.hada_n,
            b.max_seq_len == model.cfg.max_seq_len,
    {
        V2Batch {
            cap: if cap == 0 {
                1
            } else {
                cap
            },
            widths: BatchWidths::of(model),
            hada_n: model.cfg.hada_n,
            max_seq_len: model.cfg.max_seq_len,
        }
    }

    /// Positions in a chunk.
    pub fn cap(&self) -> (n: usize)
        ensures
            n == self.cap,
    {
        self.cap
    }

    /// Approximate working memory of a chunk in bytes, at four bytes a number.
    pub fn bytes(&self) -> (n: usize)
        requires
            chunk_cells(*self) * 4 <= usize::MAX,
            self.cap > 0,
        ensures
            n == chunk_cells(*self) * 4,
    {
        let w = &self.widths;
        proof {
            let cells = position_cells(*w);
            assert(cells <= self.cap * cells) by (nonlinear_arith)
                requires
                    self.cap >= 1,
                    cells >= 0,
            ;
        }
        let cells: usize = 3 * w.lanes + w.lanes_prep + 6 * w.model + w.input_prep + 2
            * w.lane_count + w.lane_pairs + 3 * w.attn + 2 * w.kv + w.output_prep + 2 * w.sites + 1;
        (self.cap * cells + self.hada_n + self.max_seq_len) * 4
    }
}

} // verus!
