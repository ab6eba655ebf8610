//! Per-sequence state: key and value rings, token history, value ring of the
//! n-gram memory.
//!
//! A layer's cache is a ring of `cache_len` positions: position `p` stands in
//! slot `p % cache_len`. Writing a position overwrites the one `cache_len`
//! before it, which no attention window of at most `cache_len` reaches any
//! more.

use crate::config::{value_window, EngramGeometry, V2Config};
use vstd::arithmetic::div_mod::*;
use vstd::prelude::*;

verus! {

/// State of one sequence. Elements are of any copyable kind.
pub struct V2State<T> {
    /// Per layer, `[kv_heads * cache_len * head_dim]`.
    pub k_cache: Vec<Vec<T>>,
    pub v_cache: Vec<Vec<T>>,
    /// Token at every position, zero where none was fed.
    pub history: Vec<u32>,
    /// Position of the next token.
    pub pos: usize,
    pub kv_heads: usize,
    pub head_dim: usize,
    /// Positions that a ring holds.
    pub cache_len: usize,
    /// Attention window in force. Zero means full causal attention.
    pub kv_window: usize,
    /// Values of the n-gram memory, `[sites * ring * d_model]`.
    pub engram_v: Vec<T>,
    /// Positions that the value ring holds.
    pub ring: usize,
    pub sites: usize,
    pub d_model: usize,
    /// The hidden state of the token that was stepped last.
    pub hidden: Vec<T>,
    /// What an empty cell holds.
    pub zero: T,
}

/// Cells of one layer's cache.
pub open spec fn layer_cells(kv_heads: int, cache_len: int, head_dim: int) -> int {
    kv_heads * cache_len * head_dim
}

/// Where the row of a head and a position starts in a ring.
pub open spec fn slot_pos(head: int, pos: int, cache_len: int, head_dim: int) -> int {
    (head * cache_len + pos % cache_len) * head_dim
}

/// Where the row of a site and a position starts in the value ring.
pub open spec fn value_slot(site: int, pos: int, ring: int, d: int) -> int {
    (site * ring + pos % ring) * d
}

/// The lowest position that a query at `pos` attends to.
pub open spec fn window_start(kv_window: int, pos: int) -> int {
    if kv_window == 0 || kv_window > pos {
        0
    } else {
        pos + 1 - kv_window
    }
}

impl<T> V2State<T> {
    /// Well-formedness: every buffer has the size that the geometry gives it,
    /// and the ring holds the window or the whole sequence.
    pub open spec fn wf(&self) -> bool {
        &&& self.k_cache@.len() == self.v_cache@.len()
        &&& self.cache_len > 0
        &&& self.head_dim > 0
        &&& layer_cells(self.kv_heads as int, self.cache_len as int, self.head_dim as int)
            <= usize::MAX
        &&& forall|l: int|
            0 <= l < self.k_cache@.len() ==> (#[trigger] self.k_cache@[l])@.len() == layer_cells(
                self.kv_heads as int,
                self.cache_len as int,
                self.head_dim as int,
            )
        &&& forall|l: int|
            0 <= l < self.v_cache@.len() ==> (#[trigger] self.v_cache@[l])@.len() == layer_cells(
                self.kv_heads as int,
                self.cache_len as int,
                self.head_dim as int,
            )
        &&& self.pos <= self.history@.len()
        &&& self.history@.len() <= self.cache_len || 0 < self.kv_window <= self.cache_len
        &&& self.ring > 0
        &&& self.engram_v@.len() == self.sites * self.ring * self.d_model
    }

    /// The cached key of a layer, head and position.
    pub open spec fn key(&self, layer: int, head: int, pos: int) -> Seq<T> {
        let o = slot_pos(head, pos, self.cache_len as int, self.head_dim as int);
        self.k_cache@[layer]@.subrange(o, o + self.head_dim)
    }

    /// The cached value of a layer, head and position.
    pub open spec fn value(&self, layer: int, head: int, pos: int) -> Seq<T> {
        let o = slot_pos(head, pos, self.cache_len as int, self.head_dim as int);
        self.v_cache@[layer]@.subrange(o, o + self.head_dim)
    }

    /// The stored memory value of a site and position.
    pub open spec fn memory(&self, site: int, pos: int) -> Seq<T> {
        let o = value_slot(site, pos, self.ring as int, self.d_model as int);
        self.engram_v@.subrange(o, o + self.d_model)
    }

    /// Everything but the cells is the same.
    pub open spec fn same_frame(&self, other: &V2State<T>) -> bool {
        &&& self.k_cache@.len() == other.k_cache@.len()
        &&& self.history@ == other.history@
        &&& self.pos == other.pos
        &&& self.kv_heads == other.kv_heads
        &&& self.head_dim == other.head_dim
        &&& self.cache_len == other.cache_len
        &&& self.kv_window == other.kv_window
        &&& self.ring == other.ring
        &&& self.sites == other.sites
        &&& self.d_model == other.d_model
        &&& self.hidden@ == other.hidden@
        &&& self.zero == other.zero
    }
}

/// `after` is `before` with one position's keys and values written: every
/// head's row at that position's slot is replaced, all other rows stay.
pub open spec fn wrote<T>(
    before: V2State<T>,
    after: V2State<T>,
    layer: int,
    pos: int,
    k: Seq<T>,
    v: Seq<T>,
) -> bool {
    let hd = before.head_dim as int;
    let len = before.cache_len as int;
    &&& after.same_frame(&before)
    &&& after.engram_v == before.engram_v
    &&& forall|l: int, h: int, q: int|
        0 <= l < before.k_cache@.len() && 0 <= h < before.kv_heads && 0 <= q
            ==> #[trigger] after.key(l, h, q) == if l == layer && q % len == pos % len {
            k.subrange(h * hd, h * hd + hd)
        } else {
            before.key(l, h, q)
        }
    &&& forall|l: int, h: int, q: int|
        0 <= l < before.k_cache@.len() && 0 <= h < before.kv_heads && 0 <= q
            ==> #[trigger] after.value(l, h, q) == if l == layer && q % len == pos % len {
            v.subrange(h * hd, h * hd + hd)
        } else {
            before.value(l, h, q)
        }
}

/// A row of `m` cells that starts at a multiple of `m` lies within `n` rows.
proof fn lemma_row(a: int, n: int, m: int)
    requires
        0 <= a < n,
        0 <= m,
    ensures
        0 <= a * m,
        a * m + m <= n * m,
{
    assert(0 <= a * m && a * m + m <= n * m) by (nonlinear_arith)
        requires
            0 <= a < n,
            0 <= m,
    ;
}

/// A row number of head and slot lies within the rows of all heads.
proof fn lemma_slot_row(head: int, heads: int, s: int, len: int)
    requires
        0 <= head < heads,
        0 <= s < len,
    ensures
        0 <= head * len + s < heads * len,
{
    assert(0 <= head * len + s < heads * len) by (nonlinear_arith)
        requires
            0 <= head < heads,
            0 <= s < len,
    ;
}

/// Different heads or different slots have different row numbers.
proof fn lemma_slot_rows_differ(h1: int, s1: int, h2: int, s2: int, len: int)
    requires
        0 <= s1 < len,
        0 <= s2 < len,
        h1 != h2 || s1 != s2,
    ensures
        h1 * len + s1 != h2 * len + s2,
{
    if h1 < h2 {
        assert(h1 * len + s1 < h2 * len + s2) by (nonlinear_arith)
            requires
                h1 + 1 <= h2,
                0 <= s1 < len,
                0 <= s2,
        ;
    } else if h2 < h1 {
        assert(h2 * len + s2 < h1 * len + s1) by (nonlinear_arith)
            requires
                h2 + 1 <= h1,
                0 <= s2 < len,
                0 <= s1,
        ;
    }
}

/// Different rows of `m` cells do not overlap.
proof fn lemma_rows_disjoint(a: int, b: int, m: int)
    requires
        a != b,
        0 <= m,
    ensures
        a * m + m <= b * m || b * m + m <= a * m,
{
    if a < b {
        assert(a * m + m <= b * m) by (nonlinear_arith)
            requires
                a + 1 <= b,
                0 <= m,
        ;
    } else {
        assert(b * m + m <= a * m) by (nonlinear_arith)
            requires
                b + 1 <= a,
                0 <= m,
        ;
    }
}

proof fn lemma_slot_bounds(head: int, heads: int, pos: int, len: int, hd: int)
    requires
        0 <= head < heads,
        0 <= pos,
        0 < len,
        0 <= hd,
    ensures
        0 <= slot_pos(head, pos, len, hd),
        slot_pos(head, pos, len, hd) + hd <= layer_cells(heads, len, hd),
        0 <= head * len + pos % len < heads * len,
{
    lemma_mod_bound(pos, len);
    lemma_slot_row(head, heads, pos % len, len);
    lemma_row(head * len + pos % len, heads * len, hd);
}

/// Overwrite `row.len()` cells of `cells` from `at` on with `src[from..]`.
fn copy_row<T: Copy>(cells: &mut Vec<T>, at: usize, src: &[T], from: usize, n: usize)
    requires
        at + n <= old(cells)@.len(),
        from + n <= src@.len(),
    ensures
        final(cells)@.len() == old(cells)@.len(),
        forall|i: int|
            0 <= i < final(cells)@.len() ==> #[trigger] final(cells)@[i] == if at <= i < at + n {
                src@[from + i - at]
            } else {
                old(cells)@[i]
            },
{
    let total: usize = cells.len();
    let have: usize = src.len();
    let mut j: usize = 0;
    while j < n
        invariant
            j <= n,
            total == cells@.len(),
            have == src@.len(),
            at + n <= total,
            from + n <= have,
            cells@.len() == old(cells)@.len(),
            forall|i: int|
                0 <= i < cells@.len() ==> #[trigger] cells@[i] == if at <= i < at + j {
                    src@[from + i - at]
                } else {
                    old(cells)@[i]
                },
        decreases n - j,
    {
        cells.set(at + j, src[from + j]);
        j = j + 1;
    }
}

impl<T: Copy> V2State<T> {
    /// Position of the next token.
    pub fn pos(&self) -> (p: usize)
        ensures
            p == self.pos,
    {
        self.pos
    }

    /// The tokens fed so far, oldest first.
    pub fn history(&self) -> (h: &[u32])
        requires
            self.wf(),
        ensures
            h@ == self.history@.take(self.pos as int),
    {
        let h = vstd::slice::slice_subrange(self.history.as_slice(), 0, self.pos);
        assert(h@ =~= self.history@.take(self.pos as int));
        h
    }

    /// The lowest position that a query at `pos` attends to.
    pub fn window_lo(&self, pos: usize) -> (lo: usize)
        ensures
            lo == window_start(self.kv_window as int, pos as int),
    {
        if self.kv_window == 0 || self.kv_window > pos {
            0
        } else {
            pos - (self.kv_window - 1)
        }
    }

    /// The attention window in force.
    pub fn kv_window(&self) -> (w: usize)
        ensures
            w == self.kv_window,
    {
        self.kv_window
    }

    /// Override the attention window; `None` restores the model's own. Refused
    /// where the window needs more positions than the rings hold, and then
    /// nothing changes. No window needs more than the longest sequence has.
    pub fn set_kv_window(&mut self, window: Option<usize>, cfg: &V2Config) -> (r: Result<
        (),
        &'static str,
    >)
        requires
            old(self).wf(),
            old(self).history@.len() == cfg.max_seq_len,
        ensures
            final(self).wf(),
            ({
                let w = match window {
                    Some(w) => w,
                    None => cfg.kv_window,
                };
                let needed = if w == 0 || w > cfg.max_seq_len {
                    cfg.max_seq_len
                } else {
                    w
                };
                if needed > old(self).cache_len {
                    &&& r is Err
                    &&& r->Err_0
                        == "requested attention window exceeds this state's KV capacity; allocate with make_state_full_causal"
                    &&& *final(self) == *old(self)
                } else {
                    &&& r is Ok
                    &&& final(self).kv_window == w
                    &&& final(self).k_cache == old(self).k_cache
                    &&& final(self).v_cache == old(self).v_cache
                    &&& final(self).engram_v == old(self).engram_v
                    &&& final(self).same_frame(&(V2State { kv_window: w, ..*old(self) }))
                }
            }),
    {
        let w: usize = match window {
            Some(w) => w,
            None => cfg.kv_window,
        };
        let needed: usize = if w == 0 || w > cfg.max_seq_len {
            cfg.max_seq_len
        } else {
            w
        };
        if needed > self.cache_len {
            return Err(
                "requested attention window exceeds this state's KV capacity; allocate with make_state_full_causal",
            );
        }
        self.kv_window = w;
        Ok(())
    }

    /// Record a token at a position without advancing.
    pub fn set_history(&mut self, pos: usize, token: u32)
        requires
            old(self).wf(),
            pos < old(self).history@.len(),
        ensures
            final(self).wf(),
            final(self).history@ == old(self).history@.update(pos as int, token),
            final(self).k_cache == old(self).k_cache,
            final(self).v_cache == old(self).v_cache,
            final(self).engram_v == old(self).engram_v,
            final(self).same_frame(&(V2State { history: final(self).history, ..*old(self) })),
    {
        self.history.set(pos, token);
    }

    /// Advance the position by `n`.
    pub fn advance(&mut self, n: usize)
        requires
            old(self).wf(),
            old(self).pos + n <= old(self).history@.len(),
        ensures
            final(self).wf(),
            final(self).pos == old(self).pos + n,
            final(self).k_cache == old(self).k_cache,
            final(self).v_cache == old(self).v_cache,
            final(self).engram_v == old(self).engram_v,
            final(self).same_frame(&(V2State { pos: final(self).pos, ..*old(self) })),
    {
        let len: usize = self.history.len();
        self.pos = self.pos + n;
    }

    /// Where the row of a head and a position starts in a layer's ring.
    pub fn slot(&self, kv_head: usize, pos: usize) -> (o: usize)
        requires
            self.wf(),
            kv_head < self.kv_heads,
        ensures
            o == slot_pos(kv_head as int, pos as int, self.cache_len as int, self.head_dim as int),
            o + self.head_dim <= layer_cells(
                self.kv_heads as int,
                self.cache_len as int,
                self.head_dim as int,
            ),
    {
        proof {
            let len = self.cache_len as int;
            let hd = self.head_dim as int;
            lemma_slot_bounds(kv_head as int, self.kv_heads as int, pos as int, len, hd);
            let row = kv_head * len + pos as int % len;
            assert(row <= row * hd) by (nonlinear_arith)
                requires
                    row >= 0,
                    hd >= 1,
            ;
            assert(0 <= kv_head * len) by (nonlinear_arith)
                requires
                    kv_head >= 0,
                    len >= 0,
            ;
        }
        (kv_head * self.cache_len + pos % self.cache_len) * self.head_dim
    }

    /// Write the keys and values of one position into a layer's rings.
    ///
    /// Every head's row at that position's slot is replaced; all other rows
    /// stay.
    pub fn write_kv(&mut self, layer: usize, pos: usize, k: &[T], v: &[T])
        requires
            old(self).wf(),
            layer < old(self).k_cache@.len(),
            k@.len() == old(self).kv_heads * old(self).head_dim,
            v@.len() == old(self).kv_heads * old(self).head_dim,
        ensures
            final(self).wf(),
            wrote(*old(self), *final(self), layer as int, pos as int, k@, v@),
    {
        let hd: usize = self.head_dim;
        let heads: usize = self.kv_heads;
        let ghost len = self.cache_len as int;
        let ghost s0 = *self;
        let nk: usize = k.len();
        let nv: usize = v.len();
        let mut head: usize = 0;
        while head < heads
            invariant
                head <= heads,
                self.wf(),
                s0.wf(),
                layer < self.k_cache@.len(),
                self.same_frame(&s0),
                self.engram_v == s0.engram_v,
                hd == self.head_dim,
                heads == self.kv_heads,
                len == self.cache_len,
                nk == k@.len(),
                nv == v@.len(),
                k@.len() == heads * hd,
                v@.len() == heads * hd,
                forall|l: int, h: int, q: int|
                    0 <= l < s0.k_cache@.len() && 0 <= h < heads && 0 <= q ==> #[trigger] self.key(
                        l,
                        h,
                        q,
                    ) == if l == layer && h < head && q % len == pos as int % len {
                        k@.subrange(h * hd, h * hd + hd)
                    } else {
                        s0.key(l, h, q)
                    },
                forall|l: int, h: int, q: int|
                    0 <= l < s0.k_cache@.len() && 0 <= h < heads && 0 <= q ==> #[trigger] self.value(
                        l,
                        h,
                        q,
                    ) == if l == layer && h < head && q % len == pos as int % len {
                        v@.subrange(h * hd, h * hd + hd)
                    } else {
                        s0.value(l, h, q)
                    },
            decreases heads - head,
        {
            let off: usize = self.slot(head, pos);
            proof {
                lemma_row(head as int, heads as int, hd as int);
            }
            let ghost before = *self;
            let mut kc: Vec<T> = Vec::new();
            std::mem::swap(&mut kc, &mut self.k_cache[layer]);
            copy_row(&mut kc, off, k, head * hd, hd);
            std::mem::swap(&mut kc, &mut self.k_cache[layer]);
            let mut vc: Vec<T> = Vec::new();
            std::mem::swap(&mut vc, &mut self.v_cache[layer]);
            copy_row(&mut vc, off, v, head * hd, hd);
            std::mem::swap(&mut vc, &mut self.v_cache[layer]);
            proof {
                assert forall|l: int, h: int, q: int|
                    0 <= l < s0.k_cache@.len() && 0 <= h < heads
                        && 0 <= q implies #[trigger] self.key(l, h, q) == if l == layer && h
                    < head + 1 && q % len == pos as int % len {
                    k@.subrange(h * hd, h * hd + hd)
                } else {
                    s0.key(l, h, q)
                } by {
                    lemma_slot_bounds(h, heads as int, q, len, hd as int);
                    lemma_slot_bounds(head as int, heads as int, pos as int, len, hd as int);
                    if l == layer && h == head && q % len == pos as int % len {
                        assert(self.key(l, h, q) =~= k@.subrange(h * hd, h * hd + hd));
                    } else if l == layer {
                        lemma_mod_bound(q, len);
                        lemma_mod_bound(pos as int, len);
                        lemma_slot_rows_differ(h, q % len, head as int, pos as int % len, len);
                        lemma_rows_disjoint(
                            h * len + q % len,
                            head * len + pos as int % len,
                            hd as int,
                        );
                        assert(self.key(l, h, q) =~= before.key(l, h, q));
                    } else {
                        assert(self.key(l, h, q) =~= before.key(l, h, q));
                    }
                }
                assert forall|l: int, h: int, q: int|
                    0 <= l < s0.k_cache@.len() && 0 <= h < heads
                        && 0 <= q implies #[trigger] self.value(l, h, q) == if l == layer && h
                    < head + 1 && q % len == pos as int % len {
                    v@.subrange(h * hd, h * hd + hd)
                } else {
                    s0.value(l, h, q)
                } by {
                    lemma_slot_bounds(h, heads as int, q, len, hd as int);
                    lemma_slot_bounds(head as int, heads as int, pos as int, len, hd as int);
                    if l == layer && h == head && q % len == pos as int % len {
                        assert(self.value(l, h, q) =~= v@.subrange(h * hd, h * hd + hd));
                    } else if l == layer {
                        lemma_mod_bound(q, len);
                        lemma_mod_bound(pos as int, len);
                        lemma_slot_rows_differ(h, q % len, head as int, pos as int % len, len);
                        lemma_rows_disjoint(
                            h * len + q % len,
                            head * len + pos as int % len,
                            hd as int,
                        );
                        assert(self.value(l, h, q) =~= before.value(l, h, q));
                    } else {
                        assert(self.value(l, h, q) =~= before.value(l, h, q));
                    }
                }
            }
            head = head + 1;
        }
    }

    /// The cached key of a head and a position.
    pub fn k_at(&self, layer: usize, kv_head: usize, pos: usize) -> (row: &[T])
        requires
            self.wf(),
            layer < self.k_cache@.len(),
            kv_head < self.kv_heads,
        ensures
            row@ == self.key(layer as int, kv_head as int, pos as int),
            row@.len() == self.head_dim,
    {
        let off: usize = self.slot(kv_head, pos);
        vstd::slice::slice_subrange(self.k_cache[layer].as_slice(), off, off + self.head_dim)
    }

    /// The cached value of a head and a position.
    pub fn v_at(&self, layer: usize, kv_head: usize, pos: usize) -> (row: &[T])
        requires
            self.wf(),
            layer < self.v_cache@.len(),
            kv_head < self.kv_heads,
        ensures
            row@ == self.value(layer as int, kv_head as int, pos as int),
            row@.len() == self.head_dim,
    {
        let off: usize = self.slot(kv_head, pos);
        vstd::slice::slice_subrange(self.v_cache[layer].as_slice(), off, off + self.head_dim)
    }

    /// Positions that a ring holds.
    pub fn cache_len(&self) -> (n: usize)
        ensures
            n == self.cache_len,
    {
        self.cache_len
    }
}


/// `n` cells that hold `x`.
pub fn filled_cells<T: Copy>(x: T, n: usize) -> (v: Vec<T>)
    ensures
        v@ == Seq::new(n as nat, |i: int| x),
{
    let mut v: Vec<T> = Vec::new();
    let mut i: usize = 0;
    while i < n
        invariant
            i <= n,
            v@ == Seq::new(i as nat, |j: int| x),
        decreases n - i,
    {
        v.push(x);
        i = i + 1;
        assert(v@ =~= Seq::new(i as nat, |j: int| x));
    }
    v
}

/// `n` layers of `cells` cells that hold `x`.
fn filled_layers<T: Copy>(x: T, n: usize, cells: usize) -> (v: Vec<Vec<T>>)
    ensures
        v@.len() == n,
        forall|l: int|
            0 <= l < n ==> (#[trigger] v@[l])@ == Seq::new(cells as nat, |i: int| x),
{
    let mut v: Vec<Vec<T>> = Vec::new();
    let mut i: usize = 0;
    while i < n
        invariant
            i <= n,
            v@.len() == i,
            forall|l: int|
                0 <= l < i ==> (#[trigger] v@[l])@ == Seq::new(cells as nat, |j: int| x),
        decreases n - i,
    {
        v.push(filled_cells(x, cells));
        i = i + 1;
    }
    v
}

/// The buffers of a state with rings of `cache_len` positions can be addressed.
pub open spec fn state_fits(cfg: V2Config, cache_len: int) -> bool {
    &&& layer_cells(cfg.num_kv_heads as int, cache_len, cfg.head_dim as int) <= usize::MAX
    &&& value_window(cfg.engram) < usize::MAX
    &&& cfg.engram.sites@.len() * (value_window(cfg.engram) + 1) * cfg.d_model <= usize::MAX
}

/// Every cell, key, value and token of `s` is blank, and nothing was fed.
pub open spec fn is_blank<T>(s: V2State<T>) -> bool {
    &&& s.pos == 0
    &&& forall|l: int, i: int|
        0 <= l < s.k_cache@.len() && 0 <= i < s.k_cache@[l]@.len() ==> #[trigger] s.k_cache@[l]@[i]
            == s.zero
    &&& forall|l: int, i: int|
        0 <= l < s.v_cache@.len() && 0 <= i < s.v_cache@[l]@.len() ==> #[trigger] s.v_cache@[l]@[i]
            == s.zero
    &&& forall|i: int| 0 <= i < s.engram_v@.len() ==> #[trigger] s.engram_v@[i] == s.zero
    &&& forall|i: int| 0 <= i < s.history@.len() ==> #[trigger] s.history@[i] == 0
}

/// `s` has the sizes of `cfg`, with rings of `cache_len` positions.
pub open spec fn is_sized<T>(s: V2State<T>, cfg: V2Config, cache_len: int) -> bool {
    &&& s.k_cache@.len() == cfg.num_layers
    &&& s.history@.len() == cfg.max_seq_len
    &&& s.kv_heads == cfg.num_kv_heads
    &&& s.head_dim == cfg.head_dim
    &&& s.cache_len == cache_len
    &&& s.ring == value_window(cfg.engram) + 1
    &&& s.sites == cfg.engram.sites@.len()
    &&& s.d_model == cfg.d_model
}

impl<T: Copy> V2State<T> {
    /// A blank state with rings of `cache_len` positions.
    pub fn with_cache(cfg: &V2Config, cache_len: usize, kv_window: usize, zero: T) -> (s: Self)
        requires
            state_fits(*cfg, cache_len as int),
            cache_len > 0,
            cfg.head_dim > 0,
            cfg.max_seq_len <= cache_len || 0 < kv_window <= cache_len,
        ensures
            s.wf(),
            is_blank(s),
            is_sized(s, *cfg, cache_len as int),
            s.kv_window == kv_window,
            s.zero == zero,
    {
        let ghost hd = cfg.head_dim as int;
        proof {
            let a = cfg.num_kv_heads * cache_len;
            assert(0 <= a <= a * hd) by (nonlinear_arith)
                requires
                    a == cfg.num_kv_heads * cache_len,
                    hd >= 1,
            ;
        }
        let cells: usize = cfg.num_kv_heads * cache_len * cfg.head_dim;
        let sites: usize = cfg.engram.sites.len();
        let ring: usize = cfg.engram.window() + 1;
        let memory: usize = memory_cells(sites, ring, cfg.d_model);
        V2State {
            k_cache: filled_layers(zero, cfg.num_layers, cells),
            v_cache: filled_layers(zero, cfg.num_layers, cells),
            history: filled_cells(0u32, cfg.max_seq_len),
            pos: 0,
            kv_heads: cfg.num_kv_heads,
            head_dim: cfg.head_dim,
            cache_len,
            kv_window,
            engram_v: filled_cells(zero, memory),
            ring,
            sites,
            d_model: cfg.d_model,
            hidden: filled_cells(zero, cfg.d_model),
            zero,
        }
    }

    /// Start a new sequence: everything blank, the window as it was.
    pub fn reset(&mut self)
        requires
            old(self).wf(),
        ensures
            final(self).wf(),
            is_blank(*final(self)),
            final(self).same_frame(
                &(V2State { pos: 0, history: final(self).history, ..*old(self) }),
            ),
            final(self).history@.len() == old(self).history@.len(),
    {
        let layers: usize = self.k_cache.len();
        let len: usize = self.history.len();
        let memory: usize = self.engram_v.len();
        proof {
            let hd = self.head_dim as int;
            let a = self.kv_heads * self.cache_len;
            assert(0 <= a <= a * hd) by (nonlinear_arith)
                requires
                    a == self.kv_heads * self.cache_len,
                    hd >= 1,
            ;
        }
        let cells: usize = self.kv_heads * self.cache_len * self.head_dim;
        self.pos = 0;
        self.k_cache = filled_layers(self.zero, layers, cells);
        self.v_cache = filled_layers(self.zero, layers, cells);
        self.engram_v = filled_cells(self.zero, memory);
        self.history = filled_cells(0u32, len);
    }

    /// Bytes of the key and value rings, at four bytes a cell.
    pub fn kv_bytes(&self) -> (n: usize)
        requires
            self.wf(),
            self.k_cache@.len() * layer_cells(
                self.kv_heads as int,
                self.cache_len as int,
                self.head_dim as int,
            ) * 8 <= usize::MAX,
        ensures
            n == self.k_cache@.len() * layer_cells(
                self.kv_heads as int,
                self.cache_len as int,
                self.head_dim as int,
            ) * 8,
    {
        let layers: usize = self.k_cache.len();
        if layers == 0 {
            proof {
                let c = layer_cells(
                    self.kv_heads as int,
                    self.cache_len as int,
                    self.head_dim as int,
                );
                assert(0 * c == 0) by (nonlinear_arith);
            }
            return 0;
        }
        let cells: usize = self.k_cache[0].len();
        proof {
            assert(layers * cells >= 0) by (nonlinear_arith)
                requires
                    layers >= 0,
                    cells >= 0,
            ;
        }
        layers * cells * 8
    }

    /// The stored memory value of a site and position.
    pub fn memory_at(&self, site: usize, pos: usize) -> (row: &[T])
        requires
            self.wf(),
            site < self.sites,
        ensures
            row@ == self.memory(site as int, pos as int),
    {
        let off: usize = self.memory_slot(site, pos);
        let total: usize = self.engram_v.len();
        vstd::slice::slice_subrange(self.engram_v.as_slice(), off, off + self.d_model)
    }

    /// Where the row of a site and a position starts in the value ring.
    pub fn memory_slot(&self, site: usize, pos: usize) -> (o: usize)
        requires
            self.wf(),
            site < self.sites,
        ensures
            o == value_slot(site as int, pos as int, self.ring as int, self.d_model as int),
            o + self.d_model <= self.engram_v@.len(),
    {
        let total: usize = self.engram_v.len();
        if self.d_model == 0 {
            proof {
                let row = site * self.ring + pos as int % (self.ring as int);
                assert(row * 0 == 0);
            }
            return 0;
        }
        proof {
            let len = self.ring as int;
            let d = self.d_model as int;
            lemma_slot_bounds(site as int, self.sites as int, pos as int, len, d);
            let row = site * len + pos as int % len;
            assert(row <= row * d) by (nonlinear_arith)
                requires
                    row >= 0,
                    d >= 1,
            ;
            assert(0 <= site * len) by (nonlinear_arith)
                requires
                    site >= 0,
                    len >= 0,
            ;
        }
        (site * self.ring + pos % self.ring) * self.d_model
    }

    /// Store the memory value of a site and position. That position's slot is
    /// replaced, all others stay.
    pub fn write_memory(&mut self, site: usize, pos: usize, row: &[T])
        requires
            old(self).wf(),
            site < old(self).sites,
            row@.len() == old(self).d_model,
        ensures
            final(self).wf(),
            final(self).same_frame(old(self)),
            final(self).k_cache == old(self).k_cache,
            final(self).v_cache == old(self).v_cache,
            forall|s: int, q: int|
                0 <= s < old(self).sites && 0 <= q ==> #[trigger] final(self).memory(s, q) == if s
                    == site && q % (old(self).ring as int) == pos as int % (
                old(self).ring as int) {
                    row@
                } else {
                    old(self).memory(s, q)
                },
    {
        let off: usize = self.memory_slot(site, pos);
        let d: usize = self.d_model;
        let ghost before = *self;
        copy_row(&mut self.engram_v, off, row, 0, d);
        proof {
            let len = self.ring as int;
            assert forall|s: int, q: int|
                0 <= s < before.sites && 0 <= q implies #[trigger] self.memory(s, q) == if s == site
                && q % len == pos as int % len {
                row@
            } else {
                before.memory(s, q)
            } by {
                lemma_slot_bounds(s, before.sites as int, q, len, d as int);
                lemma_slot_bounds(site as int, before.sites as int, pos as int, len, d as int);
                if s == site && q % len == pos as int % len {
                    assert(self.memory(s, q) =~= row@);
                } else {
                    lemma_mod_bound(q, len);
                    lemma_mod_bound(pos as int, len);
                    lemma_slot_rows_differ(s, q % len, site as int, pos as int % len, len);
                    lemma_rows_disjoint(
                        s * len + q % len,
                        site * len + pos as int % len,
                        d as int,
                    );
                    assert(self.memory(s, q) =~= before.memory(s, q));
                }
            }
        }
    }
}

fn memory_cells(sites: usize, ring: usize, d: usize) -> (n: usize)
    requires
        sites * ring * d <= usize::MAX,
    ensures
        n == sites * ring * d,
{
    if d == 0 {
        assert((sites * ring) * d == 0) by (nonlinear_arith)
            requires
                d == 0,
        ;
        return 0;
    }
    proof {
        let a = sites * ring;
        assert(0 <= a <= a * d) by (nonlinear_arith)
            requires
                a == sites * ring,
                d >= 1,
        ;
    }
    sites * ring * d
}

/// The keys and values written at positions `0..written.len()` of a layer that
/// are still in its rings: the last `cache_len` of them.
pub open spec fn remembers<T>(
    s: V2State<T>,
    layer: int,
    written: Seq<(Seq<T>, Seq<T>)>,
) -> bool {
    let hd = s.head_dim as int;
    forall|h: int, q: int|
        0 <= h < s.kv_heads && 0 <= q < written.len() && written.len() - q <= s.cache_len ==> {
            &&& #[trigger] s.key(layer, h, q) == written[q].0.subrange(h * hd, h * hd + hd)
            &&& s.value(layer, h, q) == written[q].1.subrange(h * hd, h * hd + hd)
        }
}

proof fn lemma_mod_apart(a: int, b: int, len: int)
    requires
        0 <= a < b,
        b - a < len,
    ensures
        a % len != b % len,
{
    lemma_fundamental_div_mod(a, len);
    lemma_fundamental_div_mod(b, len);
    if a % len == b % len {
        let x = a / len;
        let y = b / len;
        assert(len * y - len * x == b - a);
        assert(len * (y - x) == len * y - len * x) by (nonlinear_arith);
        if y - x >= 1 {
            assert(len * (y - x) >= len) by (nonlinear_arith)
                requires
                    y - x >= 1,
                    len > 0,
            ;
        } else {
            assert(len * (y - x) <= 0) by (nonlinear_arith)
                requires
                    y - x <= 0,
                    len > 0,
            ;
        }
    }
}

/// Reading the rings gives back what was written: feeding the next position
/// keeps the last `cache_len` positions readable, and leaves the other layers as
/// they were.
pub proof fn law_rings_read_back_what_was_written<T>(
    before: V2State<T>,
    after: V2State<T>,
    layer: int,
    other: int,
    written: Seq<(Seq<T>, Seq<T>)>,
    others: Seq<(Seq<T>, Seq<T>)>,
    k: Seq<T>,
    v: Seq<T>,
)
    requires
        before.wf(),
        0 <= layer < before.k_cache@.len(),
        0 <= other < before.k_cache@.len(),
        remembers(before, layer, written),
        remembers(before, other, others),
        wrote(before, after, layer, written.len() as int, k, v),
    ensures
        remembers(after, layer, written.push((k, v))),
        other != layer ==> remembers(after, other, others),
{
    lemma_written_row(before, after, layer, written, k, v);
    if other != layer {
        lemma_other_rows(before, after, layer, other, written.len() as int, others, k, v);
    }
}

proof fn lemma_written_row<T>(
    before: V2State<T>,
    after: V2State<T>,
    layer: int,
    written: Seq<(Seq<T>, Seq<T>)>,
    k: Seq<T>,
    v: Seq<T>,
)
    requires
        before.wf(),
        0 <= layer < before.k_cache@.len(),
        remembers(before, layer, written),
        wrote(before, after, layer, written.len() as int, k, v),
    ensures
        remembers(after, layer, written.push((k, v))),
{
    let n = written.len() as int;
    let hd = after.head_dim as int;
    let now = written.push((k, v));
    assert(after.head_dim == before.head_dim);
    assert forall|h: int, q: int|
        0 <= h < after.kv_heads && 0 <= q < now.len() && now.len() - q <= after.cache_len implies {
        &&& #[trigger] after.key(layer, h, q) == now[q].0.subrange(h * hd, h * hd + hd)
        &&& after.value(layer, h, q) == now[q].1.subrange(h * hd, h * hd + hd)
    } by {
        assert(after.value(layer, h, q) == after.value(layer, h, q));
        if q < n {
            lemma_mod_apart(q, n, before.cache_len as int);
            assert(now[q] == written[q]);
            assert(before.key(layer, h, q) == written[q].0.subrange(h * hd, h * hd + hd));
            assert(before.value(layer, h, q) == written[q].1.subrange(h * hd, h * hd + hd));
        } else {
            assert(now[q] == (k, v));
        }
    }
}

proof fn lemma_other_rows<T>(
    before: V2State<T>,
    after: V2State<T>,
    layer: int,
    other: int,
    pos: int,
    others: Seq<(Seq<T>, Seq<T>)>,
    k: Seq<T>,
    v: Seq<T>,
)
    requires
        before.wf(),
        0 <= layer < before.k_cache@.len(),
        0 <= other < before.k_cache@.len(),
        other != layer,
        remembers(before, other, others),
        wrote(before, after, layer, pos, k, v),
    ensures
        remembers(after, other, others),
{
    let hd = after.head_dim as int;
    assert(after.head_dim == before.head_dim);
    assert forall|h: int, q: int|
        0 <= h < after.kv_heads && 0 <= q < others.len() && others.len() - q
            <= after.cache_len implies {
        &&& #[trigger] after.key(other, h, q) == others[q].0.subrange(h * hd, h * hd + hd)
        &&& after.value(other, h, q) == others[q].1.subrange(h * hd, h * hd + hd)
    } by {
        assert(after.value(other, h, q) == after.value(other, h, q));
        assert(before.key(other, h, q) == others[q].0.subrange(h * hd, h * hd + hd));
    }
}

/// Attention reads only what the rings still hold: with the positions up to
/// `pos` written, every position of its window is remembered.
pub proof fn law_window_stays_within_the_rings<T>(s: V2State<T>, pos: int, q: int)
    requires
        s.wf(),
        0 <= pos < s.history@.len(),
        window_start(s.kv_window as int, pos) <= q <= pos,
    ensures
        0 <= window_start(s.kv_window as int, pos) <= pos,
        pos + 1 - q <= s.cache_len,
        s.kv_window > 0 ==> pos - q < s.kv_window,
{
}

/// The memory values that a tap can reach are still in the value ring: no tap
/// reaches back as far as a position that was overwritten.
pub proof fn law_taps_stay_within_the_value_ring(e: EngramGeometry, ring: int, pos: int, j: int)
    requires
        e.sites@.len() > 0,
        ring == value_window(e) + 1,
        0 <= j < e.conv_taps,
        j * e.conv_dilation <= pos,
    ensures
        pos - j * e.conv_dilation >= 0,
        pos - (pos - j * e.conv_dilation) < ring,
        j > 0 && e.conv_dilation > 0 ==> (pos - j * e.conv_dilation) % ring != pos % ring,
{
    assert(0 <= j * e.conv_dilation <= e.conv_taps * e.conv_dilation) by (nonlinear_arith)
        requires
            0 <= j < e.conv_taps,
    ;
    if j > 0 && e.conv_dilation > 0 {
        assert(j * e.conv_dilation > 0) by (nonlinear_arith)
            requires
                j > 0,
                e.conv_dilation > 0,
        ;
        lemma_mod_apart(pos - j * e.conv_dilation, pos, ring);
    }
}

} // verus!
