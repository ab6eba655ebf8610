//! The probe heads over a text: the cells that a pass gives, the embedding and
//! the confidence drawn from them, and the ranking of descriptions.

use crate::arith::{Arith, Binary, Num, Unary, ONE};
use crate::blocks::{Blocks, VectorOps};
use crate::bundle::{head_position, ProbeHead};
use crate::cact::{HEAD_CONFIDENCE, HEAD_CONTRASTIVE};
use crate::chunked::law_a_blank_state_is_in_step;
use crate::config::V2Config;
use crate::cq::copy_words;
use crate::dot::{chain, dot_in_order, group_dot_serial};
use crate::engine::{clipped, opened_ids};
use crate::exact::products_commute;
use crate::forward::{fed, has_stray_token};
use crate::generate::{first_stray, holds_tokens, lemma_fed_next, lemma_first_stray, no_tokens};
use crate::heads::{pool_fault, pooled_of, ProbePool};
use crate::model::{ring_width, V2Model};
use crate::pass::{embedding_of, in_step, law_later_tokens_change_nothing, runnable, Pass};
use crate::prompt::prompt_text;
use crate::retrieval::{is_ranked, is_ranking, rank, scored, Scored};
use crate::run::{lane_mean, pass_of};
use crate::state::{is_sized, state_fits, V2State};
use crate::trace::{is_layer_trace, is_trace, Trace};
use crate::v2_engine::V2Engine;
use vstd::prelude::*;

verus! {

/// The cells of a position: its embedding, and the mean of the lanes after every
/// layer.
pub open spec fn cells_at(p: Pass, pos: int) -> Seq<Seq<u32>> {
    Seq::new(
        (p.m.cfg.num_layers + 1) as nat,
        |l: int|
            if l == 0 {
                embedding_of(p.n, p.m, p.tokens[pos])
            } else {
                p.pooled(p.lanes(l, pos))
            },
    )
}

/// The cells of the first `k` positions, without those that hold the padding
/// token.
pub open spec fn cells_of(p: Pass, pad: u32, k: int) -> Seq<Seq<u32>>
    decreases k,
{
    if k <= 0 {
        Seq::empty()
    } else if p.tokens[k - 1] == pad {
        cells_of(p, pad, k - 1)
    } else {
        cells_of(p, pad, k - 1) + cells_at(p, k - 1)
    }
}

/// The cells of a longest sequence can be counted.
pub open spec fn cells_fit(c: V2Config) -> bool {
    c.max_seq_len * (c.num_layers + 1) <= usize::MAX
}

proof fn lemma_sums_agree(a: Pass, b: Pass, lanes: Seq<u32>, k: int, c: int)
    requires
        a.n == b.n,
        a.m == b.m,
    ensures
        a.lane_sum(lanes, k, c) == b.lane_sum(lanes, k, c),
    decreases k,
{
    if k > 0 {
        lemma_sums_agree(a, b, lanes, k - 1, c);
    }
}

proof fn lemma_cells_causal(a: Pass, b: Pass, pad: u32, k: int)
    requires
        a.n == b.n,
        a.o == b.o,
        a.m == b.m,
        a.window == b.window,
        0 <= k <= a.tokens.len(),
        k <= b.tokens.len(),
        forall|q: int| 0 <= q < k ==> #[trigger] a.tokens[q] == b.tokens[q],
    ensures
        cells_of(a, pad, k) == cells_of(b, pad, k),
    decreases k,
{
    if k > 0 {
        lemma_cells_causal(a, b, pad, k - 1);
        assert(a.tokens[k - 1] == b.tokens[k - 1]);
        let x = cells_at(a, k - 1);
        let y = cells_at(b, k - 1);
        assert forall|l: int| 0 <= l <= a.m.cfg.num_layers implies x[l] == y[l] by {
            law_later_tokens_change_nothing(a, b, l, k - 1);
            assert forall|c: int, t: int| a.lane_sum(a.lanes(l, k - 1), t, c) == #[trigger] b.lane_sum(
                b.lanes(l, k - 1),
                t,
                c,
            ) by {
                lemma_sums_agree(a, b, a.lanes(l, k - 1), t, c);
            }
            assert(a.pooled(a.lanes(l, k - 1)) =~= b.pooled(b.lanes(l, k - 1)));
        }
        assert(x =~= y);
    }
}

/// Every kept position gives as many cells as there are layers, and one more.
pub proof fn law_cells_of_a_text(p: Pass, pad: u32, k: int)
    requires
        0 <= k,
        forall|q: int| 0 <= q < k ==> #[trigger] p.tokens[q] != pad,
    ensures
        cells_of(p, pad, k).len() == k * (p.m.cfg.num_layers + 1),
    decreases k,
{
    if k > 0 {
        law_cells_of_a_text(p, pad, k - 1);
        let w = p.m.cfg.num_layers + 1;
        assert((k - 1) * w + w == k * w) by (nonlinear_arith);
        assert(p.tokens[k - 1] != pad);
    } else {
        assert(0 * (p.m.cfg.num_layers + 1) == 0) by (nonlinear_arith);
    }
}

proof fn lemma_cell_bound(p: Pass, pad: u32, k: int)
    requires
        0 <= k,
    ensures
        cells_of(p, pad, k).len() <= k * (p.m.cfg.num_layers + 1),
    decreases k,
{
    let w = p.m.cfg.num_layers + 1;
    if k > 0 {
        lemma_cell_bound(p, pad, k - 1);
        assert((k - 1) * w + w == k * w) by (nonlinear_arith);
    } else {
        assert(0 * w == 0) by (nonlinear_arith);
    }
}

/// Take the cells of one position into a pool.
fn push_cells<
    U: Fn(Unary, u32) -> u32 + Sync,
    B: Fn(Binary, u32, u32) -> u32 + Sync,
    C: Fn(usize) -> u32 + Sync,
>(
    ar: &Arith<U, B, C>,
    m: &V2Model,
    t: &Trace,
    pool: &mut ProbePool,
    Ghost(p): Ghost<Pass>,
    Ghost(pos): Ghost<int>,
    Ghost(cells): Ghost<Seq<Seq<u32>>>,
)
    requires
        ar.wf(),
        runnable(*m),
        p.n == ar@,
        p.m == *m,
        old(pool).holds(ar@, cells),
        old(pool).d == m.cfg.d_model,
        cells.len() + m.cfg.num_layers + 1 <= usize::MAX,
        is_trace(*t, p, pos),
    ensures
        final(pool).holds(ar@, cells + cells_at(p, pos)),
        final(pool).probes == old(pool).probes,
        final(pool).num_probes == old(pool).num_probes,
        final(pool).d == old(pool).d,
{
    let count: usize = t.layers.len();
    let ghost all = cells_at(p, pos);
    assert(t.embed@ =~= all[0]);
    pool.push(ar, t.embed.as_slice());
    proof {
        assert(cells.push(all[0]) =~= cells + all.take(1));
    }
    let mut l: usize = 0;
    while l < count
        invariant
            l <= count,
            count == m.cfg.num_layers,
            ar.wf(),
            runnable(*m),
            p.n == ar@,
            p.m == *m,
            all == cells_at(p, pos),
            is_trace(*t, p, pos),
            cells.len() + m.cfg.num_layers + 1 <= usize::MAX,
            pool.holds(ar@, cells + all.take(l + 1)),
            pool.probes == old(pool).probes,
            pool.num_probes == old(pool).num_probes,
            pool.d == old(pool).d,
            pool.d == m.cfg.d_model,
        decreases count - l,
    {
        assert(is_layer_trace(t.layers@[l as int], p, l as int, pos));
        let mean = lane_mean(ar, m, &t.layers[l].x, Ghost(p));
        assert(mean@ == all[l + 1]);
        pool.push(ar, mean.as_slice());
        proof {
            assert((cells + all.take(l + 1)).push(all[l + 1]) =~= cells + all.take(l + 2));
        }
        l = l + 1;
    }
    assert(all.take(count + 1) =~= all);
}

proof fn lemma_head_position(heads: Seq<ProbeHead>, code: u8, k: int)
    requires
        0 <= k,
    ensures
        head_position(heads, code, k) is Some ==> k <= head_position(heads, code, k)->0
            < heads.len(),
    decreases heads.len() - k,
{
    if k < heads.len() && heads[k].code != code {
        lemma_head_position(heads, code, k + 1);
    }
}

impl V2Engine {
    /// The ids of a text for the heads.
    pub open spec fn text_ids(&self, text: Seq<char>) -> Seq<u32> {
        clipped(
            opened_ids(self.bundle.tokenizer->0@, text),
            self.bundle.model.cfg.max_seq_len as int,
        )
    }

    /// A pass over a text with the whole sequence in view.
    pub open spec fn text_pass(&self, n: Num<u32>, o: VectorOps, window: int, text: Seq<char>) -> Pass {
        let m = self.bundle.model;
        Pass { n, o, m, window, tokens: fed(no_tokens(m), 0, self.text_ids(text)) }
    }

    /// The cells of a text.
    pub open spec fn text_cells(&self, n: Num<u32>, o: VectorOps, text: Seq<char>) -> Seq<Seq<u32>> {
        cells_of(
            self.text_pass(n, o, 0, text),
            self.bundle.tokenizer->0@.pad_id,
            self.text_ids(text).len() as int,
        )
    }

    /// What the head with a code makes of a text, with a state of `cache_len`
    /// positions. Nothing comes out without the head or the tokenizer, with a
    /// state that cannot hold the whole sequence, where a token is outside the
    /// vocabulary, and where no cell is left.
    pub open spec fn head_output(
        &self,
        n: Num<u32>,
        o: VectorOps,
        code: u8,
        text: Seq<char>,
        cache_len: int,
    ) -> Option<Seq<u32>> {
        let m = self.bundle.model;
        match head_position(self.bundle.heads@, code, 0) {
            None => None,
            Some(k) => {
                let h = self.bundle.heads@[k];
                let probes = h.num_probes as int;
                let d = h.d_model as int;
                if self.bundle.tokenizer is None {
                    None
                } else if self.text_ids(text).len() == 0 {
                    None
                } else if pool_fault(h.probes@.len() as int, probes, d) is Some {
                    None
                } else if m.cfg.max_seq_len > cache_len {
                    None
                } else if has_stray_token(self.text_ids(text), m.cfg.vocab_size as int) {
                    None
                } else if self.text_cells(n, o, text).len() == 0 {
                    None
                } else {
                    let pooled = pooled_of(n, h.probes@, d, self.text_cells(n, o, text), probes);
                    if code == HEAD_CONTRASTIVE {
                        Some(h.projected_unit(n, pooled))
                    } else {
                        Some(h.projected(n, pooled))
                    }
                }
            },
        }
    }

    /// The head with a code is there and its pool can be made, and the text has
    /// tokens: the state is put to use.
    pub open spec fn head_starts(&self, code: u8, text: Seq<char>) -> bool {
        match head_position(self.bundle.heads@, code, 0) {
            None => false,
            Some(k) => {
                let h = self.bundle.heads@[k];
                &&& self.bundle.tokenizer is Some
                &&& self.text_ids(text).len() > 0
                &&& pool_fault(h.probes@.len() as int, h.num_probes as int, h.d_model as int)
                    is None
            },
        }
    }

    /// What running a head leaves of a state: nothing is touched where the head
    /// does not start; a state that is too short is blank; any other attends to
    /// everything and holds the text, up to a token outside the vocabulary.
    pub open spec fn left_by_head(
        &self,
        before: V2State<u32>,
        after: V2State<u32>,
        code: u8,
        text: Seq<char>,
    ) -> bool {
        let m = self.bundle.model;
        let ids = self.text_ids(text);
        if !self.head_starts(code, text) {
            after == before
        } else if m.cfg.max_seq_len > before.cache_len {
            after.kv_window == before.kv_window && holds_tokens(after, m, Seq::empty())
        } else {
            after.kv_window == 0 && holds_tokens(
                after,
                m,
                ids.take(first_stray(ids, m.cfg.vocab_size as int, 0)),
            )
        }
    }

    /// Feed a text to a blank state and take its cells into a pool. Whether every
    /// token was admitted.
    fn pool_text<
        U: Fn(Unary, u32) -> u32 + Sync,
        B: Fn(Binary, u32, u32) -> u32 + Sync,
        C: Fn(usize) -> u32 + Sync,
        N: Fn(&[u32], &[u32]) -> Vec<u32>,
        S: Fn(&[u32]) -> Vec<u32>,
        R: Fn(&[u32], usize, usize) -> Vec<u32>,
    >(
        &self,
        ar: &Arith<U, B, C>,
        bl: &Blocks<N, S, R>,
        ids: &Vec<u32>,
        pad: u32,
        pool: &mut ProbePool,
        state: &mut V2State<u32>,
    ) -> (ok: bool)
        requires
            ar.wf(),
            bl.wf(),
            runnable(self.bundle.model),
            cells_fit(self.bundle.model.cfg),
            ids@.len() <= self.bundle.model.cfg.max_seq_len,
            old(state).pos == 0,
            in_step(
                *old(state),
                pass_of(ar@, bl@, self.bundle.model, *old(state)),
                0,
            ),
            old(pool).holds(ar@, Seq::empty()),
            old(pool).d == self.bundle.model.cfg.d_model,
        ensures
            in_step(
                *final(state),
                pass_of(ar@, bl@, self.bundle.model, *final(state)),
                final(state).pos as int,
            ),
            final(state).kv_window == old(state).kv_window,
            final(state).cache_len == old(state).cache_len,
            ok == !has_stray_token(ids@, self.bundle.model.cfg.vocab_size as int),
            ({
                let k = first_stray(ids@, self.bundle.model.cfg.vocab_size as int, 0);
                &&& final(state).pos == k
                &&& k <= ids@.len()
                &&& final(state).history@ == fed(old(state).history@, 0, ids@.take(k))
            }),
            final(pool).probes == old(pool).probes,
            final(pool).num_probes == old(pool).num_probes,
            final(pool).d == old(pool).d,
            ok ==> {
                let p = pass_of(ar@, bl@, self.bundle.model, *final(state));
                &&& p.tokens == fed(old(state).history@, 0, ids@)
                &&& final(pool).holds(ar@, cells_of(p, pad, ids@.len() as int))
            },
    {
        let m = &self.bundle.model;
        let n: usize = ids.len();
        let ghost s0 = *state;
        let ghost whole = fed(s0.history@, 0, ids@);
        let mut i: usize = 0;
        assert(fed(s0.history@, 0, ids@.take(0)) =~= s0.history@);
        while i < n
            invariant
                i <= n,
                n == ids@.len(),
                n <= m.cfg.max_seq_len,
                ar.wf(),
                bl.wf(),
                runnable(*m),
                *m == self.bundle.model,
                cells_fit(m.cfg),
                s0 == *old(state),
                s0.history@.len() == m.cfg.max_seq_len,
                in_step(*state, pass_of(ar@, bl@, *m, *state), state.pos as int),
                state.pos == i,
                state.history@ == fed(s0.history@, 0, ids@.take(i as int)),
                state.kv_window == s0.kv_window,
                state.cache_len == s0.cache_len,
                forall|j: int| 0 <= j < i ==> #[trigger] ids@[j] < m.cfg.vocab_size,
                pool.holds(ar@, cells_of(pass_of(ar@, bl@, *m, *state), pad, i as int)),
                pool.d == m.cfg.d_model,
                pool.d == old(pool).d,
                pool.probes == old(pool).probes,
                pool.num_probes == old(pool).num_probes,
            decreases n - i,
        {
            let ghost p0 = pass_of(ar@, bl@, *m, *state);
            let t: u32 = ids[i];
            match m.forward(ar, bl, t, state, None) {
                Err(_) => {
                    assert(ids@[i as int] >= m.cfg.vocab_size);
                    proof {
                        lemma_first_stray(ids@, m.cfg.vocab_size as int, 0, i as int);
                    }
                    return false;
                },
                Ok(trace) => {
                    let ghost p1 = pass_of(ar@, bl@, *m, *state);
                    proof {
                        lemma_fed_next(s0.history@, ids@, i as int);
                        assert(p1.tokens[i as int] == t);
                        lemma_cells_causal(p0, p1, pad, i as int);
                        lemma_cell_bound(p1, pad, i as int);
                        let w = m.cfg.num_layers + 1;
                        assert(i * w + w <= m.cfg.max_seq_len * w) by (nonlinear_arith)
                            requires
                                i + 1 <= m.cfg.max_seq_len,
                                w >= 0,
                        ;
                    }
                    if t != pad {
                        push_cells(
                            ar,
                            m,
                            &trace,
                            pool,
                            Ghost(p1),
                            Ghost(i as int),
                            Ghost(cells_of(p1, pad, i as int)),
                        );
                    }
                },
            }
            i = i + 1;
        }
        proof {
            assert(ids@.take(n as int) =~= ids@);
            lemma_first_stray(ids@, m.cfg.vocab_size as int, 0, n as int);
        }
        true
    }

    /// Run the head with a code over a text, with a state that is reset first.
    pub fn run_head_with_state<
        U: Fn(Unary, u32) -> u32 + Sync,
        B: Fn(Binary, u32, u32) -> u32 + Sync,
        C: Fn(usize) -> u32 + Sync,
        N: Fn(&[u32], &[u32]) -> Vec<u32>,
        S: Fn(&[u32]) -> Vec<u32>,
        R: Fn(&[u32], usize, usize) -> Vec<u32>,
    >(
        &self,
        ar: &Arith<U, B, C>,
        bl: &Blocks<N, S, R>,
        code: u8,
        text: &str,
        state: &mut V2State<u32>,
    ) -> (r: Option<Vec<u32>>)
        requires
            ar.wf(),
            bl.wf(),
            self.wf(),
            self.bundle.tokenizer is Some ==> self.can_encode(),
            runnable(self.bundle.model),
            cells_fit(self.bundle.model.cfg),
            old(state).wf(),
            is_sized(*old(state), self.bundle.model.cfg, old(state).cache_len as int),
        ensures
            final(state).wf(),
            is_sized(*final(state), self.bundle.model.cfg, final(state).cache_len as int),
            final(state).cache_len == old(state).cache_len,
            self.left_by_head(*old(state), *final(state), code, text@),
            match self.head_output(ar@, bl@, code, text@, old(state).cache_len as int) {
                Some(v) => r is Some && r->0@ == v,
                None => r is None,
            },
    {
        let m = &self.bundle.model;
        let head: &ProbeHead = match self.bundle.head(code) {
            Some(h) => h,
            None => return None,
        };
        proof {
            lemma_head_position(self.bundle.heads@, code, 0);
        }
        let ids = match self.encode_with_bos(text) {
            Some(ids) => ids,
            None => return None,
        };
        if ids.len() == 0 {
            return None;
        }
        let pad: u32 = self.bundle.tokenizer.as_ref().unwrap().pad_id;
        let mut pool = match head.pool() {
            Ok(p) => p,
            Err(_) => return None,
        };
        state.reset();
        proof {
            assert(state.history@ =~= no_tokens(*m));
            assert(fed(no_tokens(*m), 0, Seq::<u32>::empty()) =~= no_tokens(*m));
        }
        match state.set_kv_window(Some(0), &m.cfg) {
            Ok(_) => {},
            Err(_) => return None,
        }
        proof {
            law_a_blank_state_is_in_step(*state, ar@, bl@, *m);
            assert(state.history@ =~= no_tokens(*m));
            assert(pool.holds(ar@, Seq::empty()));
        }
        if !self.pool_text(ar, bl, &ids, pad, &mut pool, state) {
            return None;
        }
        proof {
            let p = pass_of(ar@, bl@, *m, *state);
            assert(p == self.text_pass(ar@, bl@, 0, text@));
        }
        let pooled = match pool.pooled(ar) {
            Ok(v) => v,
            Err(_) => return None,
        };
        if code == HEAD_CONTRASTIVE {
            Some(head.project_normalized(ar, pooled.as_slice()))
        } else {
            Some(head.project(ar, pooled.as_slice()))
        }
    }

    /// Run the head with a code over a text.
    pub fn run_head<
        U: Fn(Unary, u32) -> u32 + Sync,
        B: Fn(Binary, u32, u32) -> u32 + Sync,
        C: Fn(usize) -> u32 + Sync,
        N: Fn(&[u32], &[u32]) -> Vec<u32>,
        S: Fn(&[u32]) -> Vec<u32>,
        R: Fn(&[u32], usize, usize) -> Vec<u32>,
    >(
        &self,
        ar: &Arith<U, B, C>,
        bl: &Blocks<N, S, R>,
        code: u8,
        text: &str,
    ) -> (r: Option<Vec<u32>>)
        requires
            ar.wf(),
            bl.wf(),
            self.wf(),
            self.bundle.tokenizer is Some ==> self.can_encode(),
            runnable(self.bundle.model),
            cells_fit(self.bundle.model.cfg),
            state_fits(self.bundle.model.cfg, self.bundle.model.cfg.max_seq_len as int),
        ensures
            match self.whole_output(ar@, bl@, code, text@) {
                Some(v) => r is Some && r->0@ == v,
                None => r is None,
            },
    {
        match self.new_head_state(0u32) {
            Some(mut state) => self.run_head_with_state(ar, bl, code, text, &mut state),
            None => None,
        }
    }

    /// What the head with a code makes of a text, with a state that holds the
    /// whole sequence.
    pub open spec fn whole_output(
        &self,
        n: Num<u32>,
        o: VectorOps,
        code: u8,
        text: Seq<char>,
    ) -> Option<Seq<u32>> {
        self.head_output(n, o, code, text, self.bundle.model.cfg.max_seq_len as int)
    }

    /// The contrastive embedding of a text, with unit length.
    pub fn encode_contrastive<
        U: Fn(Unary, u32) -> u32 + Sync,
        B: Fn(Binary, u32, u32) -> u32 + Sync,
        C: Fn(usize) -> u32 + Sync,
        N: Fn(&[u32], &[u32]) -> Vec<u32>,
        S: Fn(&[u32]) -> Vec<u32>,
        R: Fn(&[u32], usize, usize) -> Vec<u32>,
    >(
        &self,
        ar: &Arith<U, B, C>,
        bl: &Blocks<N, S, R>,
        text: &str,
    ) -> (r: Option<Vec<u32>>)
        requires
            ar.wf(),
            bl.wf(),
            self.wf(),
            self.bundle.tokenizer is Some ==> self.can_encode(),
            runnable(self.bundle.model),
            cells_fit(self.bundle.model.cfg),
            state_fits(self.bundle.model.cfg, self.bundle.model.cfg.max_seq_len as int),
        ensures
            match self.whole_output(ar@, bl@, HEAD_CONTRASTIVE, text@) {
                Some(v) => r is Some && r->0@ == v,
                None => r is None,
            },
    {
        self.run_head(ar, bl, HEAD_CONTRASTIVE, text)
    }

    /// The same with a state of the caller's, which is reset first.
    pub fn encode_contrastive_with_state<
        U: Fn(Unary, u32) -> u32 + Sync,
        B: Fn(Binary, u32, u32) -> u32 + Sync,
        C: Fn(usize) -> u32 + Sync,
        N: Fn(&[u32], &[u32]) -> Vec<u32>,
        S: Fn(&[u32]) -> Vec<u32>,
        R: Fn(&[u32], usize, usize) -> Vec<u32>,
    >(
        &self,
        ar: &Arith<U, B, C>,
        bl: &Blocks<N, S, R>,
        text: &str,
        state: &mut V2State<u32>,
    ) -> (r: Option<Vec<u32>>)
        requires
            ar.wf(),
            bl.wf(),
            self.wf(),
            self.bundle.tokenizer is Some ==> self.can_encode(),
            runnable(self.bundle.model),
            cells_fit(self.bundle.model.cfg),
            old(state).wf(),
            is_sized(*old(state), self.bundle.model.cfg, old(state).cache_len as int),
        ensures
            final(state).wf(),
            is_sized(*final(state), self.bundle.model.cfg, final(state).cache_len as int),
            final(state).cache_len == old(state).cache_len,
            self.left_by_head(*old(state), *final(state), HEAD_CONTRASTIVE, text@),
            match self.head_output(
                ar@,
                bl@,
                HEAD_CONTRASTIVE,
                text@,
                old(state).cache_len as int,
            ) {
                Some(v) => r is Some && r->0@ == v,
                None => r is None,
            },
    {
        self.run_head_with_state(ar, bl, HEAD_CONTRASTIVE, text, state)
    }

    /// The confidence head has an output.
    pub open spec fn judges(&self) -> bool {
        match head_position(self.bundle.heads@, HEAD_CONFIDENCE, 0) {
            Some(k) => self.bundle.heads@[k].out_dim > 0,
            None => true,
        }
    }

    /// Whether the confidence head, where there is one, has an output.
    pub fn can_judge(&self) -> (r: bool)
        ensures
            r == self.judges(),
    {
        match self.bundle.head(HEAD_CONFIDENCE) {
            Some(h) => h.out_dim > 0,
            None => true,
        }
    }

    /// The raw confidence of a text, with a state of the caller's, which is reset
    /// first.
    pub fn confidence_with_state<
        U: Fn(Unary, u32) -> u32 + Sync,
        B: Fn(Binary, u32, u32) -> u32 + Sync,
        C: Fn(usize) -> u32 + Sync,
        N: Fn(&[u32], &[u32]) -> Vec<u32>,
        S: Fn(&[u32]) -> Vec<u32>,
        R: Fn(&[u32], usize, usize) -> Vec<u32>,
    >(
        &self,
        ar: &Arith<U, B, C>,
        bl: &Blocks<N, S, R>,
        text: &str,
        state: &mut V2State<u32>,
    ) -> (r: Option<u32>)
        requires
            ar.wf(),
            bl.wf(),
            self.wf(),
            self.bundle.tokenizer is Some ==> self.can_encode(),
            runnable(self.bundle.model),
            cells_fit(self.bundle.model.cfg),
            self.judges(),
            old(state).wf(),
            is_sized(*old(state), self.bundle.model.cfg, old(state).cache_len as int),
        ensures
            final(state).wf(),
            is_sized(*final(state), self.bundle.model.cfg, final(state).cache_len as int),
            final(state).cache_len == old(state).cache_len,
            self.left_by_head(*old(state), *final(state), HEAD_CONFIDENCE, text@),
            r == match self.head_output(
                ar@,
                bl@,
                HEAD_CONFIDENCE,
                text@,
                old(state).cache_len as int,
            ) {
                Some(v) => Some(v[0]),
                None => None,
            },
    {
        match self.run_head_with_state(ar, bl, HEAD_CONFIDENCE, text, state) {
            Some(v) => Some(v[0]),
            None => None,
        }
    }

    /// The raw confidence of a text: higher is more confident.
    pub fn confidence<
        U: Fn(Unary, u32) -> u32 + Sync,
        B: Fn(Binary, u32, u32) -> u32 + Sync,
        C: Fn(usize) -> u32 + Sync,
        N: Fn(&[u32], &[u32]) -> Vec<u32>,
        S: Fn(&[u32]) -> Vec<u32>,
        R: Fn(&[u32], usize, usize) -> Vec<u32>,
    >(
        &self,
        ar: &Arith<U, B, C>,
        bl: &Blocks<N, S, R>,
        text: &str,
    ) -> (r: Option<u32>)
        requires
            ar.wf(),
            bl.wf(),
            self.wf(),
            self.bundle.tokenizer is Some ==> self.can_encode(),
            runnable(self.bundle.model),
            cells_fit(self.bundle.model.cfg),
            self.judges(),
            state_fits(self.bundle.model.cfg, self.bundle.model.cfg.max_seq_len as int),
        ensures
            r == self.raw_confidence(ar@, bl@, text@),
    {
        match self.new_head_state(0u32) {
            Some(mut state) => self.confidence_with_state(ar, bl, text, &mut state),
            None => None,
        }
    }

    /// The first output of the confidence head over a text.
    pub open spec fn raw_confidence(&self, n: Num<u32>, o: VectorOps, text: Seq<char>) -> Option<u32> {
        match self.whole_output(n, o, HEAD_CONFIDENCE, text) {
            Some(v) => Some(v[0]),
            None => None,
        }
    }

    /// The confidence of a text as a probability.
    pub fn confidence_probability<
        U: Fn(Unary, u32) -> u32 + Sync,
        B: Fn(Binary, u32, u32) -> u32 + Sync,
        C: Fn(usize) -> u32 + Sync,
        N: Fn(&[u32], &[u32]) -> Vec<u32>,
        S: Fn(&[u32]) -> Vec<u32>,
        R: Fn(&[u32], usize, usize) -> Vec<u32>,
    >(
        &self,
        ar: &Arith<U, B, C>,
        bl: &Blocks<N, S, R>,
        text: &str,
    ) -> (r: Option<u32>)
        requires
            ar.wf(),
            bl.wf(),
            self.wf(),
            self.bundle.tokenizer is Some ==> self.can_encode(),
            runnable(self.bundle.model),
            cells_fit(self.bundle.model.cfg),
            self.judges(),
            state_fits(self.bundle.model.cfg, self.bundle.model.cfg.max_seq_len as int),
        ensures
            r == match self.raw_confidence(ar@, bl@, text@) {
                Some(z) => Some(logistic(ar@, z)),
                None => None,
            },
    {
        match self.confidence(ar, bl, text) {
            Some(z) => Some(ar.div(ONE, ar.add(ONE, ar.exp(ar.sub(0, z))))),
            None => None,
        }
    }

    /// How likely a completion is right for a query: the confidence head over the
    /// prompt followed by the completion, as a probability.
    pub fn confidence_for<
        U: Fn(Unary, u32) -> u32 + Sync,
        B: Fn(Binary, u32, u32) -> u32 + Sync,
        C: Fn(usize) -> u32 + Sync,
        N: Fn(&[u32], &[u32]) -> Vec<u32>,
        S: Fn(&[u32]) -> Vec<u32>,
        R: Fn(&[u32], usize, usize) -> Vec<u32>,
    >(
        &self,
        ar: &Arith<U, B, C>,
        bl: &Blocks<N, S, R>,
        query: &str,
        tools_json: &str,
        completion: &str,
    ) -> (r: Option<u32>)
        requires
            ar.wf(),
            bl.wf(),
            self.wf(),
            self.bundle.tokenizer is Some ==> self.can_encode(),
            runnable(self.bundle.model),
            cells_fit(self.bundle.model.cfg),
            self.judges(),
            state_fits(self.bundle.model.cfg, self.bundle.model.cfg.max_seq_len as int),
        ensures
            r == match self.raw_confidence(
                ar@,
                bl@,
                prompt_text(query@, tools_json@, None) + completion@,
            ) {
                Some(z) => Some(logistic(ar@, z)),
                None => None,
            },
    {
        let text = V2Engine::judged_text(query, tools_json, completion);
        self.confidence_probability(ar, bl, text.as_str())
    }

    /// The score of a description for a query: the product of their embeddings,
    /// where both have one.
    pub open spec fn similarity(
        &self,
        n: Num<u32>,
        o: VectorOps,
        query: Seq<char>,
        description: Seq<char>,
    ) -> Option<u32> {
        match (
            self.whole_output(n, o, HEAD_CONTRASTIVE, query),
            self.whole_output(n, o, HEAD_CONTRASTIVE, description),
        ) {
            (Some(q), Some(d)) => Some(dot_in_order(n, q, d)),
            _ => None,
        }
    }

    /// Rank descriptions by how close they are to a query, and keep the best
    /// `top_k`. A description without an embedding is left out; nothing is ranked
    /// where the query has none.
    pub fn retrieve_tools<
        U: Fn(Unary, u32) -> u32 + Sync,
        B: Fn(Binary, u32, u32) -> u32 + Sync,
        C: Fn(usize) -> u32 + Sync,
        N: Fn(&[u32], &[u32]) -> Vec<u32>,
        S: Fn(&[u32]) -> Vec<u32>,
        R: Fn(&[u32], usize, usize) -> Vec<u32>,
    >(
        &self,
        ar: &Arith<U, B, C>,
        bl: &Blocks<N, S, R>,
        query: &str,
        tool_descriptions: &[&str],
        top_k: usize,
    ) -> (r: Vec<Scored>)
        requires
            ar.wf(),
            bl.wf(),
            self.wf(),
            self.bundle.tokenizer is Some ==> self.can_encode(),
            runnable(self.bundle.model),
            cells_fit(self.bundle.model.cfg),
            state_fits(self.bundle.model.cfg, self.bundle.model.cfg.max_seq_len as int),
        ensures
            is_ranking(
                r@,
                Seq::new(
                    tool_descriptions@.len(),
                    |i: int| self.similarity(ar@, bl@, query@, tool_descriptions@[i]@),
                ),
                top_k as int,
            ),
    {
        let ghost want = Seq::new(
            tool_descriptions@.len(),
            |i: int| self.similarity(ar@, bl@, query@, tool_descriptions@[i]@),
        );
        let n: usize = tool_descriptions.len();
        let mut scores: Vec<Option<u32>> = Vec::new();
        match self.new_head_state(0u32) {
            None => {},
            Some(mut state) => {
                match self.encode_contrastive_with_state(ar, bl, query, &mut state) {
                    None => {},
                    Some(q) => {
                        let mut i: usize = 0;
                        while i < n
                            invariant
                                i <= n,
                                n == tool_descriptions@.len(),
                                ar.wf(),
                                bl.wf(),
                                self.wf(),
                                self.bundle.tokenizer is Some ==> self.can_encode(),
                                runnable(self.bundle.model),
                                cells_fit(self.bundle.model.cfg),
                                state.wf(),
                                is_sized(
                                    state,
                                    self.bundle.model.cfg,
                                    self.bundle.model.cfg.max_seq_len as int,
                                ),
                                self.whole_output(ar@, bl@, HEAD_CONTRASTIVE, query@) == Some(q@),
                                want.len() == n,
                                forall|j: int|
                                    0 <= j < n ==> #[trigger] want[j] == self.similarity(
                                        ar@,
                                        bl@,
                                        query@,
                                        tool_descriptions@[j]@,
                                    ),
                                scores@.len() == i,
                                forall|j: int| 0 <= j < i ==> #[trigger] scores@[j] == want[j],
                            decreases n - i,
                        {
                            let e = self.encode_contrastive_with_state(
                                ar,
                                bl,
                                tool_descriptions[i],
                                &mut state,
                            );
                            match e {
                                Some(e) => {
                                    scores.push(
                                        Some(group_dot_serial(ar, q.as_slice(), e.as_slice())),
                                    );
                                },
                                None => {
                                    scores.push(None);
                                },
                            }
                            i = i + 1;
                        }
                        assert(scores@ =~= want);
                        return rank(scores.as_slice(), top_k);
                    },
                }
            },
        }
        proof {
            assert(self.whole_output(ar@, bl@, HEAD_CONTRASTIVE, query@) is None);
            assert forall|i: int| 0 <= i < want.len() implies #[trigger] want[i] is None by {
                assert(want[i] == self.similarity(ar@, bl@, query@, tool_descriptions@[i]@));
            }
            lemma_nothing_ranked(want, want.len() as int);
            assert(is_ranked(Seq::<Scored>::empty()));
        }
        Vec::new()
    }

    /// The hidden state after a text, before the scores are drawn from it. None
    /// without a tokenizer, and where a token is outside the vocabulary.
    pub fn last_hidden<
        U: Fn(Unary, u32) -> u32 + Sync,
        B: Fn(Binary, u32, u32) -> u32 + Sync,
        C: Fn(usize) -> u32 + Sync,
        N: Fn(&[u32], &[u32]) -> Vec<u32>,
        S: Fn(&[u32]) -> Vec<u32>,
        R: Fn(&[u32], usize, usize) -> Vec<u32>,
    >(
        &self,
        ar: &Arith<U, B, C>,
        bl: &Blocks<N, S, R>,
        text: &str,
    ) -> (r: Option<Vec<u32>>)
        requires
            ar.wf(),
            bl.wf(),
            self.wf(),
            self.bundle.tokenizer is Some ==> self.can_encode(),
            runnable(self.bundle.model),
            state_fits(self.bundle.model.cfg, ring_width(self.bundle.model.cfg)),
        ensures
            match self.bundle.tokenizer {
                Some(_) => if has_stray_token(
                    self.text_ids(text@),
                    self.bundle.model.cfg.vocab_size as int,
                ) {
                    r is None
                } else {
                    r is Some && r->0@ == self.text_pass(
                        ar@,
                        bl@,
                        self.bundle.model.cfg.kv_window as int,
                        text@,
                    ).hidden(self.text_ids(text@).len() - 1)
                },
                None => r is None,
            },
    {
        let m = &self.bundle.model;
        let ids = match self.encode_with_bos(text) {
            Some(ids) => ids,
            None => return None,
        };
        let mut state = self.new_state(0u32);
        proof {
            law_a_blank_state_is_in_step(state, ar@, bl@, *m);
            assert(state.history@ =~= no_tokens(*m));
        }
        match feed_hidden(ar, bl, m, &ids, &mut state) {
            Ok(hidden) => Some(hidden),
            Err(_) => None,
        }
    }
}

/// Feed tokens to a blank state, and give the hidden state after the last.
fn feed_hidden<
    U: Fn(Unary, u32) -> u32 + Sync,
    B: Fn(Binary, u32, u32) -> u32 + Sync,
    C: Fn(usize) -> u32 + Sync,
    N: Fn(&[u32], &[u32]) -> Vec<u32>,
    S: Fn(&[u32]) -> Vec<u32>,
    R: Fn(&[u32], usize, usize) -> Vec<u32>,
>(
    ar: &Arith<U, B, C>,
    bl: &Blocks<N, S, R>,
    m: &V2Model,
    ids: &Vec<u32>,
    state: &mut V2State<u32>,
) -> (r: Result<Vec<u32>, &'static str>)
    requires
        ar.wf(),
        bl.wf(),
        runnable(*m),
        0 < ids@.len() <= m.cfg.max_seq_len,
        old(state).pos == 0,
        in_step(*old(state), pass_of(ar@, bl@, *m, *old(state)), 0),
    ensures
        final(state).kv_window == old(state).kv_window,
        r is Err <==> has_stray_token(ids@, m.cfg.vocab_size as int),
        r is Ok ==> final(state).history@ == fed(old(state).history@, 0, ids@),
        r is Ok ==> r->Ok_0@ == pass_of(ar@, bl@, *m, *final(state)).hidden(ids@.len() - 1),
{
    let n: usize = ids.len();
    let ghost s0 = *state;
    let mut i: usize = 0;
    assert(fed(s0.history@, 0, ids@.take(0)) =~= s0.history@);
    while i + 1 < n
        invariant
            i < n,
            n == ids@.len(),
            n <= m.cfg.max_seq_len,
            ar.wf(),
            bl.wf(),
            runnable(*m),
            s0 == *old(state),
            s0.history@.len() == m.cfg.max_seq_len,
            in_step(*state, pass_of(ar@, bl@, *m, *state), state.pos as int),
            state.pos == i,
            state.history@ == fed(s0.history@, 0, ids@.take(i as int)),
            state.kv_window == s0.kv_window,
            forall|j: int| 0 <= j < i ==> #[trigger] ids@[j] < m.cfg.vocab_size,
        decreases n - i,
    {
        match m.step_prefill(ar, bl, ids[i], state) {
            Ok(_) => {},
            Err(e) => {
                assert(ids@[i as int] >= m.cfg.vocab_size);
                return Err(e);
            },
        }
        proof {
            lemma_fed_next(s0.history@, ids@, i as int);
        }
        i = i + 1;
    }
    match m.step_prefill(ar, bl, ids[i], state) {
        Ok(_) => {
            proof {
                lemma_fed_next(s0.history@, ids@, i as int);
                assert(ids@.take(i + 1) =~= ids@);
            }
            Ok(copy_words(V2Model::last_hidden(state)))
        },
        Err(e) => {
            assert(ids@[i as int] >= m.cfg.vocab_size);
            Err(e)
        },
    }
}

/// A raw score as a probability.
pub open spec fn logistic(n: Num<u32>, z: u32) -> u32 {
    n.over(n.one, n.plus(n.one, n.exponential(n.minus(n.zero, z))))
}

proof fn lemma_nothing_ranked(scores: Seq<Option<u32>>, k: int)
    requires
        0 <= k <= scores.len(),
        forall|i: int| 0 <= i < scores.len() ==> #[trigger] scores[i] is None,
    ensures
        scored(scores, k) == Seq::<Scored>::empty(),
    decreases k,
{
    if k > 0 {
        lemma_nothing_ranked(scores, k - 1);
        assert(scores[k - 1] is None);
    }
}

/// The cell of position `q` at layer `l`: its embedding, and behind it the mean of its
/// lanes after every layer.
pub open spec fn cell_at(p: Pass, q: int, l: int) -> Seq<u32> {
    if l == 0 {
        embedding_of(p.n, p.m, p.tokens[q])
    } else {
        p.pooled(p.lanes(l, q))
    }
}

/// The cell is that of some layer and some position before `k` that does not hold the
/// padding token.
pub open spec fn is_cell_of(p: Pass, pad: u32, k: int, cell: Seq<u32>) -> bool {
    exists|q: int, l: int|
        0 <= q < k && p.tokens[q] != pad && 0 <= l <= p.m.cfg.num_layers && cell
            == #[trigger] cell_at(p, q, l)
}

/// Padding gives no cells: every position that does not hold the padding token gives
/// its embedding and the means of its lanes after every layer, and no other cells are
/// there.
pub proof fn law_every_kept_position_gives_its_cells(p: Pass, pad: u32, k: int)
    requires
        0 <= k,
    ensures
        forall|q: int, l: int|
            0 <= q < k && p.tokens[q] != pad && 0 <= l <= p.m.cfg.num_layers ==> cells_of(
                p,
                pad,
                k,
            ).contains(#[trigger] cell_at(p, q, l)),
        forall|i: int|
            0 <= i < cells_of(p, pad, k).len() ==> is_cell_of(
                p,
                pad,
                k,
                #[trigger] cells_of(p, pad, k)[i],
            ),
    decreases k,
{
    if k > 0 {
        law_every_kept_position_gives_its_cells(p, pad, k - 1);
        let before = cells_of(p, pad, k - 1);
        let all = cells_of(p, pad, k);
        let here = cells_at(p, k - 1);
        assert forall|q: int, l: int|
            0 <= q < k && p.tokens[q] != pad && 0 <= l
                <= p.m.cfg.num_layers implies all.contains(#[trigger] cell_at(p, q, l)) by {
            let cell = cell_at(p, q, l);
            if q < k - 1 {
                assert(before.contains(cell));
                let i = choose|i: int| 0 <= i < before.len() && before[i] == cell;
                assert(all[i] == cell);
            } else {
                assert(here[l] == cell);
                assert(all[before.len() + l] == cell);
            }
        }
        assert forall|i: int| 0 <= i < all.len() implies is_cell_of(
            p,
            pad,
            k,
            #[trigger] all[i],
        ) by {
            if i < before.len() {
                assert(all[i] == before[i]);
                assert(is_cell_of(p, pad, k - 1, before[i]));
            } else {
                let l = i - before.len();
                assert(all[i] == here[l]);
                assert(all[i] == cell_at(p, k - 1, l));
            }
        }
    }
}

/// Two texts are as near to each other from either side: apart from rounding, the score
/// of one for the other does not depend on which of them asks.
pub proof fn law_texts_are_near_from_either_side(
    e: V2Engine,
    n: Num<u32>,
    o: VectorOps,
    a: Seq<char>,
    b: Seq<char>,
)
    requires
        products_commute(n),
    ensures
        e.similarity(n, o, a, b) == e.similarity(n, o, b, a),
        e.similarity(n, o, a, b) is Some ==> e.whole_output(n, o, 1, a) is Some && e.whole_output(
            n,
            o,
            1,
            b,
        ) is Some,
{
    match (e.whole_output(n, o, 1, a), e.whole_output(n, o, 1, b)) {
        (Some(q), Some(d)) => {
            lemma_dot_commutes(n, q, d, q.len() as int);
        },
        _ => {},
    }
}

proof fn lemma_dot_commutes(n: Num<u32>, u: Seq<u32>, x: Seq<u32>, k: int)
    requires
        products_commute(n),
    ensures
        chain(n, n.zero, u, x, 0, k) == chain(n, n.zero, x, u, 0, k),
    decreases k,
{
    if k > 0 {
        lemma_dot_commutes(n, u, x, k - 1);
        reveal(products_commute);
        assert(n.times(u[k - 1], x[k - 1]) == n.times(x[k - 1], u[k - 1]));
    }
}

} // verus!
