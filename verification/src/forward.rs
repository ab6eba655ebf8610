//! Feeding tokens: what is admitted, and how a prompt is cut into chunks.
//!
//! A prompt may be fed token by token or in chunks. Either way the same tokens
//! end up at the same positions, the rings hold the same rows, and every read
//! reaches the row of the position it is meant for.

use crate::config::{EngramGeometry, V2Config};
use crate::model::V2Model;
use crate::state::V2State;
use vstd::arithmetic::div_mod::*;
use vstd::prelude::*;

verus! {

/// Why a token is not admitted at `pos`, if it is not. `logits` is the length
/// of the buffer for the scores, where there is one.
pub open spec fn step_fault(c: V2Config, pos: int, token: u32, logits: Option<usize>) -> Option<
    &'static str,
> {
    if pos >= c.max_seq_len {
        Some("sequence exceeds max_seq_len")
    } else if token >= c.vocab_size {
        Some("token id outside vocabulary")
    } else if logits is Some && logits->0 != c.vocab_size {
        Some("logits buffer is not vocab_size long")
    } else {
        None
    }
}

/// Some token is outside the vocabulary.
pub open spec fn has_stray_token(tokens: Seq<u32>, vocab_size: int) -> bool {
    exists|i: int| 0 <= i < tokens.len() && #[trigger] tokens[i] >= vocab_size
}

/// Why tokens are not admitted from `pos` on, if they are not.
pub open spec fn prefill_fault(
    c: V2Config,
    pos: int,
    tokens: Seq<u32>,
    logits: Option<usize>,
) -> Option<&'static str> {
    if tokens.len() == 0 {
        None
    } else if pos + tokens.len() > c.max_seq_len {
        Some("sequence exceeds max_seq_len")
    } else if has_stray_token(tokens, c.vocab_size as int) {
        Some("token id outside vocabulary")
    } else if logits is Some && logits->0 != c.vocab_size {
        Some("logits buffer is not vocab_size long")
    } else {
        None
    }
}

/// The first site that names a layer.
pub open spec fn is_site_of(e: EngramGeometry, layer: int, site: int) -> bool {
    &&& 0 <= site < e.sites@.len()
    &&& e.sites@[site] == layer
    &&& forall|j: int| 0 <= j < site ==> e.sites@[j] != layer
}

/// The history with `tokens` written from `pos` on.
pub open spec fn fed(history: Seq<u32>, pos: int, tokens: Seq<u32>) -> Seq<u32> {
    Seq::new(
        history.len(),
        |i: int|
            if pos <= i < pos + tokens.len() {
                tokens[i - pos]
            } else {
                history[i]
            },
    )
}

/// One chunk of a prompt: the tokens `start..end`.
#[derive(Debug, Clone, Copy, PartialEq, Eq)]
pub struct Chunk {
    pub start: usize,
    pub end: usize,
    /// Scores are wanted for its last token.
    pub scores: bool,
}

/// How many chunks of at most `cap` tokens `n` tokens make.
pub open spec fn chunk_count(n: int, cap: int) -> int {
    (n + cap - 1) / cap
}

/// `chunks` cuts `n` tokens into runs of `cap`, the last one possibly shorter,
/// and asks for scores at the last one alone.
pub open spec fn is_chunking(chunks: Seq<Chunk>, n: int, cap: int, scores: bool) -> bool {
    &&& chunks.len() == chunk_count(n, cap)
    &&& forall|k: int|
        0 <= k < chunks.len() ==> {
            let c = #[trigger] chunks[k];
            &&& c.start == k * cap
            &&& c.end == if k + 1 == chunks.len() {
                n
            } else {
                (k + 1) * cap
            }
            &&& c.scores == (scores && k + 1 == chunks.len())
        }
}

impl V2Model {
    /// Check and record the next token. Where it is not admitted, the state is
    /// left as it was.
    pub fn begin_step<T: Copy>(&self, token: u32, state: &mut V2State<T>, logits: Option<usize>) -> (r:
        Result<(), &'static str>)
        requires
            old(state).wf(),
            old(state).history@.len() == self.cfg.max_seq_len,
        ensures
            final(state).wf(),
            final(state).k_cache == old(state).k_cache,
            final(state).v_cache == old(state).v_cache,
            final(state).engram_v == old(state).engram_v,
            final(state).same_frame(&(V2State { history: final(state).history, ..*old(state) })),
            match step_fault(self.cfg, old(state).pos as int, token, logits) {
                Some(e) => r is Err && r->Err_0 == e && *final(state) == *old(state),
                None => r is Ok && final(state).history@ == fed(
                    old(state).history@,
                    old(state).pos as int,
                    seq![token],
                ),
            },
    {
        if state.pos >= self.cfg.max_seq_len {
            return Err("sequence exceeds max_seq_len");
        }
        if token as usize >= self.cfg.vocab_size {
            return Err("token id outside vocabulary");
        }
        match logits {
            Some(n) => {
                if n != self.cfg.vocab_size {
                    return Err("logits buffer is not vocab_size long");
                }
            },
            None => {},
        }
        let pos: usize = state.pos;
        let ghost before = state.history@;
        state.set_history(pos, token);
        assert(state.history@ =~= fed(before, pos as int, seq![token]));
        Ok(())
    }

    /// Check a run of tokens and cut it into chunks of at most `cap`, one where
    /// `cap` is zero.
    pub fn plan_prefill(
        &self,
        tokens: &[u32],
        pos: usize,
        cap: usize,
        logits: Option<usize>,
    ) -> (r: Result<Vec<Chunk>, &'static str>)
        ensures
            match prefill_fault(self.cfg, pos as int, tokens@, logits) {
                Some(e) => r is Err && r->Err_0 == e,
                None => r is Ok && is_chunking(
                    r->Ok_0@,
                    tokens@.len() as int,
                    if cap == 0 {
                        1
                    } else {
                        cap as int
                    },
                    logits is Some,
                ),
            },
    {
        let n: usize = tokens.len();
        let cap: usize = if cap == 0 {
            1
        } else {
            cap
        };
        if n == 0 {
            let none: Vec<Chunk> = Vec::new();
            proof {
                lemma_basic_div(cap - 1, cap as int);
            }
            return Ok(none);
        }
        if pos > self.cfg.max_seq_len || n > self.cfg.max_seq_len - pos {
            return Err("sequence exceeds max_seq_len");
        }
        if self.any_stray(tokens) {
            return Err("token id outside vocabulary");
        }
        match logits {
            Some(len) => {
                if len != self.cfg.vocab_size {
                    return Err("logits buffer is not vocab_size long");
                }
            },
            None => {},
        }
        let scores: bool = logits.is_some();
        Ok(cut(n, cap, scores))
    }

    fn any_stray(&self, tokens: &[u32]) -> (r: bool)
        ensures
            r == has_stray_token(tokens@, self.cfg.vocab_size as int),
    {
        let mut i: usize = 0;
        while i < tokens.len()
            invariant
                i <= tokens@.len(),
                forall|j: int| 0 <= j < i ==> #[trigger] tokens@[j] < self.cfg.vocab_size,
            decreases tokens@.len() - i,
        {
            if tokens[i] as usize >= self.cfg.vocab_size {
                assert(tokens@[i as int] >= self.cfg.vocab_size);
                return true;
            }
            i = i + 1;
        }
        false
    }
}

/// Cut `n` tokens into chunks of at most `cap`.
fn cut(n: usize, cap: usize, scores: bool) -> (chunks: Vec<Chunk>)
    requires
        n > 0,
        cap > 0,
    ensures
        is_chunking(chunks@, n as int, cap as int, scores),
{
    let mut chunks: Vec<Chunk> = Vec::new();
    let mut start: usize = 0;
    assert(chunks@.len() * cap == 0) by (nonlinear_arith)
        requires
            chunks@.len() == 0,
    ;
    while n - start > cap
        invariant
            0 < cap,
            start < n,
            start == chunks@.len() * cap,
            forall|k: int|
                0 <= k < chunks@.len() ==> {
                    let c = #[trigger] chunks@[k];
                    &&& c.start == k * cap
                    &&& c.end == (k + 1) * cap
                    &&& !c.scores
                },
        decreases n - start,
    {
        let ghost m = chunks@.len() as int;
        chunks.push(Chunk { start, end: start + cap, scores: false });
        proof {
            assert((m + 1) * cap == m * cap + cap) by (nonlinear_arith);
        }
        start = start + cap;
    }
    let ghost m = chunks@.len() as int;
    chunks.push(Chunk { start, end: n, scores });
    proof {
        let c = cap as int;
        // m * cap < n <= (m + 1) * cap
        let x = n + c - 1;
        assert(x == c * (m + 1) + (n - 1 - start)) by (nonlinear_arith)
            requires
                x == n + c - 1,
                start == m * c,
        ;
        lemma_fundamental_div_mod_converse(x, c, m + 1, n - 1 - start);
    }
    chunks
}

impl<T: Copy> V2State<T> {
    /// Record a chunk of tokens from the current position on, without
    /// advancing.
    pub fn record(&mut self, tokens: &[u32])
        requires
            old(self).wf(),
            old(self).pos + tokens@.len() <= old(self).history@.len(),
        ensures
            final(self).wf(),
            final(self).history@ == fed(old(self).history@, old(self).pos as int, tokens@),
            final(self).k_cache == old(self).k_cache,
            final(self).v_cache == old(self).v_cache,
            final(self).engram_v == old(self).engram_v,
            final(self).same_frame(&(V2State { history: final(self).history, ..*old(self) })),
    {
        let n: usize = tokens.len();
        let total: usize = self.history.len();
        let p0: usize = self.pos;
        let ghost before = *self;
        let mut i: usize = 0;
        assert(self.history@ =~= fed(before.history@, p0 as int, tokens@.take(0)));
        while i < n
            invariant
                i <= n,
                n == tokens@.len(),
                p0 == before.pos,
                p0 + n <= before.history@.len(),
                before.history@.len() == total,
                self.wf(),
                self.history@ == fed(before.history@, p0 as int, tokens@.take(i as int)),
                self.k_cache == before.k_cache,
                self.v_cache == before.v_cache,
                self.engram_v == before.engram_v,
                self.same_frame(&(V2State { history: self.history, ..before })),
            decreases n - i,
        {
            self.set_history(p0 + i, tokens[i]);
            i = i + 1;
            assert(self.history@ =~= fed(before.history@, p0 as int, tokens@.take(i as int)));
        }
        assert(tokens@.take(n as int) =~= tokens@);
    }
}

/// Feeding a run of tokens in two parts leaves the same history as feeding it
/// at once; so it does not matter where a prompt is cut.
pub proof fn law_cutting_a_prompt_keeps_the_history(
    history: Seq<u32>,
    pos: int,
    a: Seq<u32>,
    b: Seq<u32>,
)
    requires
        0 <= pos,
        pos + a.len() + b.len() <= history.len(),
    ensures
        fed(fed(history, pos, a), pos + a.len(), b) == fed(history, pos, a + b),
{
    assert(fed(fed(history, pos, a), pos + a.len(), b) =~= fed(history, pos, a + b));
}

/// The chunks of a prompt hold every token exactly once and in order: each
/// starts where the one before it ends, none is empty or longer than allowed,
/// and the last ends with the prompt.
pub proof fn law_chunks_cover_the_prompt(chunks: Seq<Chunk>, n: int, cap: int, scores: bool, k: int)
    requires
        n > 0,
        cap > 0,
        is_chunking(chunks, n, cap, scores),
        0 <= k < chunks.len(),
    ensures
        chunks[0].start == 0,
        chunks.last().end == n,
        k + 1 < chunks.len() ==> chunks[k].end == chunks[k + 1].start,
        0 < chunks[k].end - chunks[k].start <= cap,
        chunks[k].end <= n,
{
    let x = n + cap - 1;
    let m = chunks.len() as int;
    lemma_fundamental_div_mod(x, cap);
    lemma_mod_bound(x, cap);
    assert(cap * m <= x < cap * m + cap);
    assert((m - 1) * cap == cap * m - cap) by (nonlinear_arith);
    assert((k + 1) * cap == k * cap + cap) by (nonlinear_arith);
    if k + 1 < m {
        assert((k + 1) * cap <= (m - 1) * cap) by (nonlinear_arith)
            requires
                k + 1 <= m - 1,
                cap > 0,
        ;
    } else {
        assert(k * cap == (m - 1) * cap);
    }
    assert(0 * cap == 0);
}

} // verus!
