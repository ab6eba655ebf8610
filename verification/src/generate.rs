//! Generation from prompt to reply: feed the prompt, then choose and feed one
//! token after the other.

use crate::arith::{Arith, Binary, Num, Unary};
use crate::batch::{widths_fit, V2Batch, DEFAULT_CHUNK};
use crate::bits::{f32_greater, f32_nan, NEG_INFINITY};
use crate::blocks::{Blocks, VectorOps};
use crate::constrained::ALLOWED;
use crate::chunked::law_a_blank_state_is_in_step;
use crate::engine::{clipped, is_reply, opened_ids, prompt_room, session_after, session_mask, session_start, turn_of, GenerateOptions, Session, SessionModel, StopReason, Turn, V2Result, DEFAULT_MAX_NEW_TOKENS};
use crate::forward::{fed, has_stray_token, law_cutting_a_prompt_keeps_the_history, step_fault};
use crate::model::{ring_width, V2Model};
use crate::pass::{in_step, runnable, Pass};
use crate::prompt::prompt_text;
use crate::run::pass_of;
use crate::sampling::{argmax, drawn, is_argmax, law_argmax_is_unique, mixed, sample, SplitMix64, Wide, WideNum, WideOp, GOLDEN};
use crate::state::{filled_cells, is_sized, state_fits, V2State};
use crate::tools::tools_of;
use crate::v2_engine::{text_of, V2Engine};
use vstd::prelude::*;
use vstd::utf8::encode_utf8;

verus! {

/// The scores with a mask added, where there is one.
pub open spec fn masked(n: Num<u32>, scores: Seq<u32>, mask: Option<Seq<u32>>) -> Seq<u32> {
    match mask {
        Some(m) => Seq::new(scores.len(), |i: int| n.plus(scores[i], m[i])),
        None => scores,
    }
}

/// The position of the largest score.
pub open spec fn argmax_of(scores: Seq<u32>) -> int {
    choose|k: int| is_argmax(scores, k)
}

/// The token chosen from the scores: drawn where the temperature is above zero,
/// with the next number of the generator, and otherwise the largest.
pub open spec fn chosen(
    n: Num<u32>,
    w: WideNum,
    scores: Seq<u32>,
    temperature: u32,
    rng: u64,
) -> u32 {
    if f32_greater(temperature, 0) {
        drawn(n, w, scores, temperature, mixed(rng.wrapping_add(GOLDEN)) >> 11) as u32
    } else {
        argmax_of(scores) as u32
    }
}

/// The generator after a token was chosen.
pub open spec fn rng_after(temperature: u32, rng: u64) -> u64 {
    if f32_greater(temperature, 0) {
        rng.wrapping_add(GOLDEN)
    } else {
        rng
    }
}

/// Choose a token from the scores, with a mask added where there is one.
pub fn choose_token<
    U: Fn(Unary, u32) -> u32 + Sync,
    B: Fn(Binary, u32, u32) -> u32 + Sync,
    C: Fn(usize) -> u32 + Sync,
    W: Fn(u32) -> u64,
    I: Fn(u64) -> u64,
    D: Fn(WideOp, u64, u64) -> u64,
>(
    ar: &Arith<U, B, C>,
    wd: &Wide<W, I, D>,
    scores: &Vec<u32>,
    mask: &Option<Vec<u32>>,
    opts: &GenerateOptions,
    rng: &mut SplitMix64,
) -> (t: u32)
    requires
        ar.wf(),
        wd.wf(),
        0 < scores@.len() <= u32::MAX,
        mask is Some ==> mask->0@.len() == scores@.len(),
    ensures
        final(rng).state == rng_after(opts.temperature, old(rng).state),
        ({
            let m = match mask {
                Some(v) => Some(v@),
                None => None,
            };
            t == chosen(
                ar@,
                wd@,
                masked(ar@, scores@, m),
                opts.temperature,
                old(rng).state,
            )
        }),
{
    let n: usize = scores.len();
    let mut biased: Vec<u32> = Vec::new();
    let ghost m = match mask {
        Some(v) => Some(v@),
        None => None,
    };
    let ghost want = masked(ar@, scores@, m);
    let mut i: usize = 0;
    while i < n
        invariant
            i <= n,
            n == scores@.len(),
            ar.wf(),
            mask is Some ==> mask->0@.len() == n,
            m == match mask {
                Some(v) => Some(v@),
                None => None,
            },
            want == masked(ar@, scores@, m),
            biased@.len() == i,
            forall|j: int| 0 <= j < i ==> #[trigger] biased@[j] == want[j],
        decreases n - i,
    {
        match mask {
            Some(v) => {
                biased.push(ar.add(scores[i], v[i]));
            },
            None => {
                biased.push(scores[i]);
            },
        }
        i = i + 1;
    }
    assert(biased@ =~= want);
    if opts.samples() {
        sample(ar, wd, biased.as_slice(), opts.temperature, rng)
    } else {
        let t: u32 = argmax(biased.as_slice());
        proof {
            law_argmax_is_unique(want, t as int, argmax_of(want));
        }
        t
    }
}

/// What generation works with.
pub struct GenModel {
    pub n: Num<u32>,
    pub o: VectorOps,
    pub w: WideNum,
    pub m: V2Model,
    pub window: int,
    pub temperature: u32,
}

impl GenModel {
    /// The scores after the token before `pos`.
    pub open spec fn scores(self, tokens: Seq<u32>, pos: int) -> Seq<u32> {
        Pass { n: self.n, o: self.o, m: self.m, window: self.window, tokens }.scores(pos - 1)
    }

    /// The token chosen at `pos`.
    pub open spec fn next(self, s: SessionModel, tokens: Seq<u32>, pos: int, rng: u64) -> u32 {
        let mask = session_mask(s, self.m.cfg.vocab_size as nat);
        chosen(self.n, self.w, masked(self.n, self.scores(tokens, pos), mask), self.temperature, rng)
    }

    /// What the run does with the token chosen at `pos`.
    pub open spec fn turn(self, s: SessionModel, tokens: Seq<u32>, pos: int, rng: u64) -> Turn {
        let t = self.next(s, tokens, pos, rng);
        match turn_of(s.marks, t, pos, self.m.cfg.max_seq_len as int) {
            Turn::Feed => match step_fault(self.m.cfg, pos, t, Some(self.m.cfg.vocab_size)) {
                Some(e) => Turn::EmitAndStop(StopReason::Error(e)),
                None => Turn::Feed,
            },
            other => other,
        }
    }

    /// The tokens of the reply and why it ends, from a state of the run on.
    pub open spec fn generated(
        self,
        s: SessionModel,
        tokens: Seq<u32>,
        pos: int,
        rng: u64,
    ) -> (Seq<u32>, StopReason)
        decreases s.max_new_tokens - s.out.len(),
    {
        if s.out.len() >= s.max_new_tokens {
            (s.out, StopReason::MaxTokens)
        } else {
            let t = self.next(s, tokens, pos, rng);
            match self.turn(s, tokens, pos, rng) {
                Turn::Stop(r) => (s.out, r),
                Turn::EmitAndStop(r) => (s.out.push(t), r),
                Turn::Feed => self.generated(
                    session_after(s, t),
                    fed(tokens, pos, seq![t]),
                    pos + 1,
                    rng_after(self.temperature, rng),
                ),
            }
        }
    }
}

/// What generation with a state works with.
pub open spec fn gen_of(
    n: Num<u32>,
    o: VectorOps,
    w: WideNum,
    m: V2Model,
    s: V2State<u32>,
    temperature: u32,
) -> GenModel {
    GenModel { n, o, w, m, window: s.kv_window as int, temperature }
}

/// A run in progress.
pub struct Generation {
    pub session: Session,
    /// The scores after the last token.
    pub logits: Vec<u32>,
    pub rng: SplitMix64,
    pub prompt_tokens: usize,
}

impl Generation {
    /// The run is well-formed, and its scores are those of the state's sequence.
    pub open spec fn fits(&self, g: GenModel, s: V2State<u32>) -> bool {
        &&& self.session.wf()
        &&& in_step(s, pass_of(g.n, g.o, g.m, s), s.pos as int)
        &&& s.kv_window == g.window
        &&& s.pos > 0
        &&& self.logits@ == g.scores(s.history@, s.pos as int)
        &&& self.logits@.len() == g.m.cfg.vocab_size
    }

    /// Choose the next token and, where the run goes on, feed it.
    pub fn turn<
        U: Fn(Unary, u32) -> u32 + Sync,
        B: Fn(Binary, u32, u32) -> u32 + Sync,
        C: Fn(usize) -> u32 + Sync,
        N: Fn(&[u32], &[u32]) -> Vec<u32>,
        S: Fn(&[u32]) -> Vec<u32>,
        R: Fn(&[u32], usize, usize) -> Vec<u32>,
        W: Fn(u32) -> u64,
        I: Fn(u64) -> u64,
        D: Fn(WideOp, u64, u64) -> u64,
    >(
        &mut self,
        ar: &Arith<U, B, C>,
        bl: &Blocks<N, S, R>,
        wd: &Wide<W, I, D>,
        m: &V2Model,
        opts: &GenerateOptions,
        state: &mut V2State<u32>,
    ) -> (t: Turn)
        requires
            ar.wf(),
            bl.wf(),
            wd.wf(),
            runnable(*m),
            old(self).fits(
                gen_of(ar@, bl@, wd@, *m, *old(state), opts.temperature),
                *old(state),
            ),
            old(self).session@.out.len() < old(self).session@.max_new_tokens,
        ensures
            final(self).session.wf(),
            final(self).prompt_tokens == old(self).prompt_tokens,
            in_step(
                *final(state),
                pass_of(ar@, bl@, *m, *final(state)),
                final(state).pos as int,
            ),
            final(state).kv_window == old(state).kv_window,
            final(state).cache_len == old(state).cache_len,
            ({
                let g = gen_of(ar@, bl@, wd@, *m, *old(state), opts.temperature);
                let s = old(self).session@;
                let tokens = old(state).history@;
                let pos = old(state).pos as int;
                let rng = old(self).rng.state;
                let next = g.next(s, tokens, pos, rng);
                &&& t == g.turn(s, tokens, pos, rng)
                &&& final(self).rng.state == rng_after(g.temperature, rng)
                &&& match t {
                    Turn::Stop(_) => final(self).session@ == s,
                    _ => final(self).session@ == session_after(s, next),
                }
                &&& t != Turn::Feed ==> *final(state) == *old(state)
                &&& t == Turn::Feed ==> {
                    &&& final(self).fits(g, *final(state))
                    &&& final(state).pos == pos + 1
                    &&& final(state).history@ == fed(tokens, pos, seq![next])
                }
            }),
    {
        let pos: usize = state.pos;
        let mask = self.session.mask(m.cfg.vocab_size);
        proof {
            if mask is Some {
                crate::constrained::law_mask_leaves_a_token(
                    self.session@.grammar->0,
                    m.cfg.vocab_size as nat,
                );
            }
        }
        let next: u32 = choose_token(ar, wd, &self.logits, &mask, opts, &mut self.rng);
        let turn: Turn = self.session.take_token(next, pos, m.cfg.max_seq_len);
        match turn {
            Turn::Feed => {
                match m.step(ar, bl, next, state, &mut self.logits) {
                    Ok(_) => Turn::Feed,
                    Err(e) => Turn::EmitAndStop(StopReason::Error(e)),
                }
            },
            other => other,
        }
    }
}

/// The history of a blank state.
pub open spec fn no_tokens(m: V2Model) -> Seq<u32> {
    Seq::new(m.cfg.max_seq_len as nat, |i: int| 0u32)
}

/// Why a prompt cannot be fed, if it cannot.
pub open spec fn prompt_fault(m: V2Model, ids: Seq<u32>) -> Option<&'static str> {
    if has_stray_token(ids, m.cfg.vocab_size as int) {
        Some("token id outside vocabulary")
    } else {
        None
    }
}

/// The first place at or behind `i` whose token is outside the vocabulary, or the
/// end.
pub open spec fn first_stray(ids: Seq<u32>, vocab_size: int, i: int) -> int
    decreases ids.len() - i,
{
    if i < 0 || i >= ids.len() || ids[i] >= vocab_size {
        i
    } else {
        first_stray(ids, vocab_size, i + 1)
    }
}

pub(crate) proof fn lemma_first_stray(ids: Seq<u32>, vocab_size: int, i: int, k: int)
    requires
        0 <= i <= k <= ids.len(),
        k < ids.len() ==> ids[k] >= vocab_size,
        forall|j: int| i <= j < k ==> #[trigger] ids[j] < vocab_size,
    ensures
        first_stray(ids, vocab_size, i) == k,
    decreases k - i,
{
    if i < k {
        lemma_first_stray(ids, vocab_size, i + 1, k);
    }
}

proof fn lemma_first_stray_within(ids: Seq<u32>, vocab_size: int, i: int)
    requires
        0 <= i <= ids.len(),
    ensures
        i <= first_stray(ids, vocab_size, i) <= ids.len(),
    decreases ids.len() - i,
{
    if i < ids.len() {
        lemma_first_stray_within(ids, vocab_size, i + 1);
    }
}

/// What of a prompt a state takes: all of it, or where it cannot be fed, nothing
/// in chunks and the tokens before the stray one in steps.
pub open spec fn prompt_taken(m: V2Model, ids: Seq<u32>, chunk: usize) -> Seq<u32> {
    if prompt_fault(m, ids) is None {
        ids
    } else if chunk > 0 {
        Seq::empty()
    } else {
        ids.take(first_stray(ids, m.cfg.vocab_size as int, 0))
    }
}

/// What of a reply a state takes: every token, but for one that no longer fits or
/// that the model refuses.
pub open spec fn reply_taken(out: Seq<u32>, stop: StopReason) -> Seq<u32> {
    match stop {
        StopReason::ContextFull => out.drop_last(),
        StopReason::Error(_) => out.drop_last(),
        _ => out,
    }
}

/// The state holds these tokens and no others.
pub open spec fn holds_tokens(s: V2State<u32>, m: V2Model, tokens: Seq<u32>) -> bool {
    &&& s.pos == tokens.len()
    &&& s.history@ == fed(no_tokens(m), 0, tokens)
}

/// What a turn of the run leaves in the state.
proof fn lemma_turn_taken(
    before: V2State<u32>,
    after: V2State<u32>,
    m: V2Model,
    ids: Seq<u32>,
    out: Seq<u32>,
    now: Seq<u32>,
    t: Turn,
)
    requires
        holds_tokens(before, m, ids + out),
        match t {
            Turn::Stop(r) => after == before && now == out && (r is Eos || r is ImEnd),
            Turn::EmitAndStop(r) => after == before && now == out.push(now.last()) && (r
                is ContextFull || r is Error),
            Turn::Feed => {
                &&& now == out.push(now.last())
                &&& before.pos < m.cfg.max_seq_len
                &&& after.pos == before.pos + 1
                &&& after.history@ == fed(before.history@, before.pos as int, seq![now.last()])
            },
        },
    ensures
        match t {
            Turn::Feed => holds_tokens(after, m, ids + now),
            Turn::Stop(r) => holds_tokens(after, m, ids + reply_taken(now, r)),
            Turn::EmitAndStop(r) => holds_tokens(after, m, ids + reply_taken(now, r)),
        },
{
    match t {
        Turn::Feed => {
            law_cutting_a_prompt_keeps_the_history(no_tokens(m), 0, ids + out, seq![now.last()]);
            assert(ids + out + seq![now.last()] =~= ids + now);
        },
        Turn::Stop(_) => {},
        Turn::EmitAndStop(_) => {
            assert(now.drop_last() =~= out);
        },
    }
}

/// Feed a prompt to a blank state token by token.
fn feed_in_steps<
    U: Fn(Unary, u32) -> u32 + Sync,
    B: Fn(Binary, u32, u32) -> u32 + Sync,
    C: Fn(usize) -> u32 + Sync,
    N: Fn(&[u32], &[u32]) -> Vec<u32>,
    S: Fn(&[u32]) -> Vec<u32>,
    R: Fn(&[u32], usize, usize) -> Vec<u32>,
>(
    ar: &Arith<U, B, C>,
    bl: &Blocks<N, S, R>,
    m: &V2Model,
    ids: &Vec<u32>,
    state: &mut V2State<u32>,
) -> (r: Result<Vec<u32>, &'static str>)
    requires
        ar.wf(),
        bl.wf(),
        runnable(*m),
        0 < ids@.len() <= m.cfg.max_seq_len,
        old(state).pos == 0,
        in_step(*old(state), pass_of(ar@, bl@, *m, *old(state)), 0),
    ensures
        in_step(*final(state), pass_of(ar@, bl@, *m, *final(state)), final(state).pos as int),
        final(state).kv_window == old(state).kv_window,
        final(state).cache_len == old(state).cache_len,
        match prompt_fault(*m, ids@) {
            Some(e) => {
                let k = first_stray(ids@, m.cfg.vocab_size as int, 0);
                &&& r is Err
                &&& r->Err_0 == e
                &&& final(state).pos == k
                &&& final(state).history@ == fed(old(state).history@, 0, ids@.take(k))
            },
            None => {
                &&& r is Ok
                &&& final(state).pos == ids@.len()
                &&& final(state).history@ == fed(old(state).history@, 0, ids@)
                &&& r->Ok_0@ == pass_of(ar@, bl@, *m, *final(state)).scores(ids@.len() - 1)
                &&& r->Ok_0@.len() == m.cfg.vocab_size
            },
        },
{
    let n: usize = ids.len();
    let ghost s0 = *state;
    let mut i: usize = 0;
    assert(fed(s0.history@, 0, ids@.take(0)) =~= s0.history@);
    while i + 1 < n
        invariant
            i < n,
            n == ids@.len(),
            n <= m.cfg.max_seq_len,
            ar.wf(),
            bl.wf(),
            runnable(*m),
            s0 == *old(state),
            s0.history@.len() == m.cfg.max_seq_len,
            in_step(*state, pass_of(ar@, bl@, *m, *state), state.pos as int),
            state.pos == i,
            state.history@ == fed(s0.history@, 0, ids@.take(i as int)),
            state.kv_window == s0.kv_window,
            state.cache_len == s0.cache_len,
            forall|j: int| 0 <= j < i ==> #[trigger] ids@[j] < m.cfg.vocab_size,
        decreases n - i,
    {
        match m.step_prefill(ar, bl, ids[i], state) {
            Ok(_) => {},
            Err(e) => {
                assert(ids@[i as int] >= m.cfg.vocab_size);
                proof {
                    lemma_first_stray(ids@, m.cfg.vocab_size as int, 0, i as int);
                }
                return Err(e);
            },
        }
        proof {
            lemma_fed_next(s0.history@, ids@, i as int);
        }
        i = i + 1;
    }
    let mut logits: Vec<u32> = filled_cells(0u32, m.cfg.vocab_size);
    match m.step(ar, bl, ids[i], state, &mut logits) {
        Ok(_) => {
            proof {
                lemma_fed_next(s0.history@, ids@, i as int);
                assert(ids@.take(i + 1) =~= ids@);
            }
            Ok(logits)
        },
        Err(e) => {
            assert(ids@[i as int] >= m.cfg.vocab_size);
            proof {
                lemma_first_stray(ids@, m.cfg.vocab_size as int, 0, i as int);
            }
            Err(e)
        },
    }
}

/// Feeding one more token.
pub proof fn lemma_fed_next(history: Seq<u32>, ids: Seq<u32>, i: int)
    requires
        0 <= i < ids.len() <= history.len(),
    ensures
        fed(fed(history, 0, ids.take(i)), i, seq![ids[i]]) == fed(history, 0, ids.take(i + 1)),
{
    law_cutting_a_prompt_keeps_the_history(history, 0, ids.take(i), seq![ids[i]]);
    assert(ids.take(i) + seq![ids[i]] =~= ids.take(i + 1));
}

/// Feed a prompt to a blank state, in chunks or token by token, and give the
/// scores after it.
pub fn feed_prompt<
    U: Fn(Unary, u32) -> u32 + Sync,
    B: Fn(Binary, u32, u32) -> u32 + Sync,
    C: Fn(usize) -> u32 + Sync,
    N: Fn(&[u32], &[u32]) -> Vec<u32>,
    S: Fn(&[u32]) -> Vec<u32>,
    R: Fn(&[u32], usize, usize) -> Vec<u32>,
>(
    ar: &Arith<U, B, C>,
    bl: &Blocks<N, S, R>,
    m: &V2Model,
    ids: &Vec<u32>,
    chunk: usize,
    state: &mut V2State<u32>,
) -> (r: Result<Vec<u32>, &'static str>)
    requires
        ar.wf(),
        bl.wf(),
        runnable(*m),
        widths_fit(m.cfg),
        0 < ids@.len() <= m.cfg.max_seq_len,
        old(state).pos == 0,
        in_step(*old(state), pass_of(ar@, bl@, *m, *old(state)), 0),
    ensures
        in_step(*final(state), pass_of(ar@, bl@, *m, *final(state)), final(state).pos as int),
        final(state).kv_window == old(state).kv_window,
        final(state).cache_len == old(state).cache_len,
        match prompt_fault(*m, ids@) {
            Some(e) => {
                let k = first_stray(ids@, m.cfg.vocab_size as int, 0);
                &&& r is Err
                &&& r->Err_0 == e
                &&& if chunk > 0 {
                    *final(state) == *old(state)
                } else {
                    final(state).pos == k && final(state).history@ == fed(
                        old(state).history@,
                        0,
                        ids@.take(k),
                    )
                }
            },
            None => {
                &&& r is Ok
                &&& final(state).pos == ids@.len()
                &&& final(state).history@ == fed(old(state).history@, 0, ids@)
                &&& r->Ok_0@ == pass_of(ar@, bl@, *m, *final(state)).scores(ids@.len() - 1)
                &&& r->Ok_0@.len() == m.cfg.vocab_size
            },
        },
{
    if chunk > 0 {
        let batch = V2Batch::new(m, chunk);
        match m.prefill_batch(
            ar,
            bl,
            ids.as_slice(),
            state,
            &batch,
            Some(m.cfg.vocab_size),
        ) {
            Ok(Some(scores)) => Ok(scores),
            Ok(None) => Err("token id outside vocabulary"),
            Err(e) => Err(e),
        }
    } else {
        feed_in_steps(ar, bl, m, ids, state)
    }
}

impl V2Engine {
    /// The ids that a query's prompt is fed as.
    pub open spec fn fed_ids(
        &self,
        query: Seq<char>,
        tools_json: Seq<char>,
        opts: GenerateOptions,
    ) -> Seq<u32> {
        clipped(
            opened_ids(
                self.bundle.tokenizer->0@,
                prompt_text(query, tools_json, text_of(opts.system)),
            ),
            prompt_room(self.bundle.model.cfg.max_seq_len as int, opts.max_new_tokens as int),
        )
    }

    /// Reset a state, feed it the prompt, and set out to generate; a failed reply
    /// where the prompt cannot be fed.
    pub fn start<
        U: Fn(Unary, u32) -> u32 + Sync,
        B: Fn(Binary, u32, u32) -> u32 + Sync,
        C: Fn(usize) -> u32 + Sync,
        N: Fn(&[u32], &[u32]) -> Vec<u32>,
        S: Fn(&[u32]) -> Vec<u32>,
        R: Fn(&[u32], usize, usize) -> Vec<u32>,
    >(
        &self,
        ar: &Arith<U, B, C>,
        bl: &Blocks<N, S, R>,
        query: &str,
        tools_json: &str,
        opts: &GenerateOptions,
        state: &mut V2State<u32>,
    ) -> (r: Result<Generation, V2Result>)
        requires
            ar.wf(),
            bl.wf(),
            self.wf(),
            self.can_encode(),
            runnable(self.bundle.model),
            widths_fit(self.bundle.model.cfg),
            old(state).wf(),
            is_sized(
                *old(state),
                self.bundle.model.cfg,
                old(state).cache_len as int,
            ),
        ensures
            in_step(
                *final(state),
                pass_of(ar@, bl@, self.bundle.model, *final(state)),
                final(state).pos as int,
            ),
            final(state).kv_window == old(state).kv_window,
            final(state).cache_len == old(state).cache_len,
            ({
                let m = self.bundle.model;
                let ids = self.fed_ids(query@, tools_json@, *opts);
                match prompt_fault(m, ids) {
                    Some(e) => r is Err && is_failure(r->Err_0, ids.len() as usize, e)
                        && holds_tokens(
                        *final(state),
                        m,
                        prompt_taken(m, ids, opts.prefill_chunk),
                    ),
                    None => {
                        &&& r is Ok
                        &&& r->Ok_0.session@ == session_start(
                            self.bundle.tokenizer->0@,
                            tools_json@,
                            opts.max_new_tokens as int,
                            opts.constrain,
                        )
                        &&& r->Ok_0.rng.state == opts.seed.wrapping_add(GOLDEN)
                        &&& r->Ok_0.prompt_tokens == ids.len()
                        &&& final(state).pos == ids.len()
                        &&& final(state).history@ == fed(no_tokens(m), 0, ids)
                        &&& forall|w: WideNum|
                            #![trigger gen_of(ar@, bl@, w, m, *final(state), opts.temperature)]
                            r->Ok_0.fits(
                                gen_of(ar@, bl@, w, m, *final(state), opts.temperature),
                                *final(state),
                            )
                    },
                }
            }),
    {
        let m = &self.bundle.model;
        let (ids, session) = self.prepare(query, tools_json, opts);
        let prompt_tokens: usize = ids.len();
        state.reset();
        proof {
            law_a_blank_state_is_in_step(*state, ar@, bl@, *m);
            assert(state.history@ =~= no_tokens(*m));
            assert(fed(no_tokens(*m), 0, Seq::<u32>::empty()) =~= no_tokens(*m));
            lemma_first_stray_within(ids@, m.cfg.vocab_size as int, 0);
        }
        match feed_prompt(ar, bl, m, &ids, opts.prefill_chunk, state) {
            Ok(logits) => Ok(
                Generation { session, logits, rng: SplitMix64::new(opts.seed), prompt_tokens },
            ),
            Err(e) => Err(V2Result::failed(prompt_tokens, e)),
        }
    }

    /// Generate a reply with a state, which is reset first.
    ///
    /// The reply is decided by the arithmetic, the model, the query, the tools and
    /// the options alone. The state is left with the prompt and the reply, for the
    /// last token of which there may have been no room.
    #[verifier::rlimit(40)]
    pub fn generate_with_state<
        U: Fn(Unary, u32) -> u32 + Sync,
        B: Fn(Binary, u32, u32) -> u32 + Sync,
        C: Fn(usize) -> u32 + Sync,
        N: Fn(&[u32], &[u32]) -> Vec<u32>,
        S: Fn(&[u32]) -> Vec<u32>,
        R: Fn(&[u32], usize, usize) -> Vec<u32>,
        W: Fn(u32) -> u64,
        I: Fn(u64) -> u64,
        D: Fn(WideOp, u64, u64) -> u64,
    >(
        &self,
        ar: &Arith<U, B, C>,
        bl: &Blocks<N, S, R>,
        wd: &Wide<W, I, D>,
        query: &str,
        tools_json: &str,
        opts: &GenerateOptions,
        state: &mut V2State<u32>,
    ) -> (r: V2Result)
        requires
            ar.wf(),
            bl.wf(),
            wd.wf(),
            self.wf(),
            self.can_encode(),
            runnable(self.bundle.model),
            widths_fit(self.bundle.model.cfg),
            old(state).wf(),
            is_sized(
                *old(state),
                self.bundle.model.cfg,
                old(state).cache_len as int,
            ),
        ensures
            final(state).wf(),
            is_sized(
                *final(state),
                self.bundle.model.cfg,
                final(state).cache_len as int,
            ),
            final(state).kv_window == old(state).kv_window,
            final(state).cache_len == old(state).cache_len,
            holds_tokens(
                *final(state),
                self.bundle.model,
                self.taken_for(r, query@, tools_json@, *opts),
            ),
            self.is_reply_to(
                r,
                ar@,
                bl@,
                wd@,
                old(state).kv_window as int,
                query@,
                tools_json@,
                *opts,
            ),
    {
        let m = &self.bundle.model;
        let tok = self.bundle.tokenizer.as_ref().unwrap();
        let ghost window = state.kv_window;
        let ghost cache = state.cache_len;
        let ghost ids = self.fed_ids(query@, tools_json@, *opts);
        let mut run = match self.start(ar, bl, query, tools_json, opts, state) {
            Ok(run) => run,
            Err(failed) => return failed,
        };
        let ghost g = gen_of(ar@, bl@, wd@, *m, *state, opts.temperature);
        let ghost start = run.session@;
        assert(ids + start.out =~= ids);
        let ghost want = g.generated(
            start,
            state.history@,
            ids.len() as int,
            opts.seed.wrapping_add(GOLDEN),
        );
        let mut stop: StopReason = StopReason::MaxTokens;
        let mut going: bool = true;
        while going && run.session.wants_token()
            invariant
                ar.wf(),
                bl.wf(),
                wd.wf(),
                runnable(*m),
                g == gen_of(ar@, bl@, wd@, *m, *state, opts.temperature),
                run.session.wf(),
                run.prompt_tokens == ids.len(),
                run.session@.max_new_tokens == start.max_new_tokens,
                run.session@.out.len() <= start.max_new_tokens,
                state.kv_window == window,
                state.cache_len == cache,
                in_step(*state, pass_of(g.n, g.o, g.m, *state), state.pos as int),
                going ==> run.fits(g, *state) && stop == StopReason::MaxTokens && want
                    == g.generated(
                    run.session@,
                    state.history@,
                    state.pos as int,
                    run.rng.state,
                ),
                going ==> holds_tokens(*state, *m, ids + run.session@.out),
                !going ==> want == (run.session@.out, stop),
                !going ==> holds_tokens(*state, *m, ids + reply_taken(run.session@.out, stop)),
            decreases
                    start.max_new_tokens - run.session@.out.len() + if going {
                        1int
                    } else {
                        0int
                    },
        {
            let ghost out = run.session@.out;
            let ghost before = *state;
            let t = run.turn(ar, bl, wd, m, opts, state);
            proof {
                lemma_turn_taken(before, *state, *m, ids, out, run.session@.out, t);
            }
            match t {
                Turn::Feed => {},
                Turn::Stop(r) => {
                    stop = r;
                    going = false;
                },
                Turn::EmitAndStop(r) => {
                    stop = r;
                    going = false;
                },
            }
        }
        let prompt_tokens: usize = run.prompt_tokens;
        run.session.finish(tok, prompt_tokens, stop)
    }

    /// The tokens that a state has taken when the reply to a query is `r`.
    pub open spec fn taken_for(
        &self,
        r: V2Result,
        query: Seq<char>,
        tools_json: Seq<char>,
        opts: GenerateOptions,
    ) -> Seq<u32> {
        let m = self.bundle.model;
        let ids = self.fed_ids(query, tools_json, opts);
        let prompt = prompt_taken(m, ids, opts.prefill_chunk);
        if prompt_fault(m, ids) is None {
            prompt + reply_taken(r.token_ids@, r.stop_reason)
        } else {
            prompt
        }
    }

    /// `r` is the reply to a query.
    pub open spec fn is_reply_to(
        &self,
        r: V2Result,
        n: Num<u32>,
        o: VectorOps,
        w: WideNum,
        window: int,
        query: Seq<char>,
        tools_json: Seq<char>,
        opts: GenerateOptions,
    ) -> bool {
        let m = self.bundle.model;
        let tok = self.bundle.tokenizer->0@;
        let ids = self.fed_ids(query, tools_json, opts);
        match prompt_fault(m, ids) {
            Some(e) => is_failure(r, ids.len() as usize, e),
            None => {
                let g = GenModel { n, o, w, m, window, temperature: opts.temperature };
                let (out, stop) = g.generated(
                    session_start(tok, tools_json, opts.max_new_tokens as int, opts.constrain),
                    fed(no_tokens(m), 0, ids),
                    ids.len() as int,
                    opts.seed.wrapping_add(GOLDEN),
                );
                is_reply(r, tok, out, ids.len() as usize, stop)
            },
        }
    }

    /// Generate a reply with a state of its own.
    pub fn generate<
        U: Fn(Unary, u32) -> u32 + Sync,
        B: Fn(Binary, u32, u32) -> u32 + Sync,
        C: Fn(usize) -> u32 + Sync,
        N: Fn(&[u32], &[u32]) -> Vec<u32>,
        S: Fn(&[u32]) -> Vec<u32>,
        R: Fn(&[u32], usize, usize) -> Vec<u32>,
        W: Fn(u32) -> u64,
        I: Fn(u64) -> u64,
        D: Fn(WideOp, u64, u64) -> u64,
    >(
        &self,
        ar: &Arith<U, B, C>,
        bl: &Blocks<N, S, R>,
        wd: &Wide<W, I, D>,
        query: &str,
        tools_json: &str,
        opts: &GenerateOptions,
    ) -> (r: V2Result)
        requires
            ar.wf(),
            bl.wf(),
            wd.wf(),
            self.wf(),
            self.can_encode(),
            runnable(self.bundle.model),
            widths_fit(self.bundle.model.cfg),
            state_fits(self.bundle.model.cfg, ring_width(self.bundle.model.cfg)),
        ensures
            self.is_reply_to(
                r,
                ar@,
                bl@,
                wd@,
                self.bundle.model.cfg.kv_window as int,
                query@,
                tools_json@,
                *opts,
            ),
    {
        let mut state = self.new_state(0u32);
        self.generate_with_state(ar, bl, wd, query, tools_json, opts, &mut state)
    }

    /// Generate a reply with the prompt fed token by token, whatever the options
    /// say of chunks.
    pub fn generate_sequential<
        U: Fn(Unary, u32) -> u32 + Sync,
        B: Fn(Binary, u32, u32) -> u32 + Sync,
        C: Fn(usize) -> u32 + Sync,
        N: Fn(&[u32], &[u32]) -> Vec<u32>,
        S: Fn(&[u32]) -> Vec<u32>,
        R: Fn(&[u32], usize, usize) -> Vec<u32>,
        W: Fn(u32) -> u64,
        I: Fn(u64) -> u64,
        D: Fn(WideOp, u64, u64) -> u64,
    >(
        &self,
        ar: &Arith<U, B, C>,
        bl: &Blocks<N, S, R>,
        wd: &Wide<W, I, D>,
        query: &str,
        tools_json: &str,
        opts: &GenerateOptions,
    ) -> (r: V2Result)
        requires
            ar.wf(),
            bl.wf(),
            wd.wf(),
            self.wf(),
            self.can_encode(),
            runnable(self.bundle.model),
            widths_fit(self.bundle.model.cfg),
            state_fits(self.bundle.model.cfg, ring_width(self.bundle.model.cfg)),
        ensures
            self.is_reply_to(
                r,
                ar@,
                bl@,
                wd@,
                self.bundle.model.cfg.kv_window as int,
                query@,
                tools_json@,
                *opts,
            ),
    {
        let system: Option<String> = match &opts.system {
            Some(s) => Some(s.clone()),
            None => None,
        };
        let stepwise = GenerateOptions {
            max_new_tokens: opts.max_new_tokens,
            temperature: opts.temperature,
            seed: opts.seed,
            system,
            prefill_chunk: 0,
            constrain: opts.constrain,
        };
        proof {
            assert(text_of(stepwise.system) == text_of(opts.system));
        }
        self.generate(ar, bl, wd, query, tools_json, &stepwise)
    }

    /// The greedy reply to one query.
    pub fn run<
        U: Fn(Unary, u32) -> u32 + Sync,
        B: Fn(Binary, u32, u32) -> u32 + Sync,
        C: Fn(usize) -> u32 + Sync,
        N: Fn(&[u32], &[u32]) -> Vec<u32>,
        S: Fn(&[u32]) -> Vec<u32>,
        R: Fn(&[u32], usize, usize) -> Vec<u32>,
        W: Fn(u32) -> u64,
        I: Fn(u64) -> u64,
        D: Fn(WideOp, u64, u64) -> u64,
    >(
        &self,
        ar: &Arith<U, B, C>,
        bl: &Blocks<N, S, R>,
        wd: &Wide<W, I, D>,
        query: &str,
        tools_json: &str,
    ) -> (r: V2Result)
        requires
            ar.wf(),
            bl.wf(),
            wd.wf(),
            self.wf(),
            self.can_encode(),
            runnable(self.bundle.model),
            widths_fit(self.bundle.model.cfg),
            state_fits(self.bundle.model.cfg, ring_width(self.bundle.model.cfg)),
        ensures
            exists|opts: GenerateOptions|
                is_default(opts) && #[trigger] self.is_reply_to(
                    r,
                    ar@,
                    bl@,
                    wd@,
                    self.bundle.model.cfg.kv_window as int,
                    query@,
                    tools_json@,
                    opts,
                ),
    {
        let opts = GenerateOptions::default();
        let r = self.generate(ar, bl, wd, query, tools_json, &opts);
        assert(is_default(opts));
        r
    }

    /// The greedy replies to several queries, one after the other.
    pub fn run_batch<
        U: Fn(Unary, u32) -> u32 + Sync,
        B: Fn(Binary, u32, u32) -> u32 + Sync,
        C: Fn(usize) -> u32 + Sync,
        N: Fn(&[u32], &[u32]) -> Vec<u32>,
        S: Fn(&[u32]) -> Vec<u32>,
        R: Fn(&[u32], usize, usize) -> Vec<u32>,
        W: Fn(u32) -> u64,
        I: Fn(u64) -> u64,
        D: Fn(WideOp, u64, u64) -> u64,
    >(
        &self,
        ar: &Arith<U, B, C>,
        bl: &Blocks<N, S, R>,
        wd: &Wide<W, I, D>,
        examples: &[(&str, &str)],
    ) -> (r: Vec<V2Result>)
        requires
            ar.wf(),
            bl.wf(),
            wd.wf(),
            self.wf(),
            self.can_encode(),
            runnable(self.bundle.model),
            widths_fit(self.bundle.model.cfg),
            state_fits(self.bundle.model.cfg, ring_width(self.bundle.model.cfg)),
        ensures
            r@.len() == examples@.len(),
            exists|opts: GenerateOptions|
                #[trigger] is_default(opts) && forall|i: int|
                    0 <= i < examples@.len() ==> self.is_reply_to(
                        #[trigger] r@[i],
                        ar@,
                        bl@,
                        wd@,
                        self.bundle.model.cfg.kv_window as int,
                        examples@[i].0@,
                        examples@[i].1@,
                        opts,
                    ),
    {
        let opts = GenerateOptions::default();
        let mut state = self.new_state(0u32);
        let mut out: Vec<V2Result> = Vec::new();
        let n: usize = examples.len();
        let mut i: usize = 0;
        while i < n
            invariant
                i <= n,
                n == examples@.len(),
                ar.wf(),
                bl.wf(),
                wd.wf(),
                self.wf(),
                self.can_encode(),
                runnable(self.bundle.model),
                widths_fit(self.bundle.model.cfg),
                state.wf(),
                is_sized(state, self.bundle.model.cfg, state.cache_len as int),
                state.kv_window == self.bundle.model.cfg.kv_window,
                out@.len() == i,
                forall|j: int|
                    0 <= j < i ==> self.is_reply_to(
                        #[trigger] out@[j],
                        ar@,
                        bl@,
                        wd@,
                        self.bundle.model.cfg.kv_window as int,
                        examples@[j].0@,
                        examples@[j].1@,
                        opts,
                    ),
            decreases n - i,
        {
            let r = self.generate_with_state(
                ar,
                bl,
                wd,
                examples[i].0,
                examples[i].1,
                &opts,
                &mut state,
            );
            out.push(r);
            i = i + 1;
        }
        assert(is_default(opts));
        out
    }
}

/// The options that a caller who names none gets.
pub open spec fn is_default(o: GenerateOptions) -> bool {
    &&& o.max_new_tokens == DEFAULT_MAX_NEW_TOKENS
    &&& o.temperature == 0
    &&& o.seed == 0
    &&& o.system is None
    &&& o.prefill_chunk == DEFAULT_CHUNK
    &&& !o.constrain
}

/// The two replies say the same.
pub open spec fn same_reply(a: V2Result, b: V2Result) -> bool {
    &&& a.text@ == b.text@
    &&& text_of(a.tool_call) == text_of(b.tool_call)
    &&& text_of(a.thinking) == text_of(b.thinking)
    &&& a.token_ids@ == b.token_ids@
    &&& a.prompt_tokens == b.prompt_tokens
    &&& a.stop_reason == b.stop_reason
}

/// Two runs on the same query with the same options say the same, however their
/// prompts are cut into chunks: in particular, a run that samples is repeated by
/// its seed, and a prompt fed token by token changes nothing.
pub proof fn law_replies_do_not_depend_on_chunks(
    e: V2Engine,
    n: Num<u32>,
    o: VectorOps,
    w: WideNum,
    window: int,
    query: Seq<char>,
    tools_json: Seq<char>,
    a: GenerateOptions,
    b: GenerateOptions,
    r: V2Result,
    q: V2Result,
)
    requires
        a.max_new_tokens == b.max_new_tokens,
        a.temperature == b.temperature,
        a.seed == b.seed,
        text_of(a.system) == text_of(b.system),
        a.constrain == b.constrain,
        e.is_reply_to(r, n, o, w, window, query, tools_json, a),
        e.is_reply_to(q, n, o, w, window, query, tools_json, b),
    ensures
        same_reply(r, q),
{
}

/// A list without tools leaves generation free: to constrain calls to no tools is
/// not to constrain them.
pub proof fn law_no_tools_leave_generation_free(
    e: V2Engine,
    n: Num<u32>,
    o: VectorOps,
    w: WideNum,
    window: int,
    query: Seq<char>,
    tools_json: Seq<char>,
    a: GenerateOptions,
    b: GenerateOptions,
    r: V2Result,
    q: V2Result,
)
    requires
        tools_of(encode_utf8(tools_json)).len() == 0,
        a.max_new_tokens == b.max_new_tokens,
        a.temperature == b.temperature,
        a.seed == b.seed,
        text_of(a.system) == text_of(b.system),
        e.is_reply_to(r, n, o, w, window, query, tools_json, a),
        e.is_reply_to(q, n, o, w, window, query, tools_json, b),
    ensures
        same_reply(r, q),
{
}

/// A greedy choice keeps to the mask: where the mask brings every forbidden score
/// below the allowed ones, the chosen token is an allowed one.
pub proof fn law_greedy_choices_keep_to_the_mask(
    n: Num<u32>,
    w: WideNum,
    scores: Seq<u32>,
    mask: Seq<u32>,
    temperature: u32,
    rng: u64,
)
    requires
        !f32_greater(temperature, 0),
        0 < scores.len() <= u32::MAX,
        mask.len() == scores.len(),
        exists|i: int| 0 <= i < mask.len() && #[trigger] mask[i] == ALLOWED,
        forall|i: int, j: int|
            0 <= i < mask.len() && 0 <= j < mask.len() && #[trigger] mask[i] == ALLOWED
                && #[trigger] mask[j] != ALLOWED ==> f32_greater(
                n.plus(scores[i], mask[i]),
                n.plus(scores[j], mask[j]),
            ),
    ensures
        chosen(n, w, masked(n, scores, Some(mask)), temperature, rng) < mask.len(),
        mask[chosen(n, w, masked(n, scores, Some(mask)), temperature, rng) as int] == ALLOWED,
{
    let m = masked(n, scores, Some(mask));
    lemma_some_argmax(m);
    let k = argmax_of(m);
    assert(is_argmax(m, k));
    let i = choose|i: int| 0 <= i < mask.len() && #[trigger] mask[i] == ALLOWED;
    if mask[k] != ALLOWED {
        assert(f32_greater(m[i], m[k]));
        assert(f32_greater(m[i], NEG_INFINITY));
    }
}

pub(crate) proof fn lemma_some_argmax(s: Seq<u32>)
    ensures
        exists|r: int| is_argmax(s, r),
    decreases s.len(),
{
    if s.len() == 0 {
        assert(is_argmax(s, 0));
    } else {
        let rest = s.drop_last();
        lemma_some_argmax(rest);
        let r = choose|r: int| is_argmax(rest, r);
        let last = s.len() - 1;
        assert forall|j: int| 0 <= j < last implies #[trigger] s[j] == rest[j] by {}
        if exists|i: int| 0 <= i < rest.len() && f32_greater(#[trigger] rest[i], NEG_INFINITY) {
            let i = choose|i: int|
                0 <= i < rest.len() && f32_greater(#[trigger] rest[i], NEG_INFINITY);
            assert(f32_greater(s[i], NEG_INFINITY));
            if f32_greater(s[last], rest[r]) {
                assert(is_argmax(s, last));
            } else {
                assert(s[r] == rest[r]);
                assert(is_argmax(s, r));
            }
        } else if f32_greater(s[last], NEG_INFINITY) {
            assert forall|j: int| 0 <= j < last implies f32_nan(#[trigger] s[j]) || f32_greater(
                s[last],
                s[j],
            ) by {
                assert(!f32_greater(rest[j], NEG_INFINITY));
            }
            assert forall|j: int| 0 <= j < s.len() implies !f32_greater(
                #[trigger] s[j],
                s[last],
            ) by {
                if j < last {
                    assert(!f32_greater(rest[j], NEG_INFINITY));
                }
            }
            assert(is_argmax(s, last));
        } else {
            assert forall|i: int| 0 <= i < s.len() implies !f32_greater(
                #[trigger] s[i],
                NEG_INFINITY,
            ) by {
                if i < last {
                    assert(!f32_greater(rest[i], NEG_INFINITY));
                }
            }
            assert(is_argmax(s, 0));
        }
    }
}

/// A greedy run does not read the seed.
pub proof fn law_greedy_replies_ignore_the_seed(
    g: GenModel,
    s: SessionModel,
    tokens: Seq<u32>,
    pos: int,
    first: u64,
    second: u64,
)
    requires
        !f32_greater(g.temperature, 0),
    ensures
        g.generated(s, tokens, pos, first) == g.generated(s, tokens, pos, second),
    decreases s.max_new_tokens - s.out.len(),
{
    if s.out.len() < s.max_new_tokens {
        let t = g.next(s, tokens, pos, first);
        assert(t == g.next(s, tokens, pos, second));
        assert(g.turn(s, tokens, pos, first) == g.turn(s, tokens, pos, second));
        if g.turn(s, tokens, pos, first) == Turn::Feed {
            law_greedy_replies_ignore_the_seed(
                g,
                session_after(s, t),
                fed(tokens, pos, seq![t]),
                pos + 1,
                first,
                second,
            );
        }
    }
}

impl GenModel {
    /// The token with which the run ends, unless it ends for want of room in the
    /// reply.
    pub open spec fn last_pick(
        self,
        s: SessionModel,
        tokens: Seq<u32>,
        pos: int,
        rng: u64,
    ) -> Option<u32>
        decreases s.max_new_tokens - s.out.len(),
    {
        if s.out.len() >= s.max_new_tokens {
            None
        } else {
            let t = self.next(s, tokens, pos, rng);
            match self.turn(s, tokens, pos, rng) {
                Turn::Feed => self.last_pick(
                    session_after(s, t),
                    fed(tokens, pos, seq![t]),
                    pos + 1,
                    rng_after(self.temperature, rng),
                ),
                _ => Some(t),
            }
        }
    }
}

/// A run ends as reported. The reply is never longer than was asked for, and
/// holds no stop token. It ends naturally exactly where a stop token was chosen,
/// for its length only with as many tokens as were asked for, for want of context
/// only with the last token at the end of it, and with an error only where the
/// model refuses the last token.
pub proof fn law_runs_end_as_reported(
    g: GenModel,
    s: SessionModel,
    tokens: Seq<u32>,
    pos: int,
    rng: u64,
)
    requires
        s.out.len() <= s.max_new_tokens,
    ensures
        ({
            let (out, stop) = g.generated(s, tokens, pos, rng);
            let pick = g.last_pick(s, tokens, pos, rng);
            let k = out.len() - s.out.len();
            &&& 0 <= k
            &&& out.len() <= s.max_new_tokens
            &&& out.take(s.out.len() as int) == s.out
            &&& forall|j: int|
                s.out.len() <= j < out.len() ==> #[trigger] out[j] != s.marks.eos
                    && s.marks.im_end != Some(out[j])
            &&& stop == StopReason::Eos <==> pick == Some(s.marks.eos)
            &&& match stop {
                StopReason::Eos => out.len() < s.max_new_tokens,
                StopReason::ImEnd => out.len() < s.max_new_tokens && pick is Some && pick
                    == s.marks.im_end,
                StopReason::MaxTokens => out.len() == s.max_new_tokens && pick is None,
                StopReason::ContextFull => k > 0 && pick == Some(out.last()) && pos + k - 1
                    >= g.m.cfg.max_seq_len,
                StopReason::Error(e) => k > 0 && pick == Some(out.last()) && step_fault(
                    g.m.cfg,
                    pos + k - 1,
                    out.last(),
                    Some(g.m.cfg.vocab_size),
                ) == Some(e),
            }
        }),
    decreases s.max_new_tokens - s.out.len(),
{
    let (out, stop) = g.generated(s, tokens, pos, rng);
    if s.out.len() < s.max_new_tokens {
        let t = g.next(s, tokens, pos, rng);
        match g.turn(s, tokens, pos, rng) {
            Turn::Feed => {
                let next = session_after(s, t);
                law_runs_end_as_reported(
                    g,
                    next,
                    fed(tokens, pos, seq![t]),
                    pos + 1,
                    rng_after(g.temperature, rng),
                );
                assert(out.take(s.out.len() as int) =~= next.out.take(s.out.len() as int));
                assert(next.out.take(s.out.len() as int) =~= s.out);
                assert(out[s.out.len() as int] == next.out[s.out.len() as int]) by {
                    assert(out.take(next.out.len() as int)[s.out.len() as int]
                        == out[s.out.len() as int]);
                }
            },
            Turn::Stop(_) => {
                assert(out.take(s.out.len() as int) =~= s.out);
            },
            Turn::EmitAndStop(_) => {
                assert(out.take(s.out.len() as int) =~= s.out);
            },
        }
    } else {
        assert(out.take(s.out.len() as int) =~= s.out);
    }
}

/// `r` is the reply of a run whose prompt could not be fed.
pub open spec fn is_failure(r: V2Result, prompt_tokens: usize, e: &'static str) -> bool {
    &&& r.text@ == Seq::<char>::empty()
    &&& r.tool_call is None
    &&& r.thinking is None
    &&& r.token_ids@ == Seq::<u32>::empty()
    &&& r.prompt_tokens == prompt_tokens
    &&& r.stop_reason == StopReason::Error(e)
}

/// Where nothing is asked for, a reply has up to 128 tokens, the most likely one each
/// time, and takes its prompt in chunks; no system turn is written and no call is
/// constrained.
pub proof fn law_defaults_are_greedy_and_free(o: GenerateOptions)
    requires
        is_default(o),
    ensures
        o.max_new_tokens == 128,
        !f32_greater(o.temperature, 0),
        o.prefill_chunk == 128,
        o.system is None,
        !o.constrain,
{
}

} // verus!
