//! Generation: from a query to a reply, one chosen token at a time.
//!
//! A `Session` makes the decisions. Whoever runs it computes the scores, adds
//! the mask that the session asks for, picks a token, hands it back, and feeds
//! it to the model where the session says so.

use crate::batch::DEFAULT_CHUNK;
use crate::bits::{f32_greater, f32_gt};
use crate::constrained::{declared_keys, declared_names, next_token_mask, pair_views, table_len, text_of_id, text_table, ConstrainedDecoder, DecoderModel};
use crate::json_machine::{json_feed, json_start};
use crate::prompt::{between, encloses, extract_between, law_what_stands_between_is_taken_out, IM_END, THINK_END, THINK_START, TOOL_CALL_END, TOOL_CALL_START};
use crate::sp_tokenizer::{decode_text, encode_ids, markers_not_empty, raw_token_bytes, surface_id, SpTokenizer, TokenizerModel};
use crate::tools::{tool_views, tools_of, ToolDef};
use crate::word_map::lemma_last_index;
use vstd::prelude::*;
use vstd::utf8::*;

verus! {

/// Default limit on generated tokens.
pub const DEFAULT_MAX_NEW_TOKENS: usize = 128;

/// Why generation stopped.
#[derive(Debug, Clone, Copy, PartialEq, Eq)]
pub enum StopReason {
    /// The end-of-sequence token was chosen.
    Eos,
    /// The turn was closed.
    ImEnd,
    /// The limit on new tokens was reached with the turn still open.
    MaxTokens,
    /// The longest sequence was reached.
    ContextFull,
    /// A token could not be fed.
    Error(&'static str),
}

impl StopReason {
    /// Whether the model chose to stop, rather than being cut off.
    pub fn is_natural(self) -> (r: bool)
        ensures
            r == (self is Eos || self is ImEnd),
    {
        match self {
            StopReason::Eos => true,
            StopReason::ImEnd => true,
            _ => false,
        }
    }
}

/// One reply.
#[derive(Debug, Clone)]
pub struct V2Result {
    /// Decoded text, markers included.
    pub text: String,
    /// What stands in the tool-call markers, where there are any.
    pub tool_call: Option<String>,
    /// What stands in the thinking markers, where there are any.
    pub thinking: Option<String>,
    pub token_ids: Vec<u32>,
    /// Prompt tokens fed, the opening one included.
    pub prompt_tokens: usize,
    pub stop_reason: StopReason,
}

impl V2Result {
    /// Whether the model chose to stop, rather than being cut off.
    pub fn stopped_naturally(&self) -> (r: bool)
        ensures
            r == (self.stop_reason is Eos || self.stop_reason is ImEnd),
    {
        self.stop_reason.is_natural()
    }

    /// The error that ended the run, if one did.
    pub fn error(&self) -> (r: Option<&'static str>)
        ensures
            match self.stop_reason {
                StopReason::Error(e) => r is Some && r->0 == e,
                _ => r is None,
            },
    {
        match self.stop_reason {
            StopReason::Error(e) => Some(e),
            _ => None,
        }
    }

    /// The reply of a run whose prompt could not be fed.
    pub fn failed(prompt_tokens: usize, e: &'static str) -> (r: V2Result)
        ensures
            r.text@ == Seq::<char>::empty(),
            r.tool_call is None,
            r.thinking is None,
            r.token_ids@ == Seq::<u32>::empty(),
            r.prompt_tokens == prompt_tokens,
            r.stop_reason == StopReason::Error(e),
    {
        V2Result {
            text: String::new(),
            tool_call: None,
            thinking: None,
            token_ids: Vec::new(),
            prompt_tokens,
            stop_reason: StopReason::Error(e),
        }
    }
}

/// Generation settings.
#[derive(Debug, Clone)]
pub struct GenerateOptions {
    pub max_new_tokens: usize,
    /// Float bits. Zero and below is greedy, above is sampling.
    pub temperature: u32,
    pub seed: u64,
    /// System message, placed before the user turn.
    pub system: Option<String>,
    /// Positions in a chunk of the prompt. Zero feeds it token by token.
    pub prefill_chunk: usize,
    /// Hold tool calls to the declared names and argument keys.
    pub constrain: bool,
}

impl Default for GenerateOptions {
    fn default() -> (o: GenerateOptions)
        ensures
            o.max_new_tokens == DEFAULT_MAX_NEW_TOKENS,
            o.temperature == 0,
            o.seed == 0,
            o.system is None,
            o.prefill_chunk == DEFAULT_CHUNK,
            !o.constrain,
    {
        GenerateOptions {
            max_new_tokens: DEFAULT_MAX_NEW_TOKENS,
            temperature: 0,
            seed: 0,
            system: None,
            prefill_chunk: DEFAULT_CHUNK,
            constrain: false,
        }
    }
}

impl GenerateOptions {
    /// Whether tokens are sampled, rather than chosen by the largest score.
    pub fn samples(&self) -> (r: bool)
        ensures
            r == f32_greater(self.temperature, 0),
    {
        f32_gt(self.temperature, 0)
    }
}

/// The first `n` ids, or all of them.
pub open spec fn clipped(ids: Seq<u32>, n: int) -> Seq<u32> {
    if ids.len() > n {
        ids.take(n)
    } else {
        ids
    }
}

/// How many prompt tokens leave room for the reply: at least one is fed.
pub open spec fn prompt_room(max_seq_len: int, max_new_tokens: int) -> int {
    if max_seq_len - max_new_tokens > 1 {
        max_seq_len - max_new_tokens
    } else {
        1
    }
}

/// The ids of a text behind the opening token.
pub open spec fn opened_ids(m: TokenizerModel, text: Seq<char>) -> Seq<u32> {
    seq![m.bos_id] + encode_ids(m, text)
}

fn clip(ids: Vec<u32>, n: usize) -> (r: Vec<u32>)
    ensures
        r@ == clipped(ids@, n as int),
{
    let mut r = ids;
    if r.len() > n {
        r.truncate(n);
        assert(r@ =~= ids@.take(n as int));
    }
    r
}

fn open_ids(tok: &SpTokenizer, text: &str) -> (ids: Vec<u32>)
    requires
        tok.wf(),
        markers_not_empty(tok@),
    ensures
        ids@ == opened_ids(tok@, text@),
{
    let more = tok.encode(text);
    let mut ids: Vec<u32> = Vec::new();
    ids.push(tok.bos_id);
    let mut i: usize = 0;
    while i < more.len()
        invariant
            i <= more@.len(),
            ids@ == seq![tok.bos_id] + more@.take(i as int),
        decreases more@.len() - i,
    {
        ids.push(more[i]);
        i = i + 1;
        assert(ids@ =~= seq![tok.bos_id] + more@.take(i as int));
    }
    assert(more@.take(more@.len() as int) =~= more@);
    ids
}

/// The ids to feed for a prompt: the opening token and the prompt, cut so that
/// the reply still fits.
pub fn prompt_ids(tok: &SpTokenizer, prompt: &str, max_seq_len: usize, max_new_tokens: usize) -> (ids:
    Vec<u32>)
    requires
        tok.wf(),
        markers_not_empty(tok@),
    ensures
        ids@ == clipped(
            opened_ids(tok@, prompt@),
            prompt_room(max_seq_len as int, max_new_tokens as int),
        ),
        ids@.len() > 0,
{
    let room: usize = if max_new_tokens < max_seq_len && max_seq_len - max_new_tokens > 1 {
        max_seq_len - max_new_tokens
    } else {
        1
    };
    clip(open_ids(tok, prompt), room)
}

/// The ids of a text behind the opening token, cut to the longest sequence.
pub fn encode_with_bos(tok: &SpTokenizer, text: &str, max_seq_len: usize) -> (ids: Vec<u32>)
    requires
        tok.wf(),
        markers_not_empty(tok@),
    ensures
        ids@ == clipped(opened_ids(tok@, text@), max_seq_len as int),
{
    clip(open_ids(tok, text), max_seq_len)
}

/// Prompt and reply fit into the longest sequence, wherever the reply alone
/// does.
pub proof fn law_prompt_leaves_room_for_the_reply(
    m: TokenizerModel,
    prompt: Seq<char>,
    max_seq_len: int,
    max_new_tokens: int,
)
    requires
        0 <= max_new_tokens < max_seq_len,
    ensures
        clipped(opened_ids(m, prompt), prompt_room(max_seq_len, max_new_tokens)).len()
            + max_new_tokens <= max_seq_len,
{
}

/// The bytes of every token.
pub open spec fn token_table(m: TokenizerModel) -> Seq<Seq<u8>> {
    Seq::new(m.pieces.len(), |id: int| raw_token_bytes(m, id))
}

/// A token table in which every id stands at its own place.
pub open spec fn numbered(table: Seq<Seq<u8>>) -> Seq<(u32, Seq<u8>)> {
    Seq::new(table.len(), |id: int| (id as u32, table[id]))
}

/// The bytes of every token, each with its id.
pub fn byte_table(tok: &SpTokenizer) -> (v: Vec<(u32, Vec<u8>)>)
    requires
        tok.wf(),
    ensures
        pair_views(v@) == numbered(token_table(tok@)),
{
    let mut table = tok.token_bytes();
    let n: usize = table.len();
    let ghost m = tok@;
    let ghost full = table@;
    let mut v: Vec<(u32, Vec<u8>)> = Vec::new();
    let mut i: usize = 0;
    while i < n
        invariant
            i <= n,
            n <= u32::MAX,
            n == m.pieces.len(),
            table@ == full,
            full.len() == n,
            forall|id: int| 0 <= id < n ==> (#[trigger] full[id])@ == raw_token_bytes(m, id),
            v@.len() == i,
            forall|id: int|
                0 <= id < i ==> (#[trigger] v@[id]).0 == id && v@[id].1@ == raw_token_bytes(m, id),
        decreases n - i,
    {
        v.push((i as u32, crate::text::to_bytes(table[i].as_slice())));
        i = i + 1;
    }
    assert(pair_views(v@) =~= numbered(token_table(m)));
    v
}

proof fn lemma_numbered_table(table: Seq<Seq<u8>>, n: int)
    requires
        0 <= n <= table.len() <= u32::MAX,
    ensures
        table_len(numbered(table).take(n)) == if n == 0 {
            1
        } else {
            n
        },
        forall|id: int|
            0 <= id < n ==> #[trigger] text_of_id(numbered(table).take(n), id) == table[id],
    decreases n,
{
    let pairs = numbered(table).take(n);
    if n > 0 {
        lemma_numbered_table(table, n - 1);
        assert(pairs.drop_last() =~= numbered(table).take(n - 1));
        assert(pairs.last() == numbered(table)[n - 1]);
        assert forall|id: int| 0 <= id < n implies #[trigger] text_of_id(pairs, id)
            == table[id] by {
            if id < n - 1 {
                assert(text_of_id(numbered(table).take(n - 1), id) == table[id]);
            }
        }
    }
}

/// The grammar of the declared tools before any output.
pub open spec fn call_grammar(m: TokenizerModel, tools_json: Seq<char>) -> DecoderModel {
    let tools = tools_of(encode_utf8(tools_json));
    DecoderModel {
        names: declared_names(tools),
        declared: declared_keys(tools),
        sm: json_start(),
        token_texts: token_table(m),
        unique_arg_keys: true,
    }
}

/// The tokens that steer a run.
pub struct Marks {
    pub eos: u32,
    /// Closes the turn.
    pub im_end: Option<u32>,
    /// Opens a tool call.
    pub call_start: Option<u32>,
    /// Closes a tool call.
    pub call_end: Option<u32>,
}

/// The id of a marker, if the table has it.
pub open spec fn marker_id(m: TokenizerModel, marker: Seq<char>) -> Option<u32> {
    match surface_id(m, encode_utf8(marker)) {
        Some(id) => Some(id as u32),
        None => None,
    }
}

/// The steering tokens of a table.
pub open spec fn marks_of(m: TokenizerModel) -> Marks {
    Marks {
        eos: m.eos_id,
        im_end: marker_id(m, IM_END@),
        call_start: marker_id(m, TOOL_CALL_START@),
        call_end: marker_id(m, TOOL_CALL_END@),
    }
}

/// What follows from a chosen token.
#[derive(Debug, Clone, Copy, PartialEq, Eq)]
pub enum Turn {
    /// The run is over; the token is not part of the reply.
    Stop(StopReason),
    /// The token is part of the reply, and the run is over.
    EmitAndStop(StopReason),
    /// The token is part of the reply and is fed to the model.
    Feed,
}

/// What follows from the token `next`, chosen with the model at position `pos`.
pub open spec fn turn_of(marks: Marks, next: u32, pos: int, max_seq_len: int) -> Turn {
    if next == marks.eos {
        Turn::Stop(StopReason::Eos)
    } else if marks.im_end == Some(next) {
        Turn::Stop(StopReason::ImEnd)
    } else if pos >= max_seq_len {
        Turn::EmitAndStop(StopReason::ContextFull)
    } else {
        Turn::Feed
    }
}

/// The state of a run.
#[verifier::ext_equal]
pub struct SessionModel {
    pub marks: Marks,
    /// The grammar of tool calls, where there is one.
    pub grammar: Option<DecoderModel>,
    /// The reply is in a tool call.
    pub in_call: bool,
    /// The reply so far.
    pub out: Seq<u32>,
    pub max_new_tokens: int,
}

/// The state before the first token.
pub open spec fn session_start(
    m: TokenizerModel,
    tools_json: Seq<char>,
    max_new_tokens: int,
    constrain: bool,
) -> SessionModel {
    SessionModel {
        marks: marks_of(m),
        grammar: if constrain && tools_of(encode_utf8(tools_json)).len() > 0 {
            Some(call_grammar(m, tools_json))
        } else {
            None
        },
        in_call: false,
        out: Seq::empty(),
        max_new_tokens,
    }
}

/// The grammar after one more token of a call.
pub open spec fn grammar_after(d: DecoderModel, next: u32) -> DecoderModel {
    DecoderModel {
        sm: if next < d.token_texts.len() {
            json_feed(d.sm, d.token_texts[next as int])
        } else {
            d.sm
        },
        ..d
    }
}

/// The state after a token became part of the reply. Where there is a grammar,
/// the call markers switch it on and off, and the tokens of a call advance it.
pub open spec fn session_after(s: SessionModel, next: u32) -> SessionModel {
    let out = s.out.push(next);
    match s.grammar {
        None => SessionModel { out, ..s },
        Some(d) => if s.marks.call_start == Some(next) {
            SessionModel { out, in_call: true, ..s }
        } else if s.marks.call_end == Some(next) {
            SessionModel { out, in_call: false, ..s }
        } else if s.in_call {
            SessionModel { out, grammar: Some(grammar_after(d, next)), ..s }
        } else {
            SessionModel { out, ..s }
        },
    }
}

/// The bias to add to the scores, if any: that of the grammar, in a call.
pub open spec fn session_mask(s: SessionModel, vocab_size: nat) -> Option<Seq<u32>> {
    match s.grammar {
        Some(d) => if s.in_call {
            Some(next_token_mask(d, vocab_size))
        } else {
            None
        },
        None => None,
    }
}

/// A run: what the reply is so far, and what comes next.
pub struct Session {
    pub marks: Marks,
    pub grammar: Option<ConstrainedDecoder>,
    pub in_call: bool,
    pub out: Vec<u32>,
    pub max_new_tokens: usize,
}

impl View for Session {
    type V = SessionModel;

    open spec fn view(&self) -> SessionModel {
        SessionModel {
            marks: self.marks,
            grammar: match self.grammar {
                Some(g) => Some(g@),
                None => None,
            },
            in_call: self.in_call,
            out: self.out@,
            max_new_tokens: self.max_new_tokens as int,
        }
    }
}

fn is_mark(mark: &Option<u32>, next: u32) -> (r: bool)
    ensures
        r == (*mark == Some(next)),
{
    match mark {
        Some(id) => *id == next,
        None => false,
    }
}

impl Session {
    /// Well-formedness: the grammar is, and no more than the allowed tokens are
    /// out.
    pub open spec fn wf(&self) -> bool {
        &&& self.grammar is Some ==> self.grammar->0.wf()
        &&& self.out@.len() <= self.max_new_tokens
    }

    /// A run before its first token.
    pub fn start(tok: &SpTokenizer, tools_json: &str, max_new_tokens: usize, constrain: bool) -> (s:
        Session)
        requires
            tok.wf(),
        ensures
            s.wf(),
            s@ == session_start(tok@, tools_json@, max_new_tokens as int, constrain),
    {
        let marks = Marks {
            eos: tok.eos_id,
            im_end: tok.id_of(IM_END),
            call_start: tok.id_of(TOOL_CALL_START),
            call_end: tok.id_of(TOOL_CALL_END),
        };
        let ghost m = tok@;
        let mut grammar: Option<ConstrainedDecoder> = None;
        if constrain {
            let defs = ToolDef::from_json(tools_json);
            if defs.len() > 0 {
                let table = byte_table(tok);
                proof {
                    let t = token_table(m);
                    lemma_numbered_table(t, t.len() as int);
                    assert(numbered(t).take(t.len() as int) =~= numbered(t));
                    assert(text_table(numbered(t)) =~= t);
                }
                grammar =
                Some(ConstrainedDecoder::new(defs.as_slice(), table).with_unique_arg_keys());
            }
            proof {
                assert(tool_views(defs@).len() == defs@.len());
            }
        }
        let s = Session { marks, grammar, in_call: false, out: Vec::new(), max_new_tokens };
        assert(s@ =~= session_start(m, tools_json@, max_new_tokens as int, constrain));
        s
    }

    /// Whether another token may be chosen. Where not, the run is over for
    /// `StopReason::MaxTokens`.
    pub fn wants_token(&self) -> (r: bool)
        ensures
            r == (self@.out.len() < self@.max_new_tokens),
    {
        self.out.len() < self.max_new_tokens
    }

    /// The bias to add to the scores before a token is chosen, as float bits.
    pub fn mask(&self, vocab_size: usize) -> (r: Option<Vec<u32>>)
        requires
            self.wf(),
        ensures
            match session_mask(self@, vocab_size as nat) {
                Some(mask) => r is Some && r->0@ == mask,
                None => r is None,
            },
    {
        match &self.grammar {
            Some(g) => {
                if self.in_call {
                    Some(g.logit_mask(vocab_size))
                } else {
                    None
                }
            },
            None => None,
        }
    }

    /// Take a chosen token, with the model at position `pos`.
    pub fn take_token(&mut self, next: u32, pos: usize, max_seq_len: usize) -> (t: Turn)
        requires
            old(self).wf(),
            old(self)@.out.len() < old(self)@.max_new_tokens,
        ensures
            final(self).wf(),
            t == turn_of(old(self)@.marks, next, pos as int, max_seq_len as int),
            match t {
                Turn::Stop(_) => final(self)@ == old(self)@,
                _ => final(self)@ == session_after(old(self)@, next),
            },
    {
        let ghost before = self@;
        if next == self.marks.eos {
            return Turn::Stop(StopReason::Eos);
        }
        if is_mark(&self.marks.im_end, next) {
            return Turn::Stop(StopReason::ImEnd);
        }
        self.out.push(next);
        if self.grammar.is_some() {
            if is_mark(&self.marks.call_start, next) {
                self.in_call = true;
            } else if is_mark(&self.marks.call_end, next) {
                self.in_call = false;
            } else if self.in_call {
                match &mut self.grammar {
                    Some(g) => {
                        g.update(next);
                    },
                    None => {},
                }
            }
        }
        assert(self@ =~= session_after(before, next));
        if pos >= max_seq_len {
            return Turn::EmitAndStop(StopReason::ContextFull);
        }
        Turn::Feed
    }

    /// The reply of a run that is over.
    pub fn finish(self, tok: &SpTokenizer, prompt_tokens: usize, stop: StopReason) -> (r: V2Result)
        requires
            tok.wf(),
        ensures
            is_reply(r, tok@, self@.out, prompt_tokens, stop),
    {
        let text = tok.decode(self.out.as_slice());
        let tool_call = extract_between(text.as_str(), TOOL_CALL_START, TOOL_CALL_END);
        let thinking = extract_between(text.as_str(), THINK_START, THINK_END);
        V2Result {
            text,
            tool_call,
            thinking,
            token_ids: self.out,
            prompt_tokens,
            stop_reason: stop,
        }
    }
}

/// `r` is the reply that the tokens `out` make.
pub open spec fn is_reply(
    r: V2Result,
    m: TokenizerModel,
    out: Seq<u32>,
    prompt_tokens: usize,
    stop: StopReason,
) -> bool {
    let text = decode_text(m, out);
    &&& r.text@ == text
    &&& match between(text, TOOL_CALL_START@, TOOL_CALL_END@) {
        Some(t) => r.tool_call is Some && r.tool_call->0@ == t,
        None => r.tool_call is None,
    }
    &&& match between(text, THINK_START@, THINK_END@) {
        Some(t) => r.thinking is Some && r.thinking->0@ == t,
        None => r.thinking is None,
    }
    &&& r.token_ids@ == out
    &&& r.prompt_tokens == prompt_tokens
    &&& r.stop_reason == stop
}

/// The state after several tokens became part of the reply.
pub open spec fn session_run(s: SessionModel, tokens: Seq<u32>) -> SessionModel
    decreases tokens.len(),
{
    if tokens.len() == 0 {
        s
    } else {
        session_after(session_run(s, tokens.drop_last()), tokens.last())
    }
}

/// Only tool calls are constrained: with no call opened, every token is free,
/// and the grammar has not moved, whatever the reply holds.
pub proof fn law_only_calls_are_constrained(s: SessionModel, tokens: Seq<u32>, vocab_size: nat)
    requires
        !s.in_call,
        forall|i: int| 0 <= i < tokens.len() ==> s.marks.call_start != Some(#[trigger] tokens[i]),
    ensures
        session_mask(session_run(s, tokens), vocab_size) is None,
        session_run(s, tokens).grammar == s.grammar,
        session_run(s, tokens).out == s.out + tokens,
        session_run(s, tokens).marks == s.marks,
        !session_run(s, tokens).in_call,
    decreases tokens.len(),
{
    if tokens.len() == 0 {
        assert(s.out + tokens =~= s.out);
    } else {
        let before = tokens.drop_last();
        assert forall|i: int| 0 <= i < before.len() implies s.marks.call_start != Some(
            #[trigger] before[i],
        ) by {
            assert(before[i] == tokens[i]);
        }
        law_only_calls_are_constrained(s, before, vocab_size);
        assert(tokens[tokens.len() - 1] == tokens.last());
        assert((s.out + before).push(tokens.last()) =~= s.out + tokens);
    }
}

/// Without a grammar nothing is ever constrained.
pub proof fn law_no_grammar_no_mask(s: SessionModel, tokens: Seq<u32>, vocab_size: nat)
    requires
        s.grammar is None,
    ensures
        session_mask(session_run(s, tokens), vocab_size) is None,
        session_run(s, tokens).grammar is None,
    decreases tokens.len(),
{
    if tokens.len() > 0 {
        law_no_grammar_no_mask(s, tokens.drop_last(), vocab_size);
    }
}

/// Where there are too many ids, the first are kept and in their order; where there are
/// not, all of them are.
pub proof fn law_clipping_keeps_the_first(ids: Seq<u32>, n: int)
    requires
        0 <= n,
    ensures
        clipped(ids, n).len() <= n,
        clipped(ids, n).len() == n || clipped(ids, n).len() == ids.len(),
        forall|i: int| 0 <= i < clipped(ids, n).len() ==> #[trigger] clipped(ids, n)[i] == ids[i],
{
}

/// The tokens that steer a reply are those of their texts: the markers of a call open
/// and close one, and the end of a turn ends it.
pub proof fn law_marks_are_the_tokens_of_their_texts(m: TokenizerModel)
    requires
        m.pieces.len() <= u32::MAX,
    ensures
        ({
            let k = marks_of(m);
            &&& k.eos == m.eos_id
            &&& k.call_start matches Some(id) ==> id < m.pieces.len() && m.pieces[id as int]
                == encode_utf8("<tool_call>"@)
            &&& k.call_end matches Some(id) ==> id < m.pieces.len() && m.pieces[id as int]
                == encode_utf8("</tool_call>"@)
            &&& k.im_end matches Some(id) ==> id < m.pieces.len() && m.pieces[id as int]
                == encode_utf8("<|im_end|>"@)
            &&& k.call_start is None ==> forall|id: int|
                0 <= id < m.pieces.len() ==> #[trigger] m.pieces[id] != encode_utf8("<tool_call>"@)
            &&& k.call_end is None ==> forall|id: int|
                0 <= id < m.pieces.len() ==> #[trigger] m.pieces[id] != encode_utf8(
                    "</tool_call>"@,
                )
            &&& k.im_end is None ==> forall|id: int|
                0 <= id < m.pieces.len() ==> #[trigger] m.pieces[id] != encode_utf8("<|im_end|>"@)
        }),
{
    let n = m.pieces.len() as int;
    lemma_last_index(m.pieces, encode_utf8(TOOL_CALL_START@), n);
    lemma_last_index(m.pieces, encode_utf8(TOOL_CALL_END@), n);
    lemma_last_index(m.pieces, encode_utf8(IM_END@), n);
}

/// The call in a reply is what stands between its first pair of call markers, and the
/// thinking what stands between its first pair of thinking markers.
pub proof fn law_replies_hold_what_their_markers_enclose(
    r: V2Result,
    m: TokenizerModel,
    out: Seq<u32>,
    prompt_tokens: usize,
    stop: StopReason,
    a: Seq<char>,
    mid: Seq<char>,
    b: Seq<char>,
)
    requires
        is_reply(r, m, out, prompt_tokens, stop),
    ensures
        encloses(r.text@, a, "<think>"@, mid, "</think>"@, b) ==> r.thinking is Some
            && r.thinking->0@ == mid,
        encloses(r.text@, a, "<tool_call>"@, mid, "</tool_call>"@, b) ==> r.tool_call is Some
            && r.tool_call->0@ == mid,
{
    if encloses(r.text@, a, "<think>"@, mid, "</think>"@, b) {
        law_what_stands_between_is_taken_out(r.text@, a, "<think>"@, mid, "</think>"@, b);
    }
    if encloses(r.text@, a, "<tool_call>"@, mid, "</tool_call>"@, b) {
        law_what_stands_between_is_taken_out(r.text@, a, "<tool_call>"@, mid, "</tool_call>"@, b);
    }
}

/// A prompt opens with the opening token, and the ids of its text follow.
pub proof fn law_prompts_open_with_the_opening_token(m: TokenizerModel, text: Seq<char>)
    ensures
        opened_ids(m, text).len() == encode_ids(m, text).len() + 1,
        opened_ids(m, text)[0] == m.bos_id,
        opened_ids(m, text).skip(1) == encode_ids(m, text),
{
    assert(opened_ids(m, text).skip(1) =~= encode_ids(m, text));
}

} // verus!
