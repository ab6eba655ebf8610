//! What holds of the tool calls in a whole reply: the grammar reads what is written
//! in calls and nothing else, and the names that it reads are declared ones.

use crate::calls::{can_be_spelled, lemma_some_token_goes_on, spells_everything};
use crate::bits::f32_greater;
use crate::constrained::{declared_names, id_fits, next_token_mask, DecoderModel, ALLOWED, FORBIDDEN};
use crate::engine::{marks_of, session_after, session_mask, session_run, session_start, token_table, Marks, SessionModel, Turn};
use crate::forward::fed;
use crate::generate::{law_greedy_choices_keep_to_the_mask, lemma_some_argmax, masked, rng_after, GenModel};
use crate::json_machine::{json_feed, json_start, json_step, law_feed_concat, law_function_changes_as_a_name_closes, JsonModel, JsonState};
use crate::lossy::lossy_text;
use crate::pass::Pass;
use crate::sampling::{drawn, is_argmax, mixed, GOLDEN};
use crate::sp_tokenizer::TokenizerModel;
use crate::tools::tools_of;
use crate::trie::{is_live_prefix, lemma_quote_pos, quote_pos, token_fits};
use vstd::arithmetic::div_mod::*;
use vstd::prelude::*;
use vstd::utf8::*;

verus! {

/// A call is open behind these tokens: the last of its two markers among them is the
/// opening one.
pub open spec fn is_call_open(marks: Marks, ids: Seq<u32>) -> bool
    decreases ids.len(),
{
    if ids.len() == 0 {
        false
    } else if marks.call_start == Some(ids.last()) {
        true
    } else if marks.call_end == Some(ids.last()) {
        false
    } else {
        is_call_open(marks, ids.drop_last())
    }
}

/// The bytes that the tokens write inside calls, markers left out.
pub open spec fn written_in_calls(marks: Marks, texts: Seq<Seq<u8>>, ids: Seq<u32>) -> Seq<u8>
    decreases ids.len(),
{
    if ids.len() == 0 {
        Seq::empty()
    } else {
        let before = written_in_calls(marks, texts, ids.drop_last());
        let id = ids.last();
        if marks.call_start != Some(id) && marks.call_end != Some(id) && is_call_open(
            marks,
            ids.drop_last(),
        ) && id < texts.len() {
            before + texts[id as int]
        } else {
            before
        }
    }
}

/// The grammar of a run stands where the bytes written in calls take it, one behind
/// the other from the start; it is in force exactly while a call is open, and
/// nothing of the declared tools is forgotten.
pub proof fn law_the_grammar_reads_what_calls_write(s: SessionModel, ids: Seq<u32>)
    requires
        s.grammar is Some,
        !s.in_call,
    ensures
        ({
            let d = s.grammar->0;
            let t = session_run(s, ids);
            &&& t.in_call == is_call_open(s.marks, ids)
            &&& t.grammar is Some
            &&& t.grammar->0.sm == json_feed(
                d.sm,
                written_in_calls(s.marks, d.token_texts, ids),
            )
            &&& t.grammar->0.names == d.names
            &&& t.grammar->0.declared == d.declared
            &&& t.grammar->0.token_texts == d.token_texts
            &&& t.grammar->0.unique_arg_keys == d.unique_arg_keys
            &&& t.marks == s.marks
            &&& t.out == s.out + ids
        }),
    decreases ids.len(),
{
    let d = s.grammar->0;
    if ids.len() == 0 {
        assert(s.out + ids =~= s.out);
        assert(json_feed(d.sm, Seq::empty()) == d.sm);
    } else {
        let before = ids.drop_last();
        law_the_grammar_reads_what_calls_write(s, before);
        assert((s.out + before).push(ids.last()) =~= s.out + ids);
        if ids.last() < d.token_texts.len() {
            law_feed_concat(
                d.sm,
                written_in_calls(s.marks, d.token_texts, before),
                d.token_texts[ids.last() as int],
            );
        }
    }
}

/// While a call is open, the bias is that of the grammar behind the bytes written in
/// calls; outside of calls there is none.
pub proof fn law_the_mask_is_that_of_what_calls_write(
    s: SessionModel,
    ids: Seq<u32>,
    vocab_size: nat,
)
    requires
        s.grammar is Some,
        !s.in_call,
    ensures
        ({
            let d = s.grammar->0;
            let sm = json_feed(d.sm, written_in_calls(s.marks, d.token_texts, ids));
            session_mask(session_run(s, ids), vocab_size) == if is_call_open(s.marks, ids) {
                Some(next_token_mask(DecoderModel { sm, ..d }, vocab_size))
            } else {
                None
            }
        }),
{
    law_the_grammar_reads_what_calls_write(s, ids);
}

/// Behind the first bytes of a token a name is open only if it was open before: the
/// token opens a name with its last byte or not at all.
pub open spec fn opens_names_last(m: JsonModel, text: Seq<u8>) -> bool {
    forall|j: int|
        0 < j < text.len() && #[trigger] json_feed(m, text.take(j)).state == JsonState::InName
            ==> m.state == JsonState::InName && quote_pos(text) >= j
}

/// Every token of a reply that is written in a call opens a name with its last byte
/// or not at all.
pub open spec fn all_open_names_last(s: SessionModel, ids: Seq<u32>) -> bool {
    let d = s.grammar->0;
    forall|j: int|
        0 <= j < ids.len() && is_call_open(s.marks, #[trigger] ids.take(j)) && ids[j]
            < d.token_texts.len() ==> opens_names_last(
            json_feed(d.sm, written_in_calls(s.marks, d.token_texts, ids.take(j))),
            d.token_texts[ids[j] as int],
        )
}

/// What is open of a name begins a declared one, and the last name that was closed is
/// a declared one.
pub open spec fn keeps_to_names(names: Set<Seq<u8>>, m: JsonModel) -> bool {
    &&& m.state == JsonState::InName ==> is_live_prefix(names, m.constrained_buf)
    &&& m.current_function.len() == 0 || is_declared(names, m.current_function)
}

/// `name` is what a declared name reads as.
pub open spec fn is_declared(names: Set<Seq<u8>>, name: Seq<char>) -> bool {
    exists|w: Seq<u8>| #[trigger] names.contains(w) && lossy_text(w) == name
}

proof fn lemma_feed_one(m: JsonModel, text: Seq<u8>, j: int)
    requires
        0 <= j < text.len(),
    ensures
        json_feed(m, text.take(j + 1)) == json_step(json_feed(m, text.take(j)), text[j]),
{
    assert(text.take(j + 1).drop_last() =~= text.take(j));
    assert(text.take(j + 1).last() == text[j]);
}

proof fn lemma_within_a_name(m: JsonModel, text: Seq<u8>, j: int)
    requires
        m.state == JsonState::InName,
        0 <= j <= quote_pos(text),
        j <= text.len(),
    ensures
        json_feed(m, text.take(j)) == (JsonModel {
            constrained_buf: m.constrained_buf + text.take(j),
            ..m
        }),
    decreases j,
{
    lemma_quote_pos(text);
    if j == 0 {
        assert(text.take(0) =~= Seq::<u8>::empty());
        assert(m.constrained_buf + text.take(0) =~= m.constrained_buf);
    } else {
        lemma_within_a_name(m, text, j - 1);
        lemma_feed_one(m, text, j - 1);
        assert((m.constrained_buf + text.take(j - 1)).push(text[j - 1]) =~= m.constrained_buf
            + text.take(j));
    }
}

/// From a point outside of names on, the rest of a token that opens names last closes
/// none.
proof fn lemma_no_name_closes(m: JsonModel, text: Seq<u8>, i: int, j: int)
    requires
        0 <= i <= j <= text.len(),
        json_feed(m, text.take(i)).state != JsonState::InName,
        forall|k: int|
            i < k < text.len() ==> #[trigger] json_feed(m, text.take(k)).state
                != JsonState::InName,
    ensures
        ({
            let x = json_feed(m, text.take(j));
            &&& x.current_function == json_feed(m, text.take(i)).current_function
            &&& x.state == JsonState::InName ==> x.constrained_buf.len() == 0
        }),
    decreases j,
{
    if j > i {
        lemma_no_name_closes(m, text, i, j - 1);
        lemma_feed_one(m, text, j - 1);
        let y = json_feed(m, text.take(j - 1));
        assert(y.state != JsonState::InName);
        law_function_changes_as_a_name_closes(y, text[j - 1]);
    }
}

/// A token that the mask allows keeps to the names.
proof fn lemma_token_keeps_to_names(d: DecoderModel, vocab_size: nat, id: u32)
    requires
        can_be_spelled(d.names),
        spells_everything(d.token_texts, vocab_size),
        keeps_to_names(d.names, d.sm),
        id < vocab_size,
        id < d.token_texts.len(),
        next_token_mask(d, vocab_size)[id as int] == ALLOWED,
        opens_names_last(d.sm, d.token_texts[id as int]),
    ensures
        keeps_to_names(d.names, json_feed(d.sm, d.token_texts[id as int])),
{
    let t = d.token_texts[id as int];
    let m = d.sm;
    let q = quote_pos(t);
    lemma_quote_pos(t);
    assert(t.take(t.len() as int) =~= t);
    assert(t.take(0) =~= Seq::<u8>::empty());
    assert(json_feed(m, t.take(0)) == m);
    if m.state == JsonState::InName {
        lemma_some_token_goes_on(d.names, m.constrained_buf, d.token_texts, vocab_size);
        assert(id_fits(d.names, m.constrained_buf, d.token_texts, id as int));
        assert(token_fits(d.names, m.constrained_buf, t));
        lemma_within_a_name(m, t, q);
        if q < t.len() {
            let word = m.constrained_buf + t.take(q);
            lemma_feed_one(m, t, q);
            let x = json_feed(m, t.take(q + 1));
            assert(x.state == JsonState::Free && x.current_function == lossy_text(word));
            assert(d.names.contains(word));
            assert forall|k: int| q + 1 < k < t.len() implies #[trigger] json_feed(
                m,
                t.take(k),
            ).state != JsonState::InName by {}
            lemma_no_name_closes(m, t, q + 1, t.len() as int);
        }
    } else {
        lemma_no_name_closes(m, t, 0, t.len() as int);
    }
}

/// The bias decides: whatever is forbidden comes below whatever is allowed.
pub open spec fn bias_decides(g: GenModel) -> bool {
    forall|tokens: Seq<u32>, pos: int, i: int, j: int|
        #![trigger g.scores(tokens, pos)[i], g.scores(tokens, pos)[j]]
        0 <= i < g.m.cfg.vocab_size && 0 <= j < g.m.cfg.vocab_size ==> f32_greater(
            g.n.plus(g.scores(tokens, pos)[i], 0),
            g.n.plus(g.scores(tokens, pos)[j], 0xCE6E_6B28),
        )
}

/// The token chosen in a call is one that the mask allows.
proof fn lemma_choice_is_allowed(
    g: GenModel,
    s: SessionModel,
    tokens: Seq<u32>,
    pos: int,
    rng: u64,
)
    requires
        !f32_greater(g.temperature, 0),
        bias_decides(g),
        0 < g.m.cfg.vocab_size <= u32::MAX,
        s.grammar is Some,
        s.in_call,
    ensures
        ({
            let id = g.next(s, tokens, pos, rng);
            let v = g.m.cfg.vocab_size as nat;
            &&& id < v
            &&& next_token_mask(s.grammar->0, v)[id as int] == ALLOWED
        }),
{
    let v = g.m.cfg.vocab_size as nat;
    let d = s.grammar->0;
    let mask = next_token_mask(d, v);
    let scores = g.scores(tokens, pos);
    assert(scores.len() == v);
    assert(mask.len() == v);
    crate::constrained::law_mask_leaves_a_token(d, v);
    assert forall|i: int, j: int|
        0 <= i < mask.len() && 0 <= j < mask.len() && #[trigger] mask[i] == ALLOWED
            && #[trigger] mask[j] != ALLOWED implies f32_greater(
        g.n.plus(scores[i], mask[i]),
        g.n.plus(scores[j], mask[j]),
    ) by {
        assert(mask[j] == FORBIDDEN);
        assert(f32_greater(
            g.n.plus(g.scores(tokens, pos)[i], 0),
            g.n.plus(g.scores(tokens, pos)[j], 0xCE6E_6B28),
        ));
    }
    law_greedy_choices_keep_to_the_mask(g.n, g.w, scores, mask, g.temperature, rng);
}

/// Where the grammar stands behind some tokens of a reply.
pub open spec fn reads_as(s: SessionModel, ids: Seq<u32>) -> JsonModel {
    json_feed(s.grammar->0.sm, written_in_calls(s.marks, s.grammar->0.token_texts, ids))
}

/// A run that can write every declared name: it has a grammar whose names can be
/// spelt, a token for every byte, and chooses greedily from scores that the bias can
/// decide.
pub open spec fn can_write_names(g: GenModel, s: SessionModel) -> bool {
    &&& s.grammar is Some
    &&& !s.in_call
    &&& s.out.len() == 0
    &&& can_be_spelled(s.grammar->0.names)
    &&& spells_everything(s.grammar->0.token_texts, g.m.cfg.vocab_size as nat)
    &&& !f32_greater(g.temperature, 0)
    &&& bias_decides(g)
    &&& 0 < g.m.cfg.vocab_size <= u32::MAX
}

proof fn lemma_one_more(
    g: GenModel,
    s: SessionModel,
    ids: Seq<u32>,
    tokens: Seq<u32>,
    pos: int,
    rng: u64,
)
    requires
        can_write_names(g, s),
        keeps_to_names(s.grammar->0.names, reads_as(s, ids)),
        ({
            let t = g.next(session_run(s, ids), tokens, pos, rng);
            is_call_open(s.marks, ids) && t < s.grammar->0.token_texts.len() ==> opens_names_last(
                reads_as(s, ids),
                s.grammar->0.token_texts[t as int],
            )
        }),
    ensures
        ({
            let t = g.next(session_run(s, ids), tokens, pos, rng);
            keeps_to_names(s.grammar->0.names, reads_as(s, ids.push(t)))
        }),
{
    let d = s.grammar->0;
    let now = session_run(s, ids);
    let t = g.next(now, tokens, pos, rng);
    let all = ids.push(t);
    assert(all.drop_last() =~= ids);
    law_the_grammar_reads_what_calls_write(s, ids);
    if is_call_open(s.marks, ids) {
        lemma_choice_is_allowed(g, now, tokens, pos, rng);
        if s.marks.call_start != Some(t) && s.marks.call_end != Some(t) && t < d.token_texts.len() {
            lemma_token_keeps_to_names(now.grammar->0, g.m.cfg.vocab_size as nat, t);
            law_feed_concat(
                d.sm,
                written_in_calls(s.marks, d.token_texts, ids),
                d.token_texts[t as int],
            );
        }
    }
}

proof fn lemma_replies_keep_to_names(
    g: GenModel,
    s: SessionModel,
    ids: Seq<u32>,
    tokens: Seq<u32>,
    pos: int,
    rng: u64,
)
    requires
        can_write_names(g, s),
        ids.len() <= s.max_new_tokens,
        forall|j: int|
            0 <= j <= ids.len() ==> keeps_to_names(
                s.grammar->0.names,
                reads_as(s, #[trigger] ids.take(j)),
            ),
        all_open_names_last(s, g.generated(session_run(s, ids), tokens, pos, rng).0),
    ensures
        ({
            let out = g.generated(session_run(s, ids), tokens, pos, rng).0;
            forall|j: int|
                0 <= j <= out.len() ==> keeps_to_names(
                    s.grammar->0.names,
                    reads_as(s, #[trigger] out.take(j)),
                )
        }),
    decreases s.max_new_tokens - ids.len(),
{
    let now = session_run(s, ids);
    let out = g.generated(now, tokens, pos, rng).0;
    law_the_grammar_reads_what_calls_write(s, ids);
    lemma_run_keeps_its_length(s, ids);
    assert(now.out =~= ids);
    if now.out.len() < now.max_new_tokens {
        let t = g.next(now, tokens, pos, rng);
        let all = ids.push(t);
        assert(ids.take(ids.len() as int) =~= ids);
        match g.turn(now, tokens, pos, rng) {
            Turn::Stop(_) => {},
            Turn::EmitAndStop(_) => {
                assert(out =~= all);
                assert(out.take(ids.len() as int) =~= ids);
                assert(out[ids.len() as int] == t);
                lemma_one_more(g, s, ids, tokens, pos, rng);
                lemma_prefixes(s, ids, t);
            },
            Turn::Feed => {
                let next = session_after(now, t);
                assert(all.drop_last() =~= ids);
                assert(session_run(s, all) == next);
                let rest = fed(tokens, pos, seq![t]);
                let r = rng_after(g.temperature, rng);
                assert(out == g.generated(next, rest, pos + 1, r).0);
                crate::generate::law_runs_end_as_reported(g, next, rest, pos + 1, r);
                law_the_grammar_reads_what_calls_write(s, all);
                assert(next.out =~= all);
                assert(out.take(all.len() as int) =~= all);
                assert(out.take(ids.len() as int) =~= ids) by {
                    assert(out.take(ids.len() as int) =~= out.take(all.len() as int).take(
                        ids.len() as int,
                    ));
                }
                assert(out[ids.len() as int] == t) by {
                    assert(out.take(all.len() as int)[ids.len() as int] == out[ids.len() as int]);
                }
                lemma_one_more(g, s, ids, tokens, pos, rng);
                lemma_prefixes(s, ids, t);
                lemma_replies_keep_to_names(g, s, all, rest, pos + 1, r);
            },
        }
    }
}

proof fn lemma_run_keeps_its_length(s: SessionModel, ids: Seq<u32>)
    ensures
        session_run(s, ids).max_new_tokens == s.max_new_tokens,
    decreases ids.len(),
{
    if ids.len() > 0 {
        lemma_run_keeps_its_length(s, ids.drop_last());
    }
}

proof fn lemma_prefixes(s: SessionModel, ids: Seq<u32>, t: u32)
    requires
        s.grammar is Some,
        forall|j: int|
            0 <= j <= ids.len() ==> keeps_to_names(
                s.grammar->0.names,
                reads_as(s, #[trigger] ids.take(j)),
            ),
        keeps_to_names(s.grammar->0.names, reads_as(s, ids.push(t))),
    ensures
        forall|j: int|
            0 <= j <= ids.len() + 1 ==> keeps_to_names(
                s.grammar->0.names,
                reads_as(s, #[trigger] ids.push(t).take(j)),
            ),
{
    let all = ids.push(t);
    assert forall|j: int| 0 <= j <= ids.len() + 1 implies keeps_to_names(
        s.grammar->0.names,
        reads_as(s, #[trigger] all.take(j)),
    ) by {
        if j <= ids.len() {
            assert(all.take(j) =~= ids.take(j));
        } else {
            assert(all.take(j) =~= all);
        }
    }
}

/// The name of some tool of the list.
pub open spec fn is_name_of_a_tool(tools_json: Seq<char>, name: Seq<char>) -> bool {
    exists|k: int|
        0 <= k < tools_of(encode_utf8(tools_json)).len() && lossy_text(
            (#[trigger] tools_of(encode_utf8(tools_json))[k]).snake_name,
        ) == name
}

proof fn lemma_declared_names(tools: Seq<crate::tools::ToolModel>, w: Seq<u8>)
    requires
        declared_names(tools).contains(w),
    ensures
        exists|k: int| 0 <= k < tools.len() && (#[trigger] tools[k]).snake_name == w,
    decreases tools.len(),
{
    if tools.len() > 0 {
        if tools.last().snake_name == w {
            assert(tools[tools.len() - 1].snake_name == w);
        } else {
            lemma_declared_names(tools.drop_last(), w);
            let k = choose|k: int|
                0 <= k < tools.drop_last().len() && (#[trigger] tools.drop_last()[k]).snake_name
                    == w;
            assert(tools[k].snake_name == w);
        }
    }
}

/// Over a whole greedy reply that is held to the declared tools: at every point of
/// it, the name that was closed last in a call is that of a tool of the list, and
/// what stands of an open name begins one. The vocabulary must have a token for every
/// byte, the bias must decide, and no token may open a name and go on with it.
pub proof fn law_replies_name_declared_tools(
    g: GenModel,
    m: TokenizerModel,
    tools_json: Seq<char>,
    max_new_tokens: int,
    tokens: Seq<u32>,
    pos: int,
    rng: u64,
    j: int,
)
    requires
        0 <= max_new_tokens,
        can_write_names(g, session_start(m, tools_json, max_new_tokens, true)),
        all_open_names_last(
            session_start(m, tools_json, max_new_tokens, true),
            g.generated(
                session_start(m, tools_json, max_new_tokens, true),
                tokens,
                pos,
                rng,
            ).0,
        ),
        0 <= j <= g.generated(
            session_start(m, tools_json, max_new_tokens, true),
            tokens,
            pos,
            rng,
        ).0.len(),
    ensures
        ({
            let s = session_start(m, tools_json, max_new_tokens, true);
            let out = g.generated(s, tokens, pos, rng).0;
            let read = json_feed(
                json_start(),
                written_in_calls(marks_of(m), token_table(m), out.take(j)),
            );
            &&& read.current_function.len() > 0 ==> is_name_of_a_tool(
                tools_json,
                read.current_function,
            )
            &&& read.state == JsonState::InName && read.constrained_buf.len() > 0 ==> exists|
                k: int,
            |
                0 <= k < tools_of(encode_utf8(tools_json)).len()
                    && read.constrained_buf.is_prefix_of(
                    (#[trigger] tools_of(encode_utf8(tools_json))[k]).snake_name,
                )
        }),
{
    let s = session_start(m, tools_json, max_new_tokens, true);
    let none = Seq::<u32>::empty();
    let tools = tools_of(encode_utf8(tools_json));
    let names = s.grammar->0.names;
    assert(session_run(s, none) == s);
    assert forall|i: int| 0 <= i <= none.len() implies keeps_to_names(
        names,
        reads_as(s, #[trigger] none.take(i)),
    ) by {
        assert(none.take(i) =~= none);
    }
    lemma_replies_keep_to_names(g, s, none, tokens, pos, rng);
    let out = g.generated(s, tokens, pos, rng).0;
    assert(keeps_to_names(names, reads_as(s, out.take(j))));
    let read = reads_as(s, out.take(j));
    if read.current_function.len() > 0 {
        let w = choose|w: Seq<u8>|
            #[trigger] names.contains(w) && lossy_text(w) == read.current_function;
        lemma_declared_names(tools, w);
    }
    if read.state == JsonState::InName && read.constrained_buf.len() > 0 {
        let w = choose|w: Seq<u8>|
            #[trigger] names.contains(w) && read.constrained_buf.is_prefix_of(w);
        lemma_declared_names(tools, w);
    }
}

/// A generator state `k` steps on.
pub open spec fn stepped(rng: u64, k: int) -> u64 {
    ((rng + k * 0x9E37_79B9_7F4A_7C15) % 0x1_0000_0000_0000_0000) as u64
}

proof fn lemma_stepped(rng: u64, k: int)
    requires
        0 <= k,
    ensures
        stepped(rng, 0) == rng,
        stepped(rng, 1) == rng.wrapping_add(GOLDEN),
        stepped(rng.wrapping_add(GOLDEN), k) == stepped(rng, k + 1),
{
    let m = 0x1_0000_0000_0000_0000int;
    let g = 0x9E37_79B9_7F4A_7C15int;
    lemma_small_mod(rng as nat, m as nat);
    assert(rng.wrapping_add(GOLDEN) as int == (rng + g) % m);
    lemma_add_mod_noop(rng + g, k * g, m);
    lemma_add_mod_noop((rng + g) % m, k * g, m);
    lemma_mod_twice(rng + g, m);
    assert(rng + g + k * g == rng + (k + 1) * g) by (nonlinear_arith);
}

/// The score list that token `j` of a reply is chosen from: that of the model at the
/// last of the tokens before it, with the bias of the calls so far.
pub open spec fn scores_before(
    g: GenModel,
    s: SessionModel,
    tokens: Seq<u32>,
    pos: int,
    reply: Seq<u32>,
    j: int,
) -> Seq<u32> {
    let before = reply.take(j);
    let p = Pass {
        n: g.n,
        o: g.o,
        m: g.m,
        window: g.window,
        tokens: fed(tokens, pos, before),
    };
    let scores = p.scores(pos + j - 1);
    match session_mask(session_run(s, before), g.m.cfg.vocab_size as nat) {
        Some(bias) => Seq::new(scores.len(), |i: int| g.n.plus(scores[i], bias[i])),
        None => scores,
    }
}

/// Token `j` of a reply is the one that its scores call for.
pub open spec fn is_called_for(
    g: GenModel,
    s: SessionModel,
    tokens: Seq<u32>,
    pos: int,
    rng: u64,
    reply: Seq<u32>,
    j: int,
) -> bool {
    let scores = scores_before(g, s, tokens, pos, reply, j);
    if f32_greater(g.temperature, 0) {
        reply[j] as int == drawn(
            g.n,
            g.w,
            scores,
            g.temperature,
            mixed(stepped(rng, j + 1)) >> 11,
        )
    } else {
        is_argmax(scores, reply[j] as int)
    }
}

proof fn lemma_run_from_next(s: SessionModel, t: u32, rest: Seq<u32>)
    ensures
        session_run(s, seq![t] + rest) == session_run(session_after(s, t), rest),
    decreases rest.len(),
{
    let all = seq![t] + rest;
    if rest.len() == 0 {
        assert(all.drop_last() =~= Seq::<u32>::empty());
        assert(session_run(s, all.drop_last()) == s);
    } else {
        lemma_run_from_next(s, t, rest.drop_last());
        assert(all.drop_last() =~= seq![t] + rest.drop_last());
        assert(all.last() == rest.last());
    }
}

proof fn lemma_first_is_called_for(
    g: GenModel,
    s: SessionModel,
    tokens: Seq<u32>,
    pos: int,
    rng: u64,
    reply: Seq<u32>,
)
    requires
        0 < g.m.cfg.vocab_size <= u32::MAX,
        reply.len() > 0,
        reply[0] == g.next(s, tokens, pos, rng),
    ensures
        is_called_for(g, s, tokens, pos, rng, reply, 0),
{
    let none = reply.take(0);
    assert(none =~= Seq::<u32>::empty());
    assert(fed(tokens, pos, none) =~= tokens);
    assert(session_run(s, none) == s);
    let mask = session_mask(s, g.m.cfg.vocab_size as nat);
    let m = masked(g.n, g.scores(tokens, pos), mask);
    let scores = scores_before(g, s, tokens, pos, reply, 0);
    assert(scores =~= m);
    lemma_stepped(rng, 0);
    if f32_greater(g.temperature, 0) {
        crate::sampling::law_draws_stay_in_range(
            g.n,
            g.w,
            m,
            g.temperature,
            mixed(rng.wrapping_add(GOLDEN)) >> 11,
        );
    } else {
        lemma_some_argmax(m);
        assert(is_argmax(m, crate::generate::argmax_of(m)));
    }
}

proof fn lemma_rest_is_called_for(
    g: GenModel,
    s: SessionModel,
    tokens: Seq<u32>,
    pos: int,
    rng: u64,
    t: u32,
    rest: Seq<u32>,
    j: int,
)
    requires
        0 <= j < rest.len(),
        is_called_for(
            g,
            session_after(s, t),
            fed(tokens, pos, seq![t]),
            pos + 1,
            rng_after(g.temperature, rng),
            rest,
            j,
        ),
    ensures
        is_called_for(g, s, tokens, pos, rng, seq![t] + rest, j + 1),
{
    let all = seq![t] + rest;
    assert(all.take(j + 1) =~= seq![t] + rest.take(j));
    assert(fed(fed(tokens, pos, seq![t]), pos + 1, rest.take(j)) =~= fed(
        tokens,
        pos,
        all.take(j + 1),
    ));
    lemma_run_from_next(s, t, rest.take(j));
    lemma_stepped(rng, j + 1);
}

/// Every token of a reply is chosen from the scores of the model over the prompt and
/// the reply before it, at its last position, and with the bias of the calls so far:
/// the largest, or at a temperature the one that the next number of the generator
/// draws.
pub proof fn law_replies_follow_the_scores(
    g: GenModel,
    s: SessionModel,
    tokens: Seq<u32>,
    pos: int,
    rng: u64,
    j: int,
)
    requires
        0 < g.m.cfg.vocab_size <= u32::MAX,
        s.out.len() <= s.max_new_tokens,
        s.out.len() <= j < g.generated(s, tokens, pos, rng).0.len(),
    ensures
        is_called_for(
            g,
            s,
            tokens,
            pos,
            rng,
            g.generated(s, tokens, pos, rng).0.skip(s.out.len() as int),
            j - s.out.len(),
        ),
    decreases s.max_new_tokens - s.out.len(),
{
    let out = g.generated(s, tokens, pos, rng).0;
    let reply = out.skip(s.out.len() as int);
    crate::generate::law_runs_end_as_reported(g, s, tokens, pos, rng);
    let t = g.next(s, tokens, pos, rng);
    match g.turn(s, tokens, pos, rng) {
        Turn::Stop(_) => {},
        Turn::EmitAndStop(_) => {
            assert(reply[0] == t);
            lemma_first_is_called_for(g, s, tokens, pos, rng, reply);
        },
        Turn::Feed => {
            let next = session_after(s, t);
            let after = fed(tokens, pos, seq![t]);
            let r = rng_after(g.temperature, rng);
            crate::generate::law_runs_end_as_reported(g, next, after, pos + 1, r);
            assert(out == g.generated(next, after, pos + 1, r).0);
            assert(out[s.out.len() as int] == t) by {
                assert(out.take(next.out.len() as int)[s.out.len() as int] == next.out[s.out.len() as int]);
            }
            let rest = out.skip(next.out.len() as int);
            assert(reply =~= seq![t] + rest);
            if j == s.out.len() {
                lemma_first_is_called_for(g, s, tokens, pos, rng, reply);
            } else {
                law_replies_follow_the_scores(g, next, after, pos + 1, r, j);
                lemma_rest_is_called_for(g, s, tokens, pos, rng, t, rest, j - next.out.len());
            }
        },
    }
}

} // verus!
