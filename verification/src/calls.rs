//! What the grammar makes of a tool call as a whole: names and argument keys that
//! are written token by token under the mask are declared ones.

use crate::constrained::{id_fits, is_used, key_words, next_token_mask, some_id_fits, some_unused, DecoderModel, ALLOWED};
use crate::engine::grammar_after;
use crate::json_machine::{json_feed, law_feed_concat, law_span_captures, lemma_inside_span, with_key, JsonModel, JsonState};
use crate::lossy::lossy_text;
use crate::trie::{is_live_prefix, lemma_quote_pos, quote_pos, token_fits};
use vstd::prelude::*;
use vstd::utf8::*;

verus! {

/// Every byte is the text of some token: whatever a word needs next can be
/// written.
pub open spec fn spells_everything(texts: Seq<Seq<u8>>, vocab_size: nat) -> bool {
    forall|b: u8| #[trigger] has_byte_token(texts, vocab_size, b)
}

/// Some token is the byte `b`.
pub open spec fn has_byte_token(texts: Seq<Seq<u8>>, vocab_size: nat, b: u8) -> bool {
    exists|id: int|
        0 <= id < vocab_size && id < texts.len() && #[trigger] texts[id] == seq![b]
}

/// The words that the open span may spell.
pub open spec fn span_words(d: DecoderModel) -> Set<Seq<u8>> {
    if d.sm.state == JsonState::InName {
        d.names
    } else {
        match key_words(d) {
            Some(w) => w,
            None => Set::empty(),
        }
    }
}

/// There is a word, and no word holds a quote.
pub open spec fn can_be_spelled(words: Set<Seq<u8>>) -> bool {
    &&& exists|w: Seq<u8>| words.contains(w)
    &&& forall|w: Seq<u8>, i: int|
        #[trigger] words.contains(w) && 0 <= i < w.len() ==> #[trigger] w[i] != 0x22
}

/// The grammar after some tokens of a call.
pub open spec fn after_tokens(d: DecoderModel, ids: Seq<u32>) -> DecoderModel
    decreases ids.len(),
{
    if ids.len() == 0 {
        d
    } else {
        grammar_after(after_tokens(d, ids.drop_last()), ids.last())
    }
}

/// The bytes that tokens write.
pub open spec fn spelled(texts: Seq<Seq<u8>>, ids: Seq<u32>) -> Seq<u8>
    decreases ids.len(),
{
    if ids.len() == 0 {
        Seq::empty()
    } else {
        spelled(texts, ids.drop_last()) + texts[ids.last() as int]
    }
}

/// Every token is one that the mask allowed when it was chosen.
pub open spec fn follows_mask(d: DecoderModel, vocab_size: nat, ids: Seq<u32>) -> bool
    decreases ids.len(),
{
    ids.len() == 0 || {
        &&& follows_mask(d, vocab_size, ids.drop_last())
        &&& ids.last() < vocab_size
        &&& next_token_mask(after_tokens(d, ids.drop_last()), vocab_size)[ids.last() as int]
            == ALLOWED
    }
}

/// No token closes the span.
pub open spec fn stays_inside(texts: Seq<Seq<u8>>, ids: Seq<u32>) -> bool {
    forall|k: int|
        0 <= k < ids.len() ==> {
            let t = texts[#[trigger] ids[k] as int];
            quote_pos(t) == t.len()
        }
}

/// Where a prefix leads to a word, some token goes on with it.
pub(crate) proof fn lemma_some_token_goes_on(
    words: Set<Seq<u8>>,
    prefix: Seq<u8>,
    texts: Seq<Seq<u8>>,
    vocab_size: nat,
)
    requires
        can_be_spelled(words),
        is_live_prefix(words, prefix),
        spells_everything(texts, vocab_size),
    ensures
        some_id_fits(words, prefix, texts, vocab_size),
{
    let w = if prefix.len() == 0 {
        choose|w: Seq<u8>| words.contains(w)
    } else {
        choose|w: Seq<u8>| #[trigger] words.contains(w) && prefix.is_prefix_of(w)
    };
    assert(words.contains(w) && prefix.is_prefix_of(w));
    let b: u8 = if prefix.len() == w.len() {
        0x22
    } else {
        w[prefix.len() as int]
    };
    let one = seq![b];
    assert(has_byte_token(texts, vocab_size, b));
    let id = choose|id: int|
        0 <= id < vocab_size && id < texts.len() && #[trigger] texts[id] == one;
    assert(texts[id] == one);
    lemma_quote_pos(one);
    if prefix.len() == w.len() {
        assert(quote_pos(one) == 0) by {
            assert(one[0] == 0x22);
        }
        assert(prefix + one.take(0) =~= w);
    } else {
        assert(one[0] == b && b != 0x22);
        assert(one.skip(1) =~= Seq::<u8>::empty());
        assert(quote_pos(one.skip(1)) == 0);
        assert(quote_pos(one) == 1);
        assert((prefix + one).is_prefix_of(w));
        assert(is_live_prefix(words, prefix + one));
    }
    assert(id_fits(words, prefix, texts, id));
}

/// While the tokens stay inside a span, what they spell is the beginning of one
/// of its words.
proof fn lemma_inside(d: DecoderModel, vocab_size: nat, ids: Seq<u32>)
    requires
        d.sm.state != JsonState::Free,
        d.sm.constrained_buf.len() == 0,
        d.sm.state == JsonState::InArgKey ==> key_words(d) is Some,
        can_be_spelled(span_words(d)),
        spells_everything(d.token_texts, vocab_size),
        follows_mask(d, vocab_size, ids),
        stays_inside(d.token_texts, ids),
    ensures
        ({
            let s = spelled(d.token_texts, ids);
            &&& after_tokens(d, ids) == (DecoderModel {
                sm: JsonModel { constrained_buf: s, ..d.sm },
                ..d
            })
            &&& is_live_prefix(span_words(d), s)
            &&& forall|i: int| 0 <= i < s.len() ==> #[trigger] s[i] != 0x22
        }),
    decreases ids.len(),
{
    let texts = d.token_texts;
    if ids.len() == 0 {
        assert(d.sm.constrained_buf =~= Seq::<u8>::empty());
    } else {
        let rest = ids.drop_last();
        let id = ids.last();
        assert forall|k: int| 0 <= k < rest.len() implies {
            let t = texts[#[trigger] rest[k] as int];
            quote_pos(t) == t.len()
        } by {
            assert(rest[k] == ids[k]);
        }
        lemma_inside(d, vocab_size, rest);
        let e = after_tokens(d, rest);
        let p = spelled(texts, rest);
        assert(ids[ids.len() - 1] == id);
        let t = texts[id as int];
        lemma_allowed_fits(d, e, vocab_size, p, id as int);
        lemma_quote_pos(t);
        let s = p + t;
        assert forall|i: int| 0 <= i < s.len() implies #[trigger] s[i] != 0x22 by {
            if i >= p.len() {
                assert(s[i] == t[i - p.len()]);
            }
        }
        lemma_inside_span(d.sm, p);
        lemma_inside_span(d.sm, s);
        law_feed_concat(d.sm, p, t);
        assert(e.sm == json_feed(d.sm, p));
        assert(json_feed(e.sm, t) == json_feed(d.sm, s));
    }
}

/// A token that the mask allows inside a span may follow what is written of it.
proof fn lemma_allowed_fits(
    d: DecoderModel,
    e: DecoderModel,
    vocab_size: nat,
    p: Seq<u8>,
    id: int,
)
    requires
        d.sm.state != JsonState::Free,
        d.sm.state == JsonState::InArgKey ==> key_words(d) is Some,
        can_be_spelled(span_words(d)),
        spells_everything(d.token_texts, vocab_size),
        e == (DecoderModel { sm: JsonModel { constrained_buf: p, ..d.sm }, ..d }),
        is_live_prefix(span_words(d), p),
        0 <= id < vocab_size,
        next_token_mask(e, vocab_size)[id] == ALLOWED,
    ensures
        id < d.token_texts.len(),
        token_fits(span_words(d), p, d.token_texts[id]),
{
    let words = span_words(d);
    assert(span_words(e) == words);
    assert(key_words(e) == key_words(d));
    lemma_some_token_goes_on(words, p, d.token_texts, vocab_size);
    assert(id_fits(words, p, d.token_texts, id));
}

/// A name or a key that is written under the mask, token by token from the
/// opening of its span to its closing quote, is one of the span's words. The
/// vocabulary must have a token for every byte: with nothing that could follow,
/// the mask forbids nothing.
pub proof fn law_spans_spell_their_words(d: DecoderModel, vocab_size: nat, ids: Seq<u32>)
    requires
        d.sm.state != JsonState::Free,
        d.sm.constrained_buf.len() == 0,
        d.sm.state == JsonState::InArgKey ==> key_words(d) is Some,
        can_be_spelled(span_words(d)),
        spells_everything(d.token_texts, vocab_size),
        ids.len() > 0,
        follows_mask(d, vocab_size, ids),
        stays_inside(d.token_texts, ids.drop_last()),
        quote_pos(d.token_texts[ids.last() as int]) < d.token_texts[ids.last() as int].len(),
    ensures
        ({
            let t = d.token_texts[ids.last() as int];
            let word = spelled(d.token_texts, ids.drop_last()) + t.take(quote_pos(t));
            let closed = json_feed(d.sm, word.push(0x22));
            &&& span_words(d).contains(word)
            &&& closed.state == JsonState::Free
            &&& d.sm.state == JsonState::InName ==> closed.current_function == lossy_text(word)
            &&& d.sm.state == JsonState::InArgKey ==> closed.used_arg_keys == with_key(
                d.sm.used_arg_keys,
                word,
            )
        }),
{
    let rest = ids.drop_last();
    let id = ids.last() as int;
    let t = d.token_texts[id];
    let p = spelled(d.token_texts, rest);
    lemma_inside(d, vocab_size, rest);
    lemma_allowed_fits(d, after_tokens(d, rest), vocab_size, p, id);
    lemma_quote_pos(t);
    let word = p + t.take(quote_pos(t));
    assert forall|i: int| 0 <= i < word.len() implies #[trigger] word[i] != 0x22 by {
        if i >= p.len() {
            assert(word[i] == t[i - p.len()]);
        }
    }
    law_span_captures(d.sm, word);
}

/// A call under the mask names a declared tool.
pub proof fn law_calls_name_declared_tools(d: DecoderModel, vocab_size: nat, ids: Seq<u32>)
    requires
        d.sm.state == JsonState::InName,
        d.sm.constrained_buf.len() == 0,
        can_be_spelled(d.names),
        spells_everything(d.token_texts, vocab_size),
        ids.len() > 0,
        follows_mask(d, vocab_size, ids),
        stays_inside(d.token_texts, ids.drop_last()),
        quote_pos(d.token_texts[ids.last() as int]) < d.token_texts[ids.last() as int].len(),
    ensures
        ({
            let t = d.token_texts[ids.last() as int];
            d.names.contains(
                spelled(d.token_texts, ids.drop_last()) + t.take(quote_pos(t)),
            )
        }),
{
    law_spans_spell_their_words(d, vocab_size, ids);
}

/// A call under the mask has declared argument keys, and repeats none while
/// another is unused.
pub proof fn law_calls_have_declared_keys(d: DecoderModel, vocab_size: nat, ids: Seq<u32>)
    requires
        d.sm.state == JsonState::InArgKey,
        d.sm.constrained_buf.len() == 0,
        key_words(d) is Some,
        can_be_spelled(key_words(d)->0),
        spells_everything(d.token_texts, vocab_size),
        ids.len() > 0,
        follows_mask(d, vocab_size, ids),
        stays_inside(d.token_texts, ids.drop_last()),
        quote_pos(d.token_texts[ids.last() as int]) < d.token_texts[ids.last() as int].len(),
    ensures
        ({
            let t = d.token_texts[ids.last() as int];
            let key = spelled(d.token_texts, ids.drop_last()) + t.take(quote_pos(t));
            let keys = d.declared[encode_utf8(d.sm.current_function)];
            &&& keys.contains(key)
            &&& d.unique_arg_keys && some_unused(keys, d.sm.used_arg_keys) ==> !is_used(
                d.sm.used_arg_keys,
                key,
            )
        }),
{
    law_spans_spell_their_words(d, vocab_size, ids);
    let t = d.token_texts[ids.last() as int];
    let key = spelled(d.token_texts, ids.drop_last()) + t.take(quote_pos(t));
    let keys = d.declared[encode_utf8(d.sm.current_function)];
    assert(keys.to_set().contains(key) ==> keys.contains(key));
}

} // verus!
