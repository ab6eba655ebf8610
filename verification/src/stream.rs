//! Text handed out token by token.
//!
//! A byte token may end in the middle of a character. Its text is held back until
//! the character is complete, or the run is over, so that what was handed out is
//! never taken back and the pieces spell the reply.

use crate::lossy::{law_settled_text_stays, lemma_settled_is_start, settled, settled_text, starts_with};
use crate::sp_tokenizer::{decode_text, plain_text, settled_decode, token_text, tokens_text, SpTokenizer, TokenizerModel};
use crate::spaces::unescape_chars;
use crate::text::{chars_of, string_of};
use vstd::prelude::*;
use vstd::slice::slice_subrange;

verus! {

/// The text that goes with the last of the tokens: what was not handed out with
/// the others, up to a character that is not complete. With the last token of a
/// run, that one too.
pub open spec fn piece_text(m: TokenizerModel, ids: Seq<u32>, last: bool) -> Seq<char> {
    let now = if last {
        decode_text(m, ids)
    } else {
        settled_decode(m, ids)
    };
    now.skip(settled_decode(m, ids.drop_last()).len() as int)
}

/// The tokens end with a complete character.
pub open spec fn is_whole(m: TokenizerModel, ids: Seq<u32>) -> bool {
    settled(tokens_text(m, ids)) == tokens_text(m, ids).len()
}

proof fn lemma_plain_start(m: TokenizerModel, b: Seq<char>, a: Seq<char>)
    requires
        starts_with(b, a),
    ensures
        starts_with(plain_text(m, b), plain_text(m, a)),
{
    let (ub, ua) = (unescape_chars(b), unescape_chars(a));
    assert forall|i: int| 0 <= i < a.len() implies a[i] == b[i] by {
        assert(b.take(a.len() as int)[i] == b[i]);
    }
    assert(ub.take(ua.len() as int) =~= ua);
    if a.len() > 0 && ua[0] == ' ' {
        assert(ub[0] == ub.take(ua.len() as int)[0]);
        assert(ub.drop_first().take(ua.drop_first().len() as int) =~= ua.drop_first());
    } else {
        if a.len() > 0 {
            assert(ub[0] == ub.take(ua.len() as int)[0]);
        } else {
            assert(plain_text(m, a) =~= Seq::<char>::empty());
            assert(plain_text(m, b).take(0) =~= Seq::<char>::empty());
        }
    }
}

/// Settled text is the start of all text that follows.
proof fn lemma_grows(m: TokenizerModel, ids: Seq<u32>)
    requires
        ids.len() > 0,
    ensures
        starts_with(decode_text(m, ids), settled_decode(m, ids.drop_last())),
        starts_with(settled_decode(m, ids), settled_decode(m, ids.drop_last())),
{
    let before = tokens_text(m, ids.drop_last());
    let more = token_text(m, ids.last() as int);
    law_settled_text_stays(before, more);
    lemma_plain_start(m, crate::lossy::lossy_text(before + more), settled_text(before));
    lemma_plain_start(m, settled_text(before + more), settled_text(before));
}

proof fn lemma_whole(m: TokenizerModel, ids: Seq<u32>)
    requires
        is_whole(m, ids),
    ensures
        settled_decode(m, ids) == decode_text(m, ids),
        piece_text(m, ids, true) == piece_text(m, ids, false),
{
    let b = tokens_text(m, ids);
    assert(b.take(b.len() as int) =~= b);
}

/// The text that goes with the last of the tokens.
pub fn incremental_piece(tok: &SpTokenizer, ids: &[u32], last: bool) -> (r: String)
    requires
        tok.wf(),
        ids@.len() > 0,
    ensures
        r@ == piece_text(tok@, ids@, last),
{
    let n: usize = ids.len();
    let head = slice_subrange(ids, 0, n - 1);
    assert(head@ =~= ids@.drop_last());
    let before = tok.decode_settled(head).0;
    let now = if last {
        tok.decode(ids)
    } else {
        tok.decode_settled(ids).0
    };
    proof {
        lemma_grows(tok@, ids@);
    }
    let now_chars = chars_of(now.as_str());
    let before_chars = chars_of(before.as_str());
    let total: usize = now_chars.len();
    let r = string_of(&now_chars, before_chars.len(), total);
    assert(r@ =~= now@.skip(before@.len() as int));
    r
}

/// The pieces of the first `n` tokens of a run, one behind the other.
pub open spec fn streamed(m: TokenizerModel, ids: Seq<u32>, n: int) -> Seq<char>
    decreases n,
{
    if n <= 0 {
        Seq::empty()
    } else {
        streamed(m, ids, n - 1) + piece_text(m, ids.take(n), n == ids.len())
    }
}

proof fn lemma_no_text(m: TokenizerModel)
    ensures
        decode_text(m, Seq::empty()) == Seq::<char>::empty(),
        settled_decode(m, Seq::empty()) == Seq::<char>::empty(),
{
    lemma_settled_is_start(tokens_text(m, Seq::empty()));
    assert(decode_text(m, Seq::empty()) =~= Seq::<char>::empty());
    assert(settled_decode(m, Seq::empty()) =~= Seq::<char>::empty());
}

proof fn lemma_streamed(m: TokenizerModel, ids: Seq<u32>, n: int)
    requires
        0 <= n <= ids.len(),
    ensures
        streamed(m, ids, n) == if n == ids.len() {
            decode_text(m, ids)
        } else {
            settled_decode(m, ids.take(n))
        },
    decreases n,
{
    lemma_no_text(m);
    if n == 0 {
        assert(ids.take(0) =~= Seq::<u32>::empty());
        assert(ids.len() == 0 ==> ids =~= Seq::<u32>::empty());
    } else {
        lemma_streamed(m, ids, n - 1);
        let t = ids.take(n);
        assert(t.drop_last() =~= ids.take(n - 1));
        assert(n == ids.len() ==> t =~= ids);
        lemma_grows(m, t);
        let sent = settled_decode(m, t.drop_last());
        let now = if n == ids.len() {
            decode_text(m, t)
        } else {
            settled_decode(m, t)
        };
        assert(sent + now.skip(sent.len() as int) =~= now);
    }
}

/// The streamed pieces of a run spell its text.
pub proof fn law_streamed_pieces_spell_the_text(m: TokenizerModel, ids: Seq<u32>)
    ensures
        streamed(m, ids, ids.len() as int) == decode_text(m, ids),
{
    lemma_streamed(m, ids, ids.len() as int);
}

/// A token and the text that goes with it.
#[derive(Debug, Clone, PartialEq, Eq)]
pub struct Delivery {
    pub id: u32,
    pub piece: String,
}

impl View for Delivery {
    type V = (u32, Seq<char>);

    open spec fn view(&self) -> (u32, Seq<char>) {
        (self.id, self.piece@)
    }
}

/// The deliveries of a list.
pub open spec fn delivery_views(v: Seq<Delivery>) -> Seq<(u32, Seq<char>)> {
    v.map_values(|d: Delivery| d@)
}

/// The deliveries of the first `n` tokens, before the run is over.
pub open spec fn deliveries(m: TokenizerModel, ids: Seq<u32>, n: nat) -> Seq<(u32, Seq<char>)> {
    Seq::new(n, |i: int| (ids[i], piece_text(m, ids.take(i + 1), false)))
}

/// What has been handed out with the tokens so far: everything, or where they end
/// in the middle of a character, everything but the last token.
pub open spec fn delivered(m: TokenizerModel, ids: Seq<u32>) -> Seq<(u32, Seq<char>)> {
    if ids.len() == 0 || is_whole(m, ids) {
        deliveries(m, ids, ids.len())
    } else {
        deliveries(m, ids, (ids.len() - 1) as nat)
    }
}

/// What is handed out over a whole run: every token with its text, in order.
pub open spec fn run_deliveries(m: TokenizerModel, ids: Seq<u32>) -> Seq<(u32, Seq<char>)> {
    Seq::new(ids.len(), |i: int| (ids[i], piece_text(m, ids.take(i + 1), i + 1 == ids.len())))
}

/// The texts of deliveries, one behind the other.
pub open spec fn joined_pieces(d: Seq<(u32, Seq<char>)>) -> Seq<char>
    decreases d.len(),
{
    if d.len() == 0 {
        Seq::empty()
    } else {
        joined_pieces(d.drop_last()) + d.last().1
    }
}

proof fn lemma_joined(m: TokenizerModel, ids: Seq<u32>, n: int)
    requires
        0 <= n <= ids.len(),
    ensures
        joined_pieces(run_deliveries(m, ids).take(n)) == streamed(m, ids, n),
    decreases n,
{
    if n > 0 {
        lemma_joined(m, ids, n - 1);
        let d = run_deliveries(m, ids).take(n);
        assert(d.drop_last() =~= run_deliveries(m, ids).take(n - 1));
    }
}

/// Over a whole run every token is handed out once, in order, and the texts that
/// go with the tokens spell the text of the reply.
pub proof fn law_deliveries_spell_the_reply(m: TokenizerModel, ids: Seq<u32>)
    ensures
        run_deliveries(m, ids).len() == ids.len(),
        forall|i: int| 0 <= i < ids.len() ==> (#[trigger] run_deliveries(m, ids)[i]).0 == ids[i],
        joined_pieces(run_deliveries(m, ids)) == decode_text(m, ids),
{
    lemma_joined(m, ids, ids.len() as int);
    law_streamed_pieces_spell_the_text(m, ids);
    let d = run_deliveries(m, ids);
    assert(d.take(ids.len() as int) =~= d);
}

/// The handing out of a run: a token whose character is not complete waits for
/// the next one.
#[derive(Debug, Clone, PartialEq, Eq)]
pub struct Stream {
    held: Option<Delivery>,
}

impl Stream {
    /// The stream has taken the tokens, and holds back the last one where they
    /// end in the middle of a character.
    pub closed spec fn is_at(&self, m: TokenizerModel, ids: Seq<u32>) -> bool {
        match self.held {
            Some(d) => ids.len() > 0 && !is_whole(m, ids) && d@ == (
                ids.last(),
                piece_text(m, ids, false),
            ),
            None => ids.len() == 0 || is_whole(m, ids),
        }
    }

    /// A stream before the first token.
    pub fn new() -> (s: Stream)
        ensures
            forall|m: TokenizerModel| #[trigger] s.is_at(m, Seq::empty()),
    {
        Stream { held: None }
    }

    /// Take a token, the last of `ids`, and give what is to be handed out now.
    pub fn push(&mut self, tok: &SpTokenizer, ids: &[u32]) -> (out: Vec<Delivery>)
        requires
            tok.wf(),
            ids@.len() > 0,
            old(self).is_at(tok@, ids@.drop_last()),
        ensures
            final(self).is_at(tok@, ids@),
            delivered(tok@, ids@.drop_last()) + delivery_views(out@) == delivered(tok@, ids@),
    {
        let n: usize = ids.len();
        let ghost before = ids@.drop_last();
        let ghost held = self.held;
        let mut out: Vec<Delivery> = Vec::new();
        proof {
            assert forall|k: int| 0 <= k <= before.len() implies #[trigger] before.take(k)
                == ids@.take(k) by {
                assert(before.take(k) =~= ids@.take(k));
            }
            assert(deliveries(tok@, before, before.len()) =~= deliveries(
                tok@,
                ids@,
                before.len(),
            ));
            if before.len() > 0 {
                assert(before.take(before.len() as int) =~= before);
            }
            assert(ids@.take(n as int) =~= ids@);
        }
        match self.held.take() {
            Some(d) => {
                out.push(d);
            },
            None => {},
        }
        assert(delivered(tok@, before) + delivery_views(out@) =~= deliveries(
            tok@,
            ids@,
            before.len(),
        ));
        let ghost waited = delivery_views(out@);
        let piece = incremental_piece(tok, ids, false);
        let d = Delivery { id: ids[n - 1], piece };
        if tok.decode_settled(ids).1 {
            assert(delivery_views(out@.push(d)) =~= waited.push(d@));
            out.push(d);
            assert(delivered(tok@, before) + waited.push(d@) =~= deliveries(
                tok@,
                ids@,
                before.len(),
            ).push(d@));
            assert(deliveries(tok@, ids@, before.len()).push(d@) =~= deliveries(
                tok@,
                ids@,
                n as nat,
            ));
        } else {
            self.held = Some(d);
        }
        out
    }

    /// The run is over: give what is still to be handed out.
    pub fn close(self, tok: &SpTokenizer, ids: &[u32]) -> (r: Option<Delivery>)
        requires
            tok.wf(),
            self.is_at(tok@, ids@),
        ensures
            delivered(tok@, ids@) + match r {
                Some(d) => seq![d@],
                None => Seq::empty(),
            } == run_deliveries(tok@, ids@),
    {
        let n: usize = ids.len();
        let ghost m = tok@;
        let ghost run = run_deliveries(m, ids@);
        proof {
            assert(ids@.take(n as int) =~= ids@);
            if is_whole(m, ids@) {
                lemma_whole(m, ids@);
            }
        }
        match self.held {
            Some(d) => {
                let piece = incremental_piece(tok, ids, true);
                let last = Delivery { id: d.id, piece };
                assert(delivered(m, ids@) + seq![last@] =~= run);
                Some(last)
            },
            None => {
                assert(delivered(m, ids@) =~= run);
                assert(delivered(m, ids@) + Seq::<(u32, Seq<char>)>::empty() =~= run);
                None
            },
        }
    }
}

} // verus!
