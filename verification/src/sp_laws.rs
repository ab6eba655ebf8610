//! What holds of encoding and decoding as a whole.

use crate::bits::{f32_key, f32_nan};
use crate::sp_codec::lemma_marker_at;
use crate::sp_tokenizer::{best_pair, byte_fallback_id, byte_piece, byte_value, characters, decode_text, encode_ids, escaped, first_width, join_at, joined, marker_at, markers_not_empty, merge_all, model_wf, pair_score, raw_token_bytes, scan_ids, segment_ids, surface_id, symbol_ids, symbols_ids, token_text, tokens_text, TokenizerModel, TK_BYTE, TK_CONTROL, TK_UNKNOWN, TK_USER_DEFINED};
use crate::spaces::{escape_chars, law_unescape_undoes_escape, lemma_unescape_encoding, meta_char, strip_space, unescape_chars};
use crate::lossy::{lemma_lossy_of_valid, lossy_text};
use crate::text::occurs_at;
use crate::word_map::lemma_last_index;
use vstd::prelude::*;
use vstd::utf8::*;

verus! {

/// Every id is a piece of the table.
pub open spec fn all_in_table(m: TokenizerModel, ids: Seq<u32>) -> bool {
    forall|k: int| 0 <= k < ids.len() ==> (#[trigger] ids[k]) < m.pieces.len()
}

proof fn lemma_in_table_add(m: TokenizerModel, a: Seq<u32>, b: Seq<u32>)
    requires
        all_in_table(m, a),
        all_in_table(m, b),
    ensures
        all_in_table(m, a + b),
{
    assert forall|k: int| 0 <= k < (a + b).len() implies (#[trigger] (a + b)[k]) < m.pieces.len() by {
        if k < a.len() {
            assert((a + b)[k] == a[k]);
        } else {
            assert((a + b)[k] == b[k - a.len()]);
        }
    }
}

proof fn lemma_byte_piece(m: TokenizerModel, b: u8, n: int)
    ensures
        byte_piece(m, b, n) matches Some(i) ==> 0 <= i < n && m.types[i] == TK_BYTE && byte_value(
            m.pieces[i],
        ) == Some(b as int),
        byte_piece(m, b, n) is None ==> forall|i: int|
            0 <= i < n && #[trigger] m.types[i] == TK_BYTE ==> byte_value(m.pieces[i]) != Some(
                b as int,
            ),
    decreases n,
{
    if n > 0 {
        lemma_byte_piece(m, b, n - 1);
    }
}

proof fn lemma_symbol_in_table(m: TokenizerModel, sym: Seq<u8>)
    requires
        model_wf(m),
    ensures
        all_in_table(m, symbol_ids(m, sym)),
{
    lemma_last_index(m.pieces, sym, m.pieces.len() as int);
    if surface_id(m, sym) is None && m.byte_fallback {
        let ids = symbol_ids(m, sym);
        assert forall|k: int| 0 <= k < ids.len() implies (#[trigger] ids[k]) < m.pieces.len() by {
            lemma_byte_piece(m, sym[k], m.pieces.len() as int);
        }
    }
}

proof fn lemma_symbols_in_table(m: TokenizerModel, syms: Seq<Seq<u8>>)
    requires
        model_wf(m),
    ensures
        all_in_table(m, symbols_ids(m, syms)),
    decreases syms.len(),
{
    if syms.len() > 0 {
        lemma_symbols_in_table(m, syms.drop_last());
        lemma_symbol_in_table(m, syms.last());
        lemma_in_table_add(m, symbols_ids(m, syms.drop_last()), symbol_ids(m, syms.last()));
    }
}

proof fn lemma_scan_in_table(m: TokenizerModel, s: Seq<u8>, i: int, pending: Seq<u8>)
    requires
        model_wf(m),
    ensures
        all_in_table(m, scan_ids(m, s, i, pending)),
    decreases s.len() - i,
{
    lemma_symbols_in_table(m, merge_all(m, characters(pending)));
    if 0 <= i < s.len() {
        lemma_marker_at(m, s, i);
        match marker_at(m, s, i) {
            Some(id) => {
                let next = i + m.pieces[id].len();
                if i < next <= s.len() {
                    lemma_scan_in_table(m, s, next, Seq::empty());
                    lemma_in_table_add(m, segment_ids(m, pending), seq![id as u32]);
                    lemma_in_table_add(
                        m,
                        segment_ids(m, pending) + seq![id as u32],
                        scan_ids(m, s, next, Seq::empty()),
                    );
                }
            },
            None => {
                let w = first_width(s.skip(i));
                lemma_scan_in_table(m, s, i + w, pending + s.subrange(i, i + w));
            },
        }
    }
}

/// Encoding never emits an id outside the piece table.
pub proof fn law_encoded_ids_are_in_the_table(m: TokenizerModel, text: Seq<char>)
    requires
        model_wf(m),
    ensures
        all_in_table(m, encode_ids(m, text)),
{
    lemma_scan_in_table(m, escaped(m, text), 0, Seq::empty());
}

/// A row of symbols as one text.
pub open spec fn concat(syms: Seq<Seq<u8>>) -> Seq<u8>
    decreases syms.len(),
{
    if syms.len() == 0 {
        Seq::empty()
    } else {
        concat(syms.drop_last()) + syms.last()
    }
}

proof fn lemma_concat_add(a: Seq<Seq<u8>>, b: Seq<Seq<u8>>)
    ensures
        concat(a + b) == concat(a) + concat(b),
    decreases b.len(),
{
    if b.len() == 0 {
        assert(a + b =~= a);
        assert(concat(a) + concat(b) =~= concat(a));
    } else {
        lemma_concat_add(a, b.drop_last());
        assert((a + b).drop_last() =~= a + b.drop_last());
        assert((concat(a) + concat(b.drop_last())) + b.last() =~= concat(a) + (concat(
            b.drop_last(),
        ) + b.last()));
    }
}

proof fn lemma_concat_one(s: Seq<u8>)
    ensures
        concat(seq![s]) == s,
{
    assert(seq![s].drop_last() =~= Seq::<Seq<u8>>::empty());
    assert(concat(seq![s].drop_last()) + s =~= s);
}

/// Cutting a text into characters loses nothing.
pub proof fn law_characters_keep_the_text(s: Seq<u8>)
    ensures
        concat(characters(s)) == s,
    decreases s.len(),
{
    if s.len() > 0 {
        let w = first_width(s);
        law_characters_keep_the_text(s.skip(w));
        lemma_concat_add(seq![s.take(w)], characters(s.skip(w)));
        lemma_concat_one(s.take(w));
        assert(s.take(w) + s.skip(w) =~= s);
    }
}

proof fn lemma_join_concat(syms: Seq<Seq<u8>>, j: int)
    requires
        0 <= j < syms.len() - 1,
    ensures
        concat(join_at(syms, j)) == concat(syms),
{
    let head = syms.take(j);
    let tail = syms.skip(j + 2);
    lemma_concat_add(head + seq![joined(syms, j)], tail);
    lemma_concat_add(head, seq![joined(syms, j)]);
    lemma_concat_one(joined(syms, j));
    let pair = seq![syms[j], syms[j + 1]];
    assert(pair =~= seq![syms[j]] + seq![syms[j + 1]]);
    lemma_concat_add(seq![syms[j]], seq![syms[j + 1]]);
    lemma_concat_one(syms[j]);
    lemma_concat_one(syms[j + 1]);
    lemma_concat_add(head, pair);
    lemma_concat_add(head + pair, tail);
    assert(head + pair + tail =~= syms);
}

/// Merging symbols loses nothing.
pub proof fn law_merging_keeps_the_text(m: TokenizerModel, syms: Seq<Seq<u8>>)
    ensures
        concat(merge_all(m, syms)) == concat(syms),
    decreases syms.len(),
{
    match best_pair(m, syms, syms.len() - 1) {
        Some(j) => {
            if 0 <= j < syms.len() - 1 {
                lemma_join_concat(syms, j);
                law_merging_keeps_the_text(m, join_at(syms, j));
            }
        },
        None => {},
    }
}

/// On well-formed text the symbols that merging starts from are the encodings
/// of the characters, one each.
pub proof fn law_symbols_start_as_characters(cs: Seq<char>)
    ensures
        characters(encode_utf8(cs)) == cs.map_values(|c: char| encode_scalar(c as u32)),
    decreases cs.len(),
{
    let b = encode_utf8(cs);
    let want = cs.map_values(|c: char| encode_scalar(c as u32));
    if cs.len() == 0 {
        assert(characters(b) =~= want);
    } else {
        encode_utf8_first_scalar(cs);
        let n = encode_scalar(cs[0] as u32).len() as int;
        assert(first_width(b) == n);
        assert(b.take(n) =~= encode_scalar(cs[0] as u32));
        assert(b.skip(n) =~= encode_utf8(cs.drop_first()));
        law_symbols_start_as_characters(cs.drop_first());
        assert(characters(b) =~= want);
    }
}

/// Among pairs whose scores are numbers, the pair that is joined is a leftmost
/// one of greatest score.
pub proof fn law_leftmost_best_pair_is_joined(m: TokenizerModel, syms: Seq<Seq<u8>>, k: int)
    requires
        forall|j: int|
            0 <= j < k && (#[trigger] pair_score(m, syms, j)) is Some ==> !f32_nan(
                pair_score(m, syms, j)->0,
            ),
    ensures
        match best_pair(m, syms, k) {
            Some(p) => 0 <= p < k && pair_score(m, syms, p) is Some && forall|j: int|
                0 <= j < k && (#[trigger] pair_score(m, syms, j)) is Some ==> f32_key(
                    pair_score(m, syms, j)->0,
                ) < f32_key(pair_score(m, syms, p)->0) || (f32_key(pair_score(m, syms, j)->0)
                    == f32_key(pair_score(m, syms, p)->0) && p <= j),
            None => forall|j: int| 0 <= j < k ==> (#[trigger] pair_score(m, syms, j)) is None,
        },
    decreases k,
{
    if k > 0 {
        law_leftmost_best_pair_is_joined(m, syms, k - 1);
    }
}

proof fn lemma_tokens_text_add(m: TokenizerModel, a: Seq<u32>, b: Seq<u32>)
    ensures
        tokens_text(m, a + b) == tokens_text(m, a) + tokens_text(m, b),
    decreases b.len(),
{
    if b.len() == 0 {
        assert(a + b =~= a);
        assert(tokens_text(m, a) + tokens_text(m, b) =~= tokens_text(m, a));
    } else {
        lemma_tokens_text_add(m, a, b.drop_last());
        assert((a + b).drop_last() =~= a + b.drop_last());
        let t = token_text(m, b.last() as int);
        assert((tokens_text(m, a) + tokens_text(m, b.drop_last())) + t =~= tokens_text(m, a) + (
        tokens_text(m, b.drop_last()) + t));
    }
}

proof fn lemma_tokens_text_one(m: TokenizerModel, id: u32)
    ensures
        tokens_text(m, seq![id]) == token_text(m, id as int),
{
    assert(seq![id].drop_last() =~= Seq::<u32>::empty());
    assert(tokens_text(m, seq![id].drop_last()) + token_text(m, id as int) =~= token_text(
        m,
        id as int,
    ));
}

/// The ids of a symbol spell the symbol.
pub open spec fn is_faithful(m: TokenizerModel, sym: Seq<u8>) -> bool {
    tokens_text(m, symbol_ids(m, sym)) == sym
}

/// Every symbol that a segment is cut into is spelt by its ids.
pub open spec fn is_segment_faithful(m: TokenizerModel, segment: Seq<u8>) -> bool {
    let syms = merge_all(m, characters(segment));
    forall|k: int| 0 <= k < syms.len() ==> is_faithful(m, #[trigger] syms[k])
}

/// Every segment between markers is spelt by its ids.
pub open spec fn is_scan_faithful(
    m: TokenizerModel,
    s: Seq<u8>,
    i: int,
    pending: Seq<u8>,
) -> bool
    decreases s.len() - i,
{
    if i < 0 || i >= s.len() {
        is_segment_faithful(m, pending)
    } else {
        match marker_at(m, s, i) {
            Some(id) => {
                let next = i + m.pieces[id].len();
                next > i && next <= s.len() && is_segment_faithful(m, pending) && is_scan_faithful(
                    m,
                    s,
                    next,
                    Seq::empty(),
                )
            },
            None => {
                let w = first_width(s.skip(i));
                is_scan_faithful(m, s, i + w, pending + s.subrange(i, i + w))
            },
        }
    }
}

/// Every symbol of the encoded text is spelt by its ids: none was the surface
/// of a control, unknown or byte piece, and none was unknown.
pub open spec fn is_text_faithful(m: TokenizerModel, text: Seq<char>) -> bool {
    is_scan_faithful(m, escaped(m, text), 0, Seq::empty())
}

proof fn lemma_symbols_text(m: TokenizerModel, syms: Seq<Seq<u8>>)
    requires
        forall|k: int| 0 <= k < syms.len() ==> is_faithful(m, #[trigger] syms[k]),
    ensures
        tokens_text(m, symbols_ids(m, syms)) == concat(syms),
    decreases syms.len(),
{
    if syms.len() > 0 {
        let init = syms.drop_last();
        assert forall|k: int| 0 <= k < init.len() implies is_faithful(m, #[trigger] init[k]) by {
            assert(init[k] == syms[k]);
        }
        lemma_symbols_text(m, init);
        lemma_tokens_text_add(m, symbols_ids(m, init), symbol_ids(m, syms.last()));
        assert(is_faithful(m, syms[syms.len() - 1]));
    }
}

proof fn lemma_segment_text(m: TokenizerModel, segment: Seq<u8>)
    requires
        is_segment_faithful(m, segment),
    ensures
        tokens_text(m, segment_ids(m, segment)) == segment,
{
    lemma_symbols_text(m, merge_all(m, characters(segment)));
    law_merging_keeps_the_text(m, characters(segment));
    law_characters_keep_the_text(segment);
}

proof fn lemma_scan_text(m: TokenizerModel, s: Seq<u8>, i: int, pending: Seq<u8>)
    requires
        model_wf(m),
        0 <= i <= s.len(),
        is_scan_faithful(m, s, i, pending),
    ensures
        tokens_text(m, scan_ids(m, s, i, pending)) == pending + s.skip(i),
    decreases s.len() - i,
{
    if i == s.len() {
        lemma_segment_text(m, pending);
        assert(pending + s.skip(i) =~= pending);
    } else {
        lemma_marker_at(m, s, i);
        match marker_at(m, s, i) {
            Some(id) => {
                let next = i + m.pieces[id].len();
                lemma_segment_text(m, pending);
                lemma_scan_text(m, s, next, Seq::empty());
                let seg = segment_ids(m, pending);
                let one = seq![id as u32];
                lemma_tokens_text_add(m, seg + one, scan_ids(m, s, next, Seq::empty()));
                lemma_tokens_text_add(m, seg, one);
                lemma_tokens_text_one(m, id as u32);
                assert(token_text(m, id) == m.pieces[id]);
                assert(pending + s.skip(i) =~= (pending + m.pieces[id]) + (Seq::<u8>::empty()
                    + s.skip(next))) by {
                    assert(s.skip(i) =~= s.subrange(i, next) + s.skip(next));
                }
            },
            None => {
                let w = first_width(s.skip(i));
                lemma_scan_text(m, s, i + w, pending + s.subrange(i, i + w));
                assert((pending + s.subrange(i, i + w)) + s.skip(i + w) =~= pending + s.skip(i));
            },
        }
    }
}

/// Decoding gives back what was encoded: any text without a visible space of
/// its own, all of whose symbols are spelt by their ids.
pub proof fn law_decode_undoes_encode(m: TokenizerModel, text: Seq<char>)
    requires
        model_wf(m),
        !text.contains(meta_char()),
        text.len() > 0 ==> is_text_faithful(m, text),
    ensures
        decode_text(m, encode_ids(m, text)) == text,
{
    if text.len() == 0 {
        assert(encode_ids(m, text) =~= Seq::<u32>::empty());
        assert(tokens_text(m, encode_ids(m, text)) =~= Seq::<u8>::empty());
        assert(decode_utf8(Seq::<u8>::empty()) =~= Seq::<char>::empty());
        assert(unescape_chars(Seq::<char>::empty()) =~= Seq::<char>::empty());
        assert(decode_text(m, encode_ids(m, text)) =~= text);
    } else {
        let s = escaped(m, text);
        lemma_scan_text(m, s, 0, Seq::empty());
        assert(Seq::<u8>::empty() + s.skip(0) =~= s);
        let chars = if m.add_dummy_prefix {
            seq![meta_char()] + escape_chars(text)
        } else {
            escape_chars(text)
        };
        encode_utf8_valid_utf8(chars);
        encode_utf8_decode_utf8(chars);
        lemma_lossy_of_valid(encode_utf8(chars));
        law_unescape_undoes_escape(text);
        if m.add_dummy_prefix {
            assert(unescape_chars(chars) =~= seq![' '] + unescape_chars(escape_chars(text)));
            assert((seq![' '] + text).drop_first() =~= text);
        }
    }
}

/// A byte that has a piece of its own is spelt by it.
proof fn lemma_fallback_text(m: TokenizerModel, sym: Seq<u8>)
    requires
        model_wf(m),
        forall|b: u8| (#[trigger] byte_piece(m, b, m.pieces.len() as int)) is Some,
    ensures
        tokens_text(m, sym.map_values(|b: u8| byte_fallback_id(m, b))) == sym,
    decreases sym.len(),
{
    let ids = sym.map_values(|b: u8| byte_fallback_id(m, b));
    if sym.len() > 0 {
        lemma_fallback_text(m, sym.drop_last());
        assert(ids.drop_last() =~= sym.drop_last().map_values(|b: u8| byte_fallback_id(m, b)));
        let b = sym.last();
        lemma_byte_piece(m, b, m.pieces.len() as int);
        assert(token_text(m, ids.last() as int) == seq![b]);
        assert(sym.drop_last() + seq![b] =~= sym);
    } else {
        assert(ids =~= Seq::<u32>::empty());
    }
}

/// `piece` is text that stands for itself when decoded.
pub open spec fn is_plain(m: TokenizerModel, id: int) -> bool {
    m.types[id] != TK_BYTE && m.types[id] != TK_CONTROL && m.types[id] != TK_UNKNOWN
}

/// With byte fallback and a piece for every byte, a symbol is spelt by its ids
/// unless it is the surface of a control, unknown or byte piece.
pub proof fn law_byte_fallback_spells_everything(m: TokenizerModel, sym: Seq<u8>)
    requires
        model_wf(m),
        m.byte_fallback,
        forall|b: u8| (#[trigger] byte_piece(m, b, m.pieces.len() as int)) is Some,
        surface_id(m, sym) matches Some(id) ==> is_plain(m, id),
    ensures
        is_faithful(m, sym),
{
    lemma_last_index(m.pieces, sym, m.pieces.len() as int);
    match surface_id(m, sym) {
        Some(id) => {
            lemma_tokens_text_one(m, id as u32);
        },
        None => {
            lemma_fallback_text(m, sym);
        },
    }
}

/// No piece that does not stand for itself occurs in `s`.
pub open spec fn only_plain_surfaces(m: TokenizerModel, s: Seq<u8>) -> bool {
    forall|id: int, j: int|
        0 <= id < m.pieces.len() && m.pieces[id].len() > 0 && !is_plain(m, id)
            ==> !(#[trigger] occurs_at(s, m.pieces[id], j))
}

/// No symbol is empty.
spec fn none_empty(syms: Seq<Seq<u8>>) -> bool {
    forall|k: int| 0 <= k < syms.len() ==> (#[trigger] syms[k]).len() > 0
}

proof fn lemma_characters_not_empty(s: Seq<u8>)
    ensures
        none_empty(characters(s)),
    decreases s.len(),
{
    if s.len() > 0 {
        let w = first_width(s);
        let rest = characters(s.skip(w));
        lemma_characters_not_empty(s.skip(w));
        let all = characters(s);
        assert forall|k: int| 0 <= k < all.len() implies (#[trigger] all[k]).len() > 0 by {
            if k > 0 {
                assert(all[k] == rest[k - 1]);
            }
        }
    }
}

proof fn lemma_merged_not_empty(m: TokenizerModel, syms: Seq<Seq<u8>>)
    requires
        none_empty(syms),
    ensures
        none_empty(merge_all(m, syms)),
    decreases syms.len(),
{
    match best_pair(m, syms, syms.len() - 1) {
        Some(j) => {
            if 0 <= j < syms.len() - 1 {
                let next = join_at(syms, j);
                assert forall|k: int| 0 <= k < next.len() implies (#[trigger] next[k]).len() > 0 by {
                    if k < j {
                        assert(next[k] == syms[k]);
                    } else if k == j {
                        assert(syms[j].len() > 0);
                    } else {
                        assert(next[k] == syms[k + 1]);
                    }
                }
                lemma_merged_not_empty(m, next);
            }
        },
        None => {},
    }
}

/// A symbol stands where the ones before it end.
proof fn lemma_symbol_occurs(syms: Seq<Seq<u8>>, k: int)
    requires
        0 <= k < syms.len(),
    ensures
        occurs_at(concat(syms), syms[k], concat(syms.take(k)).len() as int),
    decreases syms.len(),
{
    if k == syms.len() - 1 {
        assert(syms.take(k) =~= syms.drop_last());
        let c = concat(syms);
        assert(c.subrange(concat(syms.drop_last()).len() as int, c.len() as int) =~= syms.last());
    } else {
        let init = syms.drop_last();
        lemma_symbol_occurs(init, k);
        assert(init.take(k) =~= syms.take(k));
        let at = concat(syms.take(k)).len() as int;
        let n = syms[k].len() as int;
        assert(concat(syms).subrange(at, at + n) =~= concat(init).subrange(at, at + n));
    }
}

proof fn lemma_segment_spelt(m: TokenizerModel, s: Seq<u8>, at: int, segment: Seq<u8>)
    requires
        model_wf(m),
        m.byte_fallback,
        forall|b: u8| (#[trigger] byte_piece(m, b, m.pieces.len() as int)) is Some,
        only_plain_surfaces(m, s),
        occurs_at(s, segment, at),
    ensures
        is_segment_faithful(m, segment),
{
    let syms = merge_all(m, characters(segment));
    law_merging_keeps_the_text(m, characters(segment));
    law_characters_keep_the_text(segment);
    lemma_characters_not_empty(segment);
    lemma_merged_not_empty(m, characters(segment));
    assert forall|k: int| 0 <= k < syms.len() implies is_faithful(m, #[trigger] syms[k]) by {
        let sym = syms[k];
        lemma_symbol_occurs(syms, k);
        let off = concat(syms.take(k)).len() as int;
        assert(s.subrange(at + off, at + off + sym.len()) =~= segment.subrange(
            off,
            off + sym.len(),
        ));
        assert(occurs_at(s, sym, at + off));
        lemma_last_index(m.pieces, sym, m.pieces.len() as int);
        law_byte_fallback_spells_everything(m, sym);
    }
}

proof fn lemma_scan_spelt(m: TokenizerModel, s: Seq<u8>, i: int, pending: Seq<u8>)
    requires
        model_wf(m),
        m.byte_fallback,
        forall|b: u8| (#[trigger] byte_piece(m, b, m.pieces.len() as int)) is Some,
        markers_not_empty(m),
        only_plain_surfaces(m, s),
        0 <= i <= s.len(),
        occurs_at(s, pending, i - pending.len()),
    ensures
        is_scan_faithful(m, s, i, pending),
    decreases s.len() - i,
{
    lemma_segment_spelt(m, s, i - pending.len(), pending);
    if i < s.len() {
        lemma_marker_at(m, s, i);
        match marker_at(m, s, i) {
            Some(id) => {
                assert(m.types[id] == TK_USER_DEFINED);
                let next = i + m.pieces[id].len();
                assert(s.subrange(next, next) =~= Seq::<u8>::empty());
                lemma_scan_spelt(m, s, next, Seq::empty());
            },
            None => {
                let w = first_width(s.skip(i));
                let more = pending + s.subrange(i, i + w);
                let at = i - pending.len();
                assert(s.subrange(at, i + w) =~= s.subrange(at, i) + s.subrange(i, i + w));
                lemma_scan_spelt(m, s, i + w, more);
            },
        }
    }
}

/// With byte fallback and a piece for every byte, any text comes back from its
/// ids, as long as it has no visible space of its own and spells no control,
/// unknown or byte piece.
pub proof fn law_byte_pieces_bring_text_back(m: TokenizerModel, text: Seq<char>)
    requires
        model_wf(m),
        m.byte_fallback,
        forall|b: u8| (#[trigger] byte_piece(m, b, m.pieces.len() as int)) is Some,
        markers_not_empty(m),
        !text.contains(meta_char()),
        only_plain_surfaces(m, escaped(m, text)),
    ensures
        decode_text(m, encode_ids(m, text)) == text,
{
    if text.len() > 0 {
        let s = escaped(m, text);
        assert(s.subrange(0, 0) =~= Seq::<u8>::empty());
        lemma_scan_spelt(m, s, 0, Seq::empty());
    }
    law_decode_undoes_encode(m, text);
}

/// The per-token bytes agree with decoding that token alone, up to the one
/// leading space that decoding strips: a control or unknown piece contributes
/// nothing, a byte piece one raw byte, and any other piece its text.
pub proof fn law_token_bytes_agree_with_decode(m: TokenizerModel, id: u32)
    requires
        model_wf(m),
        id < m.pieces.len(),
    ensures
        m.types[id as int] == TK_CONTROL || m.types[id as int] == TK_UNKNOWN
            ==> raw_token_bytes(m, id as int).len() == 0,
        m.types[id as int] == TK_BYTE ==> raw_token_bytes(m, id as int).len() == 1,
        m.types[id as int] != TK_BYTE ==> decode_text(m, seq![id]) == if m.add_dummy_prefix {
            strip_space(lossy_text(raw_token_bytes(m, id as int)))
        } else {
            lossy_text(raw_token_bytes(m, id as int))
        },
{
    let i = id as int;
    lemma_tokens_text_one(m, id);
    assert(!is_malformed_at(m, i));
    if m.types[i] != TK_BYTE {
        let t = token_text(m, i);
        assert(valid_utf8(t));
        decode_utf8_encode_utf8(t);
        let cs = decode_utf8(t);
        lemma_unescape_encoding(cs);
        encode_utf8_valid_utf8(unescape_chars(cs));
        encode_utf8_decode_utf8(unescape_chars(cs));
        lemma_lossy_of_valid(t);
        lemma_lossy_of_valid(encode_utf8(unescape_chars(cs)));
    }
}

spec fn is_malformed_at(m: TokenizerModel, i: int) -> bool {
    crate::sp_tokenizer::is_malformed(m.pieces, m.types, i)
}

} // verus!
