//! What merging symbols comes to, said of the piece table alone: which pair is
//! joined first, when merging ends, and which ids the symbols get.

use crate::bits::{f32_key, f32_nan};
use crate::sp_laws::law_leftmost_best_pair_is_joined;
use crate::sp_tokenizer::{best_pair, byte_fallback_id, byte_piece, byte_value, encode_ids, first_width, join_at, joined, lemma_longest_marker, marker_at, marker_occurs, merge_all, model_wf, pair_score, scan_ids, segment_ids, surface_id, symbol_ids, symbols_ids, token_text, tokens_text, TokenizerModel, TK_BYTE};
use crate::spaces::escape_chars;
use crate::word_map::lemma_last_index;
use vstd::prelude::*;
use vstd::utf8::*;

verus! {

/// Two neighbours can be joined exactly where the table has their text as a piece,
/// however long it is, and then with the score of that piece, the last of several.
pub proof fn law_neighbours_join_where_the_table_has_their_text(
    m: TokenizerModel,
    syms: Seq<Seq<u8>>,
    j: int,
)
    requires
        0 <= j < syms.len() - 1,
    ensures
        pair_score(m, syms, j) is Some <==> exists|id: int|
            0 <= id < m.pieces.len() && #[trigger] m.pieces[id] == syms[j] + syms[j + 1],
        forall|id: int|
            0 <= id < m.pieces.len() && #[trigger] m.pieces[id] == syms[j] + syms[j + 1] && (
            forall|later: int|
                id < later < m.pieces.len() ==> #[trigger] m.pieces[later] != syms[j] + syms[j + 1])
                ==> pair_score(m, syms, j) == Some(m.scores[id]),
{
    lemma_last_index(m.pieces, joined(syms, j), m.pieces.len() as int);
    match surface_id(m, joined(syms, j)) {
        Some(id) => {
            assert(m.pieces[id] == syms[j] + syms[j + 1]);
        },
        None => {},
    }
}

proof fn lemma_best_pair_in_range(m: TokenizerModel, syms: Seq<Seq<u8>>, k: int)
    ensures
        match best_pair(m, syms, k) {
            Some(p) => 0 <= p < k && pair_score(m, syms, p) is Some,
            None => forall|j: int| 0 <= j < k ==> (#[trigger] pair_score(m, syms, j)) is None,
        },
    decreases k,
{
    if k > 0 {
        lemma_best_pair_in_range(m, syms, k - 1);
    }
}

/// Merging goes on to the end: of the symbols that are left, no two neighbours make
/// a piece of the table, whatever its length.
pub proof fn law_merging_ends_where_no_neighbours_make_a_piece(
    m: TokenizerModel,
    syms: Seq<Seq<u8>>,
)
    ensures
        ({
            let left = merge_all(m, syms);
            forall|j: int, id: int|
                #![trigger left[j], m.pieces[id]]
                0 <= j < left.len() - 1 && 0 <= id < m.pieces.len() ==> m.pieces[id] != left[j]
                    + left[j + 1]
        }),
    decreases syms.len(),
{
    lemma_best_pair_in_range(m, syms, syms.len() - 1);
    match best_pair(m, syms, syms.len() - 1) {
        Some(j) => {
            assert(join_at(syms, j).len() == syms.len() - 1);
            law_merging_ends_where_no_neighbours_make_a_piece(m, join_at(syms, j));
            assert(merge_all(m, syms) == merge_all(m, join_at(syms, j)));
        },
        None => {
            assert(merge_all(m, syms) == syms);
            assert forall|j: int, id: int|
                #![trigger syms[j], m.pieces[id]]
                0 <= j < syms.len() - 1 && 0 <= id < m.pieces.len() implies m.pieces[id] != syms[j]
                + syms[j + 1] by {
                assert(pair_score(m, syms, j) is None);
                law_neighbours_join_where_the_table_has_their_text(m, syms, j);
            }
        },
    }
}

/// Symbols of which no two neighbours make a piece stay as they are.
pub proof fn law_symbols_that_make_no_piece_stay(m: TokenizerModel, syms: Seq<Seq<u8>>)
    requires
        forall|j: int, id: int|
            #![trigger syms[j], m.pieces[id]]
            0 <= j < syms.len() - 1 && 0 <= id < m.pieces.len() ==> m.pieces[id] != syms[j]
                + syms[j + 1],
    ensures
        merge_all(m, syms) == syms,
{
    lemma_best_pair_in_range(m, syms, syms.len() - 1);
    match best_pair(m, syms, syms.len() - 1) {
        Some(j) => {
            law_neighbours_join_where_the_table_has_their_text(m, syms, j);
            let id = choose|id: int|
                0 <= id < m.pieces.len() && #[trigger] m.pieces[id] == syms[j] + syms[j + 1];
            assert(m.pieces[id] == syms[j] + syms[j + 1]);
            assert(false);
        },
        None => {},
    }
}

/// The pair with the greatest score is joined first, the leftmost of several: where
/// the neighbours at `j` make piece `id`, and no other neighbours make one with a
/// greater score, nor one as great further left, merging goes on from the symbols
/// with those two as one.
pub proof fn law_the_best_neighbours_are_joined_first(
    m: TokenizerModel,
    syms: Seq<Seq<u8>>,
    j: int,
    id: int,
)
    requires
        0 <= j < syms.len() - 1,
        0 <= id < m.pieces.len(),
        m.pieces[id] == syms[j] + syms[j + 1],
        forall|later: int|
            id < later < m.pieces.len() ==> #[trigger] m.pieces[later] != syms[j] + syms[j + 1],
        forall|i: int, other: int|
            #![trigger syms[i], m.pieces[other]]
            0 <= i < syms.len() - 1 && 0 <= other < m.pieces.len() && m.pieces[other] == syms[i]
                + syms[i + 1] ==> {
                &&& !f32_nan(m.scores[other])
                &&& i != j ==> f32_key(m.scores[other]) <= f32_key(m.scores[id])
                &&& i < j ==> f32_key(m.scores[other]) < f32_key(m.scores[id])
            },
    ensures
        merge_all(m, syms) == merge_all(
            m,
            syms.take(j) + seq![syms[j] + syms[j + 1]] + syms.skip(j + 2),
        ),
{
    let k = syms.len() - 1;
    assert forall|i: int| 0 <= i < k && (#[trigger] pair_score(m, syms, i)) is Some implies exists|
        other: int,
    |
        0 <= other < m.pieces.len() && #[trigger] m.pieces[other] == syms[i] + syms[i + 1]
            && pair_score(m, syms, i) == Some(m.scores[other]) by {
        lemma_last_index(m.pieces, joined(syms, i), m.pieces.len() as int);
        let other = surface_id(m, joined(syms, i))->0;
        assert(m.pieces[other] == syms[i] + syms[i + 1]);
    }
    assert forall|i: int| 0 <= i < k && (#[trigger] pair_score(m, syms, i)) is Some implies !f32_nan(
        pair_score(m, syms, i)->0,
    ) by {
        let other = choose|other: int|
            0 <= other < m.pieces.len() && #[trigger] m.pieces[other] == syms[i] + syms[i + 1]
                && pair_score(m, syms, i) == Some(m.scores[other]);
        assert(m.pieces[other] == syms[i] + syms[i + 1]);
    }
    law_leftmost_best_pair_is_joined(m, syms, k);
    law_neighbours_join_where_the_table_has_their_text(m, syms, j);
    assert(pair_score(m, syms, j) == Some(m.scores[id]));
    let p = best_pair(m, syms, k)->0;
    assert(best_pair(m, syms, k) is Some);
    if p != j {
        let other = choose|other: int|
            0 <= other < m.pieces.len() && #[trigger] m.pieces[other] == syms[p] + syms[p + 1]
                && pair_score(m, syms, p) == Some(m.scores[other]);
        assert(m.pieces[other] == syms[p] + syms[p + 1]);
        assert(false);
    }
}

/// A symbol that the table has as a piece gets one id, that of the piece, the last
/// of several.
pub proof fn law_a_piece_gets_its_id(m: TokenizerModel, id: int)
    requires
        model_wf(m),
        0 <= id < m.pieces.len(),
        forall|later: int|
            id < later < m.pieces.len() ==> #[trigger] m.pieces[later] != m.pieces[id],
    ensures
        symbol_ids(m, m.pieces[id]) == seq![id as u32],
{
    lemma_last_index(m.pieces, m.pieces[id], m.pieces.len() as int);
}

proof fn lemma_byte_piece(m: TokenizerModel, b: u8, n: int)
    requires
        n <= m.pieces.len(),
    ensures
        match byte_piece(m, b, n) {
            Some(id) => 0 <= id < n && m.types[id] == TK_BYTE && byte_value(m.pieces[id]) == Some(
                b as int,
            ),
            None => forall|id: int|
                0 <= id < n && #[trigger] m.types[id] == TK_BYTE ==> byte_value(m.pieces[id])
                    != Some(b as int),
        },
    decreases n,
{
    if n > 0 {
        lemma_byte_piece(m, b, n - 1);
    }
}

/// A symbol that the table does not have is spelt byte by byte where bytes may stand
/// in: every byte gets the id of a piece that stands for it, or where there is none
/// the unknown id. Where bytes may not stand in, it gets the unknown id as a whole.
pub proof fn law_what_is_no_piece_is_spelt_by_bytes(m: TokenizerModel, sym: Seq<u8>)
    requires
        model_wf(m),
        forall|id: int| 0 <= id < m.pieces.len() ==> #[trigger] m.pieces[id] != sym,
    ensures
        !m.byte_fallback ==> symbol_ids(m, sym) == seq![m.unk_id],
        m.byte_fallback ==> symbol_ids(m, sym).len() == sym.len(),
        m.byte_fallback ==> forall|k: int|
            0 <= k < sym.len() ==> {
                let id = #[trigger] symbol_ids(m, sym)[k];
                ||| id < m.pieces.len() && m.types[id as int] == 4 && byte_value(
                    m.pieces[id as int],
                ) == Some(sym[k] as int)
                ||| id == m.unk_id && forall|other: int|
                    0 <= other < m.pieces.len() && #[trigger] m.types[other] == 4
                        ==> byte_value(m.pieces[other]) != Some(sym[k] as int)
            },
{
    lemma_last_index(m.pieces, sym, m.pieces.len() as int);
    if m.byte_fallback {
        assert forall|k: int| 0 <= k < sym.len() implies {
            let id = #[trigger] symbol_ids(m, sym)[k];
            ||| id < m.pieces.len() && m.types[id as int] == 4 && byte_value(
                m.pieces[id as int],
            ) == Some(sym[k] as int)
            ||| id == m.unk_id && forall|other: int|
                0 <= other < m.pieces.len() && #[trigger] m.types[other] == 4
                    ==> byte_value(m.pieces[other]) != Some(sym[k] as int)
        } by {
            lemma_byte_piece(m, sym[k], m.pieces.len() as int);
            assert(symbol_ids(m, sym)[k] == byte_fallback_id(m, sym[k]));
        }
    }
}

/// A marker is found wherever its text stands, and of several the longest, and of
/// equally long ones the first of the table.
pub proof fn law_the_longest_marker_is_found(m: TokenizerModel, s: Seq<u8>, i: int)
    requires
        model_wf(m),
        0 <= i,
    ensures
        match marker_at(m, s, i) {
            Some(id) => {
                &&& 0 <= id < m.pieces.len()
                &&& m.types[id] == 3
                &&& i + m.pieces[id].len() <= s.len()
                &&& s.subrange(i, i + m.pieces[id].len()) == m.pieces[id]
                &&& forall|other: int|
                    0 <= other < m.pieces.len() && #[trigger] m.types[other] == 3 && i
                        + m.pieces[other].len() <= s.len() && s.subrange(
                        i,
                        i + m.pieces[other].len(),
                    ) == m.pieces[other] ==> m.pieces[other].len() < m.pieces[id].len() || (
                    m.pieces[other].len() == m.pieces[id].len() && id <= other)
            },
            None => forall|other: int|
                0 <= other < m.pieces.len() && #[trigger] m.types[other] == 3 && i
                    + m.pieces[other].len() <= s.len() ==> s.subrange(
                    i,
                    i + m.pieces[other].len(),
                ) != m.pieces[other],
        },
{
    lemma_longest_marker(m, s, i, m.pieces.len() as int);
    assert forall|other: int|
        0 <= other < m.pieces.len() && #[trigger] m.types[other] == 3 && i
            + m.pieces[other].len() <= s.len() && s.subrange(i, i + m.pieces[other].len())
            == m.pieces[other] implies marker_occurs(m, s, i, other) by {}
}

/// `j` is reached from `i` by whole characters.
pub open spec fn reaches(s: Seq<u8>, i: int, j: int) -> bool
    decreases j - i,
{
    i == j || {
        let next = i + first_width(s.skip(i));
        0 <= i < next <= j <= s.len() && reaches(s, next, j)
    }
}

proof fn lemma_scan_reaches(m: TokenizerModel, s: Seq<u8>, i: int, j: int, pending: Seq<u8>)
    requires
        0 <= i <= j <= s.len(),
        reaches(s, i, j),
        forall|q: int| i <= q < j ==> #[trigger] marker_at(m, s, q) is None,
    ensures
        scan_ids(m, s, i, pending) == scan_ids(m, s, j, pending + s.subrange(i, j)),
    decreases j - i,
{
    if i == j {
        assert(pending + s.subrange(i, j) =~= pending);
    } else {
        let w = first_width(s.skip(i));
        assert(marker_at(m, s, i) is None);
        lemma_scan_reaches(m, s, i + w, j, pending + s.subrange(i, i + w));
        assert((pending + s.subrange(i, i + w)) + s.subrange(i + w, j) =~= pending + s.subrange(
            i,
            j,
        ));
    }
}

/// Markers cut a text: what stands before the first one is a segment of its own, the
/// marker gets its id, and the text goes on behind it as if it started there. A text
/// without a marker is one segment.
pub proof fn law_markers_cut_a_text(m: TokenizerModel, s: Seq<u8>, i: int, j: int)
    requires
        0 <= i <= j <= s.len(),
        reaches(s, i, j),
        forall|q: int| i <= q < j ==> #[trigger] marker_at(m, s, q) is None,
    ensures
        j == s.len() ==> scan_ids(m, s, i, Seq::empty()) == segment_ids(m, s.subrange(i, j)),
        j < s.len() ==> (marker_at(m, s, j) matches Some(id) ==> m.pieces[id].len() > 0 && j
            + m.pieces[id].len() <= s.len() ==> scan_ids(m, s, i, Seq::empty()) == segment_ids(
            m,
            s.subrange(i, j),
        ) + seq![id as u32] + scan_ids(m, s, j + m.pieces[id].len(), Seq::empty())),
{
    lemma_scan_reaches(m, s, i, j, Seq::empty());
    assert(Seq::<u8>::empty() + s.subrange(i, j) =~= s.subrange(i, j));
}

/// Ids are found symbol by symbol: those of a row of symbols in two parts are those of
/// one part behind those of the other.
pub proof fn law_symbols_get_their_ids_one_by_one(
    m: TokenizerModel,
    a: Seq<Seq<u8>>,
    b: Seq<Seq<u8>>,
)
    ensures
        symbols_ids(m, a + b) == symbols_ids(m, a) + symbols_ids(m, b),
        forall|sym: Seq<u8>| symbols_ids(m, #[trigger] seq![sym]) == symbol_ids(m, sym),
    decreases b.len(),
{
    if b.len() == 0 {
        assert(a + b =~= a);
        assert(symbols_ids(m, a) + symbols_ids(m, b) =~= symbols_ids(m, a));
    } else {
        law_symbols_get_their_ids_one_by_one(m, a, b.drop_last());
        assert((a + b).drop_last() =~= a + b.drop_last());
        assert((a + b).last() == b.last());
        assert(symbols_ids(m, a + b) =~= symbols_ids(m, a) + symbols_ids(m, b));
    }
    assert forall|sym: Seq<u8>| symbols_ids(m, #[trigger] seq![sym]) == symbol_ids(m, sym) by {
        let none = Seq::<Seq<u8>>::empty();
        assert(seq![sym].drop_last() =~= none);
        assert(symbols_ids(m, none) =~= Seq::<u32>::empty());
        assert(seq![sym].last() == sym);
        assert(symbols_ids(m, seq![sym]) =~= symbol_ids(m, sym));
    }
}

/// Decoding goes token by token: the bytes of a row of tokens in two parts are those of
/// one part behind those of the other, and those of a single token are its own.
pub proof fn law_tokens_contribute_one_by_one(m: TokenizerModel, a: Seq<u32>, b: Seq<u32>, id: u32)
    ensures
        tokens_text(m, a + b) == tokens_text(m, a) + tokens_text(m, b),
        tokens_text(m, seq![id]) == token_text(m, id as int),
    decreases b.len(),
{
    if b.len() == 0 {
        assert(a + b =~= a);
        assert(tokens_text(m, a) + tokens_text(m, b) =~= tokens_text(m, a));
    } else {
        law_tokens_contribute_one_by_one(m, a, b.drop_last(), id);
        assert((a + b).drop_last() =~= a + b.drop_last());
        assert((a + b).last() == b.last());
        assert(tokens_text(m, a + b) =~= tokens_text(m, a) + tokens_text(m, b));
    }
    let none = Seq::<u32>::empty();
    assert(seq![id].drop_last() =~= none);
    assert(tokens_text(m, none) =~= Seq::<u8>::empty());
    assert(seq![id].last() == id);
    assert(tokens_text(m, seq![id]) =~= token_text(m, id as int));
}

/// A text is scanned character by character as it stands, with its spaces made visible,
/// and behind one more visible space where the table asks for it.
pub proof fn law_texts_are_scanned_with_visible_spaces(
    m: TokenizerModel,
    text: Seq<char>,
    shown: Seq<char>,
)
    requires
        text.len() > 0,
        shown.len() == text.len(),
        forall|i: int|
            0 <= i < text.len() ==> #[trigger] shown[i] == if text[i] == ' ' {
                '\u{2581}'
            } else {
                text[i]
            },
    ensures
        encode_ids(m, text) == scan_ids(
            m,
            encode_utf8(
                if m.add_dummy_prefix {
                    seq!['\u{2581}'] + shown
                } else {
                    shown
                },
            ),
            0,
            Seq::empty(),
        ),
        encode_ids(m, Seq::empty()).len() == 0,
{
    assert(escape_chars(text) =~= shown);
}

} // verus!
