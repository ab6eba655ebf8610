//! Encoding text to token ids and back.

use crate::bits::f32_gt;
use crate::sp_tokenizer::{best_pair, byte_fallback_id, byte_piece, characters, decode_text, encode_ids, first_width, join_at, joined, marker_at, marker_before, marker_occurs, markers_not_empty, merge_all, pair_score, piece_byte, plain_text, raw_token_bytes, scan_ids, segment_ids, settled_decode, surface_id, symbol_ids, symbols_ids, token_text, tokens_text, SpTokenizer, TokenizerModel, TK_BYTE, TK_CONTROL, TK_UNKNOWN, TK_USER_DEFINED};
use crate::spaces::{escape_spaces, strip_leading_space, unescape_spaces, unescape_text};
use crate::lossy::{lossy_text, settled, settled_len, text_of_bytes};
use crate::text::{matches_at, occurs_at, push_all};
use vstd::prelude::*;
use vstd::slice::slice_subrange;
use vstd::string::*;
use vstd::utf8::*;

verus! {

/// The surfaces of the chat markers.
pub const CHAT_MARKERS: [&'static str; 10] = [
    "<|im_start|>",
    "<|im_end|>",
    "<think>",
    "</think>",
    "<tools>",
    "</tools>",
    "<tool_call>",
    "</tool_call>",
    "<tool_result>",
    "</tool_result>",
];

/// The pieces of `segment` between consecutive bounds.
spec fn cut(segment: Seq<u8>, bounds: Seq<usize>) -> Seq<Seq<u8>> {
    Seq::new(
        (bounds.len() - 1) as nat,
        |k: int| segment.subrange(bounds[k] as int, bounds[k + 1] as int),
    )
}

/// Bounds that cut all of `segment` up to `end` into non-empty parts.
spec fn bounds_wf(segment: Seq<u8>, bounds: Seq<usize>, end: int) -> bool {
    &&& bounds.len() >= 1
    &&& bounds[0] == 0
    &&& bounds[bounds.len() - 1] == end
    &&& end <= segment.len()
    &&& forall|j: int, k: int| 0 <= j < k < bounds.len() ==> #[trigger] bounds[j] < #[trigger] bounds[k]
}

fn width_at(s: &[u8], i: usize) -> (w: usize)
    requires
        i < s@.len(),
    ensures
        w == first_width(s@.skip(i as int)),
        1 <= w <= s@.len() - i,
{
    let b: u8 = s[i];
    let w: usize = if b < 0x80 {
        1
    } else if b < 0xE0 {
        2
    } else if b < 0xF0 {
        3
    } else {
        4
    };
    let left: usize = s.len() - i;
    if w <= left {
        w
    } else {
        left
    }
}

/// Cut a segment into its characters.
fn character_bounds(segment: &[u8]) -> (bounds: Vec<usize>)
    ensures
        bounds_wf(segment@, bounds@, segment@.len() as int),
        cut(segment@, bounds@) == characters(segment@),
{
    let ghost s = segment@;
    let mut bounds: Vec<usize> = Vec::new();
    bounds.push(0);
    let mut i: usize = 0;
    proof {
        assert(s.skip(0) =~= s);
        assert(cut(s, bounds@) + characters(s) =~= characters(s));
    }
    while i < segment.len()
        invariant
            i <= segment@.len(),
            s == segment@,
            bounds_wf(s, bounds@, i as int),
            characters(s) == cut(s, bounds@) + characters(s.skip(i as int)),
        decreases segment@.len() - i,
    {
        let w: usize = width_at(segment, i);
        let ghost before = bounds@;
        let end: usize = i + w;
        bounds.push(end);
        proof {
            let here = s.skip(i as int);
            assert(here.skip(w as int) =~= s.skip(end as int));
            assert(here.take(w as int) =~= s.subrange(i as int, end as int));
            assert(cut(s, bounds@) =~= cut(s, before).push(s.subrange(i as int, end as int)));
            let rest = characters(s.skip(end as int));
            assert(cut(s, before) + (seq![here.take(w as int)] + rest) =~= cut(s, bounds@) + rest);
        }
        i = end;
    }
    proof {
        assert(cut(s, bounds@) + characters(s.skip(i as int)) =~= cut(s, bounds@));
    }
    bounds
}

proof fn lemma_best_pair(m: TokenizerModel, syms: Seq<Seq<u8>>, k: int)
    ensures
        best_pair(m, syms, k) matches Some(j) ==> 0 <= j < k && pair_score(m, syms, j) is Some,
        best_pair(m, syms, k) is None ==> forall|j: int|
            0 <= j < k ==> #[trigger] pair_score(m, syms, j) is None,
    decreases k,
{
    if k > 0 {
        lemma_best_pair(m, syms, k - 1);
    }
}

/// Dropping the bound between symbols `j` and `j + 1` joins them.
proof fn lemma_drop_bound(segment: Seq<u8>, bounds: Seq<usize>, j: int)
    requires
        bounds_wf(segment, bounds, segment.len() as int),
        0 <= j < bounds.len() - 2,
    ensures
        bounds_wf(segment, bounds.remove(j + 1), segment.len() as int),
        cut(segment, bounds.remove(j + 1)) == join_at(cut(segment, bounds), j),
{
    let after = bounds.remove(j + 1);
    let syms = cut(segment, bounds);
    assert forall|a: int, b: int| 0 <= a < b < after.len() implies #[trigger] after[a]
        < #[trigger] after[b] by {
        let a0 = if a <= j { a } else { a + 1 };
        let b0 = if b <= j { b } else { b + 1 };
        assert(after[a] == bounds[a0]);
        assert(after[b] == bounds[b0]);
        assert(bounds[a0] < bounds[b0]);
    }
    assert(after[after.len() - 1] == bounds[bounds.len() - 1]);
    let joined_syms = join_at(syms, j);
    assert forall|k: int| 0 <= k < joined_syms.len() implies #[trigger] cut(segment, after)[k]
        == joined_syms[k] by {
        if k < j {
            assert(after[k] == bounds[k] && after[k + 1] == bounds[k + 1]);
            assert(joined_syms[k] == syms[k]);
        } else if k == j {
            assert(after[k] == bounds[j] && after[k + 1] == bounds[j + 2]);
            assert(bounds[j] < bounds[j + 1] && bounds[j + 1] < bounds[j + 2]);
            assert(bounds[j + 2] <= bounds[bounds.len() - 1]);
            assert(joined_syms[k] == joined(syms, j));
            assert(segment.subrange(bounds[j] as int, bounds[j + 1] as int) + segment.subrange(
                bounds[j + 1] as int,
                bounds[j + 2] as int,
            ) =~= segment.subrange(bounds[j] as int, bounds[j + 2] as int));
        } else {
            assert(after[k] == bounds[k + 1] && after[k + 1] == bounds[k + 2]);
            assert(joined_syms[k] == syms[k + 1]);
        }
    }
    assert(cut(segment, after) =~= joined_syms);
}

impl SpTokenizer {
    /// The best pair of the symbols that `bounds` cuts.
    fn find_best_pair(&self, segment: &[u8], bounds: &Vec<usize>) -> (r: Option<usize>)
        requires
            self.wf(),
            bounds_wf(segment@, bounds@, segment@.len() as int),
        ensures
            match r {
                Some(j) => best_pair(
                    self@,
                    cut(segment@, bounds@),
                    cut(segment@, bounds@).len() - 1,
                ) == Some(j as int),
                None => best_pair(
                    self@,
                    cut(segment@, bounds@),
                    cut(segment@, bounds@).len() - 1,
                ) is None,
            },
    {
        let ghost syms = cut(segment@, bounds@);
        let mut best: Option<usize> = None;
        let mut best_score: u32 = 0;
        let mut j: usize = 0;
        let n: usize = bounds.len();
        while j + 2 < n
            invariant
                n == bounds@.len(),
                j + 1 <= n,
                j <= if n >= 2 { n - 2 } else { 0 },
                self.wf(),
                bounds_wf(segment@, bounds@, segment@.len() as int),
                syms == cut(segment@, bounds@),
                match best {
                    Some(p) => best_pair(self@, syms, j as int) == Some(p as int) && pair_score(
                        self@,
                        syms,
                        p as int,
                    ) == Some(best_score),
                    None => best_pair(self@, syms, j as int) is None,
                },
            decreases n - j,
        {
            assert(bounds@[j as int] < bounds@[j + 1] && bounds@[j + 1] < bounds@[j + 2]);
            assert(bounds@[j + 2] <= bounds@[bounds@.len() - 1]);
            let merged = slice_subrange(segment, bounds[j], bounds[j + 2]);
            proof {
                assert(joined(syms, j as int) =~= merged@);
            }
            match self.index.get(merged) {
                Some(id) => {
                    let s: u32 = self.scores[id as usize];
                    let better: bool = match best {
                        Some(_p) => f32_gt(s, best_score),
                        None => true,
                    };
                    if better {
                        best_score = s;
                        best = Some(j);
                    }
                },
                None => {},
            }
            j = j + 1;
        }
        assert(syms.len() - 1 <= j);
        best
    }

    /// Greedy highest-score pairwise merging over the characters of one
    /// segment.
    fn bpe_into(&self, segment: &[u8], out: &mut Vec<u32>)
        requires
            self.wf(),
        ensures
            final(out)@ == old(out)@ + segment_ids(self@, segment@),
    {
        let mut bounds: Vec<usize> = character_bounds(segment);
        let ghost goal = merge_all(self@, characters(segment@));
        let mut going: bool = true;
        while going
            invariant
                self.wf(),
                bounds_wf(segment@, bounds@, segment@.len() as int),
                goal == merge_all(self@, cut(segment@, bounds@)),
                !going ==> goal == cut(segment@, bounds@),
            decreases bounds@.len() + if going { 1int } else { 0 },
        {
            let ghost syms = cut(segment@, bounds@);
            proof {
                lemma_best_pair(self@, syms, syms.len() - 1);
            }
            match self.find_best_pair(segment, &bounds) {
                Some(j) => {
                    proof {
                        lemma_drop_bound(segment@, bounds@, j as int);
                    }
                    let n: usize = bounds.len();
                    assert(j + 1 < n);
                    bounds.remove(j + 1);
                },
                None => {
                    going = false;
                },
            }
        }
        let ghost syms = cut(segment@, bounds@);
        let ghost start = out@;
        let mut k: usize = 0;
        let n: usize = bounds.len();
        proof {
            assert(start + symbols_ids(self@, syms.take(0)) =~= start);
        }
        while k + 1 < n
            invariant
                n == bounds@.len(),
                k < n,
                self.wf(),
                bounds_wf(segment@, bounds@, segment@.len() as int),
                syms == cut(segment@, bounds@),
                out@ == start + symbols_ids(self@, syms.take(k as int)),
            decreases n - k,
        {
            assert(bounds@[k as int] < bounds@[k + 1]);
            assert(bounds@[k + 1] <= bounds@[bounds@.len() - 1]);
            let sym = slice_subrange(segment, bounds[k], bounds[k + 1]);
            let ghost before = out@;
            self.emit_symbol(sym, out);
            proof {
                assert(syms.take(k + 1).drop_last() =~= syms.take(k as int));
                assert(syms.take(k + 1).last() == syms[k as int]);
                assert(syms[k as int] == sym@);
                assert(start + (symbols_ids(self@, syms.take(k as int)) + symbol_ids(self@, sym@))
                    =~= before + symbol_ids(self@, sym@));
            }
            k = k + 1;
        }
        proof {
            assert(syms.take(k as int) =~= syms);
        }
    }

    /// Append the ids of one symbol.
    fn emit_symbol(&self, sym: &[u8], out: &mut Vec<u32>)
        requires
            self.wf(),
        ensures
            final(out)@ == old(out)@ + symbol_ids(self@, sym@),
    {
        match self.index.get(sym) {
            Some(id) => {
                out.push(id);
                assert(out@ =~= old(out)@ + seq![id]);
            },
            None => {
                if self.byte_fallback {
                    let ghost start = out@;
                    let ghost ids = sym@.map_values(|b: u8| byte_fallback_id(self@, b));
                    let mut i: usize = 0;
                    proof {
                        assert(start + ids.take(0) =~= start);
                    }
                    while i < sym.len()
                        invariant
                            i <= sym@.len(),
                            self.wf(),
                            ids == sym@.map_values(|b: u8| byte_fallback_id(self@, b)),
                            out@ == start + ids.take(i as int),
                        decreases sym@.len() - i,
                    {
                        let b: u8 = sym[i];
                        let id: u32 = match self.byte_to_id[b as usize] {
                            Some(id) => id,
                            None => self.unk_id,
                        };
                        proof {
                            assert(self.byte_to_id@[b as int] == match byte_piece(
                                self@,
                                b,
                                self@.pieces.len() as int,
                            ) {
                                Some(id) => Some(id as u32),
                                None => None,
                            });
                            assert(ids[i as int] == id);
                            assert(start + ids.take(i + 1) =~= (start + ids.take(i as int)).push(id));
                        }
                        out.push(id);
                        i = i + 1;
                    }
                    assert(ids.take(i as int) =~= ids);
                } else {
                    out.push(self.unk_id);
                    assert(out@ =~= old(out)@ + seq![self.unk_id]);
                }
            },
        }
    }

    /// The marker that stands at position `i`, as an index into the markers.
    fn find_marker(&self, s: &[u8], i: usize) -> (r: Option<usize>)
        requires
            self.wf(),
        ensures
            match r {
                Some(k) => k < self.markers@.len() && marker_at(self@, s@, i as int) == Some(
                    self.markers@[k as int].1 as int,
                ),
                None => marker_at(self@, s@, i as int) is None,
            },
    {
        let ghost m = self@;
        proof {
            lemma_marker_at(m, s@, i as int);
        }
        let mut k: usize = 0;
        while k < self.markers.len()
            invariant
                k <= self.markers@.len(),
                self.wf(),
                m == self@,
                forall|j: int|
                    0 <= j < k ==> !occurs_at(s@, encode_utf8((#[trigger] self.markers@[j]).0@), i as int),
            decreases self.markers@.len() - k,
        {
            if matches_at(s, self.markers[k].0.as_str().as_bytes(), i) {
                proof {
                    lemma_marker_at(m, s@, i as int);
                    let id = self.markers@[k as int].1 as int;
                    assert(marker_occurs(m, s@, i as int, id));
                    let p = marker_at(m, s@, i as int)->0;
                    assert(m.types[p] == TK_USER_DEFINED);
                    let j = choose|j: int|
                        0 <= j < self.markers@.len() && (#[trigger] self.markers@[j]).1 == p;
                    assert(occurs_at(s@, encode_utf8(self.markers@[j].0@), i as int));
                    if j > k {
                        assert(marker_before(self.markers@[k as int], self.markers@[j]));
                    }
                }
                return Some(k);
            }
            k = k + 1;
        }
        proof {
            lemma_marker_at(m, s@, i as int);
            if marker_at(m, s@, i as int) is Some {
                let p = marker_at(m, s@, i as int)->0;
                assert(m.types[p] == TK_USER_DEFINED);
                let j = choose|j: int|
                    0 <= j < self.markers@.len() && (#[trigger] self.markers@[j]).1 == p;
                assert(occurs_at(s@, encode_utf8(self.markers@[j].0@), i as int));
            }
        }
        None
    }

    /// Encode text to token ids.
    pub fn encode(&self, text: &str) -> (ids: Vec<u32>)
        requires
            self.wf(),
            markers_not_empty(self@),
        ensures
            ids@ == encode_ids(self@, text@),
    {
        let mut ids: Vec<u32> = Vec::new();
        if text.is_empty() {
            return ids;
        }
        let esc: Vec<u8> = escape_spaces(text, self.add_dummy_prefix);
        let ghost m = self@;
        let ghost s = esc@;
        let n: usize = esc.len();
        let mut pending: Vec<u8> = Vec::new();
        let mut i: usize = 0;
        proof {
            assert(ids@ + scan_ids(m, s, 0, pending@) =~= scan_ids(m, s, 0, pending@));
            assert(pending@ =~= Seq::<u8>::empty());
        }
        while i < n
            invariant
                i <= n,
                n == esc@.len(),
                m == self@,
                s == esc@,
                self.wf(),
                markers_not_empty(m),
                scan_ids(m, s, 0, Seq::empty()) == ids@ + scan_ids(m, s, i as int, pending@),
            decreases n - i,
        {
            let ghost before = ids@;
            match self.find_marker(esc.as_slice(), i) {
                Some(k) => {
                    let id: u32 = self.markers[k].1;
                    let len: usize = self.markers[k].0.as_str().as_bytes().len();
                    proof {
                        lemma_marker_at(m, s, i as int);
                        assert(m.types[id as int] == TK_USER_DEFINED);
                    }
                    self.bpe_into(pending.as_slice(), &mut ids);
                    ids.push(id);
                    proof {
                        let rest = scan_ids(m, s, i + len, Seq::empty());
                        assert(before + (segment_ids(m, pending@) + seq![id] + rest) =~= ids@ + rest);
                    }
                    pending.clear();
                    i = i + len;
                },
                None => {
                    let w: usize = width_at(esc.as_slice(), i);
                    let part = slice_subrange(esc.as_slice(), i, i + w);
                    push_all(&mut pending, part);
                    i = i + w;
                },
            }
        }
        self.bpe_into(pending.as_slice(), &mut ids);
        ids
    }

    /// The bytes that token `id` contributes.
    fn push_token_text(&self, id: usize, out: &mut Vec<u8>)
        requires
            self.wf(),
            id < self@.pieces.len(),
        ensures
            final(out)@ == old(out)@ + token_text(self@, id as int),
    {
        let ty: u8 = self.types[id];
        assert(self@.pieces[id as int] == encode_utf8(self.pieces@[id as int]@));
        if ty == TK_BYTE {
            match piece_byte(self.pieces[id].as_str().as_bytes()) {
                Some(b) => {
                    out.push(b);
                    assert(out@ =~= old(out)@ + seq![b]);
                },
                None => {
                    assert(out@ =~= old(out)@ + Seq::<u8>::empty());
                },
            }
        } else if ty == TK_CONTROL || ty == TK_UNKNOWN {
            assert(out@ =~= old(out)@ + Seq::<u8>::empty());
        } else {
            push_all(out, self.pieces[id].as_str().as_bytes());
        }
    }

    /// Per-token decoded bytes, indexed by id.
    ///
    /// These are the bytes each token adds to the output: the visible space
    /// becomes a space, a byte piece its raw byte, and control or unknown
    /// pieces add nothing.
    pub fn token_bytes(&self) -> (table: Vec<Vec<u8>>)
        requires
            self.wf(),
        ensures
            table@.len() == self@.pieces.len(),
            forall|id: int|
                0 <= id < table@.len() ==> (#[trigger] table@[id])@ == raw_token_bytes(self@, id),
    {
        let mut table: Vec<Vec<u8>> = Vec::new();
        let n: usize = self.pieces.len();
        let mut id: usize = 0;
        while id < n
            invariant
                id <= n,
                n == self@.pieces.len(),
                self.wf(),
                table@.len() == id,
                forall|j: int|
                    0 <= j < id ==> (#[trigger] table@[j])@ == raw_token_bytes(self@, j),
            decreases n - id,
        {
            let mut own: Vec<u8> = Vec::new();
            self.push_token_text(id, &mut own);
            assert(own@ =~= token_text(self@, id as int));
            if self.types[id] == TK_BYTE {
                table.push(own);
            } else {
                table.push(unescape_spaces(own.as_slice()));
            }
            id = id + 1;
        }
        table
    }

    /// What a row of tokens contributes, before visible spaces become spaces.
    fn raw_bytes(&self, ids: &[u32]) -> (buf: Vec<u8>)
        requires
            self.wf(),
        ensures
            buf@ == tokens_text(self@, ids@),
    {
        let mut buf: Vec<u8> = Vec::new();
        let mut i: usize = 0;
        let n: usize = self.pieces.len();
        while i < ids.len()
            invariant
                i <= ids@.len(),
                n == self@.pieces.len(),
                self.wf(),
                buf@ == tokens_text(self@, ids@.take(i as int)),
            decreases ids@.len() - i,
        {
            let id: usize = ids[i] as usize;
            proof {
                assert(ids@.take(i + 1).drop_last() =~= ids@.take(i as int));
                assert(ids@.take(i + 1).last() == ids@[i as int]);
            }
            if id < n {
                self.push_token_text(id, &mut buf);
            } else {
                assert(buf@ =~= buf@ + Seq::<u8>::empty());
            }
            i = i + 1;
        }
        proof {
            assert(ids@.take(ids@.len() as int) =~= ids@);
        }
        buf
    }

    fn plain(&self, bytes: &[u8]) -> (text: String)
        ensures
            text@ == plain_text(self@, lossy_text(bytes@)),
    {
        let lossy = text_of_bytes(bytes);
        let text = unescape_text(lossy.as_str());
        if self.add_dummy_prefix {
            strip_leading_space(text)
        } else {
            text
        }
    }

    /// Decode token ids back to text.
    ///
    /// Ids outside the table, control and unknown pieces are dropped, byte
    /// pieces are put together, and what is not valid UTF-8 becomes U+FFFD.
    pub fn decode(&self, ids: &[u32]) -> (text: String)
        requires
            self.wf(),
        ensures
            text@ == decode_text(self@, ids@),
    {
        let buf = self.raw_bytes(ids);
        self.plain(buf.as_slice())
    }

    /// The text of a row of tokens without a character at its end that is not
    /// complete, and whether that is all of it.
    pub fn decode_settled(&self, ids: &[u32]) -> (r: (String, bool))
        requires
            self.wf(),
        ensures
            r.0@ == settled_decode(self@, ids@),
            r.1 == (settled(tokens_text(self@, ids@)) == tokens_text(self@, ids@).len()),
    {
        let buf = self.raw_bytes(ids);
        let n: usize = settled_len(buf.as_slice());
        let part = slice_subrange(buf.as_slice(), 0, n);
        assert(part@ =~= buf@.take(n as int));
        (self.plain(part), n == buf.len())
    }

    /// The number of pieces.
    pub fn vocab_size(&self) -> (n: usize)
        ensures
            n == self@.pieces.len(),
    {
        self.pieces.len()
    }

    /// The surface of a piece.
    pub fn piece(&self, id: u32) -> (r: Option<&str>)
        ensures
            match r {
                Some(s) => id < self@.pieces.len() && encode_utf8(s@) == self@.pieces[id as int],
                None => id >= self@.pieces.len(),
            },
    {
        let k: usize = id as usize;
        if k < self.pieces.len() {
            Some(self.pieces[k].as_str())
        } else {
            None
        }
    }

    /// The type of a piece.
    pub fn piece_type(&self, id: u32) -> (r: Option<u8>)
        ensures
            r == if id < self@.types.len() {
                Some(self@.types[id as int])
            } else {
                None
            },
    {
        let k: usize = id as usize;
        if k < self.types.len() {
            Some(self.types[k])
        } else {
            None
        }
    }

    /// The score of a piece, as the bits of a 32-bit float.
    pub fn score(&self, id: u32) -> (r: Option<u32>)
        ensures
            r == if id < self@.scores.len() {
                Some(self@.scores[id as int])
            } else {
                None
            },
    {
        let k: usize = id as usize;
        if k < self.scores.len() {
            Some(self.scores[k])
        } else {
            None
        }
    }

    /// The id of an exact surface, such as a chat marker.
    pub fn id_of(&self, surface: &str) -> (r: Option<u32>)
        requires
            self.wf(),
        ensures
            match r {
                Some(id) => surface_id(self@, encode_utf8(surface@)) == Some(id as int) && id
                    < self@.pieces.len(),
                None => surface_id(self@, encode_utf8(surface@)) is None,
            },
    {
        self.index.get(surface.as_bytes())
    }

    /// The chat marker ids in [`CHAT_MARKERS`] order, or `None` where the table
    /// lacks any of them.
    pub fn chat_marker_ids(&self) -> (r: Option<Vec<u32>>)
        requires
            self.wf(),
        ensures
            match r {
                Some(ids) => {
                    &&& ids@.len() == 10
                    &&& surface_id(self@, encode_utf8("<|im_start|>"@)) == Some(ids@[0] as int)
                    &&& surface_id(self@, encode_utf8("<|im_end|>"@)) == Some(ids@[1] as int)
                    &&& surface_id(self@, encode_utf8("<think>"@)) == Some(ids@[2] as int)
                    &&& surface_id(self@, encode_utf8("</think>"@)) == Some(ids@[3] as int)
                    &&& surface_id(self@, encode_utf8("<tools>"@)) == Some(ids@[4] as int)
                    &&& surface_id(self@, encode_utf8("</tools>"@)) == Some(ids@[5] as int)
                    &&& surface_id(self@, encode_utf8("<tool_call>"@)) == Some(ids@[6] as int)
                    &&& surface_id(self@, encode_utf8("</tool_call>"@)) == Some(ids@[7] as int)
                    &&& surface_id(self@, encode_utf8("<tool_result>"@)) == Some(ids@[8] as int)
                    &&& surface_id(self@, encode_utf8("</tool_result>"@)) == Some(ids@[9] as int)
                },
                None => {
                    ||| surface_id(self@, encode_utf8("<|im_start|>"@)) is None
                    ||| surface_id(self@, encode_utf8("<|im_end|>"@)) is None
                    ||| surface_id(self@, encode_utf8("<think>"@)) is None
                    ||| surface_id(self@, encode_utf8("</think>"@)) is None
                    ||| surface_id(self@, encode_utf8("<tools>"@)) is None
                    ||| surface_id(self@, encode_utf8("</tools>"@)) is None
                    ||| surface_id(self@, encode_utf8("<tool_call>"@)) is None
                    ||| surface_id(self@, encode_utf8("</tool_call>"@)) is None
                    ||| surface_id(self@, encode_utf8("<tool_result>"@)) is None
                    ||| surface_id(self@, encode_utf8("</tool_result>"@)) is None
                },
            },
            r matches Some(ids) ==> forall|k: int|
                0 <= k < 10 ==> surface_id(self@, encode_utf8(CHAT_MARKERS@[k]@)) == Some(
                    (#[trigger] ids@[k]) as int,
                ),
            r is None ==> exists|k: int|
                0 <= k < 10 && surface_id(
                    self@,
                    encode_utf8((#[trigger] CHAT_MARKERS@[k])@),
                ) is None,
    {
        let markers = CHAT_MARKERS;
        let mut ids: Vec<u32> = Vec::new();
        let mut k: usize = 0;
        while k < 10
            invariant
                k <= 10,
                self.wf(),
                markers == CHAT_MARKERS,
                ids@.len() == k,
                forall|j: int|
                    0 <= j < k ==> surface_id(self@, encode_utf8(CHAT_MARKERS@[j]@)) == Some(
                        (#[trigger] ids@[j]) as int,
                    ),
            decreases 10 - k,
        {
            match self.id_of(markers[k]) {
                Some(id) => {
                    ids.push(id);
                },
                None => {
                    assert(surface_id(self@, encode_utf8(CHAT_MARKERS@[k as int]@)) is None);
                    return None;
                },
            }
            k = k + 1;
        }
        Some(ids)
    }

    /// Whether some marker has an empty surface. Text cannot be encoded then.
    pub fn has_empty_marker(&self) -> (r: bool)
        requires
            self.wf(),
        ensures
            r == !markers_not_empty(self@),
    {
        let mut k: usize = 0;
        while k < self.markers.len()
            invariant
                k <= self.markers@.len(),
                self.wf(),
                forall|j: int|
                    0 <= j < k ==> encode_utf8((#[trigger] self.markers@[j]).0@).len() > 0,
            decreases self.markers@.len() - k,
        {
            if self.markers[k].0.as_str().as_bytes().len() == 0 {
                assert(self@.types[self.markers@[k as int].1 as int] == TK_USER_DEFINED);
                return true;
            }
            k = k + 1;
        }
        proof {
            assert forall|id: int|
                0 <= id < self@.pieces.len() && #[trigger] self@.types[id]
                    == TK_USER_DEFINED implies self@.pieces[id].len() > 0 by {
                let j = choose|j: int|
                    0 <= j < self.markers@.len() && (#[trigger] self.markers@[j]).1 == id;
                assert(encode_utf8(self.markers@[j].0@).len() > 0);
            }
        }
        false
    }
}

/// What stands at a position, if any marker does, is the longest, and the
/// first of several equally long ones.
pub proof fn lemma_marker_at(m: TokenizerModel, s: Seq<u8>, i: int)
    ensures
        match marker_at(m, s, i) {
            Some(p) => 0 <= p < m.pieces.len() && marker_occurs(m, s, i, p) && forall|j: int|
                0 <= j < m.pieces.len() && #[trigger] marker_occurs(m, s, i, j)
                    ==> m.pieces[j].len() < m.pieces[p].len() || (m.pieces[j].len()
                    == m.pieces[p].len() && p <= j),
            None => forall|j: int|
                0 <= j < m.pieces.len() ==> !(#[trigger] marker_occurs(m, s, i, j)),
        },
{
    crate::sp_tokenizer::lemma_longest_marker(m, s, i, m.pieces.len() as int);
}

} // verus!
