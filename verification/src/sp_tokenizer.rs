//! SentencePiece BPE tokenizer, decoded from the blob that a model file embeds.
//!
//! Blob layout, little-endian:
//!
//! ```text
//! header   u32 n_pieces, u32 pad_id, u32 eos_id, u32 bos_id, u32 unk_id,
//!          u8 add_dummy_prefix, u8 byte_fallback, u16 unused        (24 bytes)
//! pieces   n_pieces records in id order:
//!          f32 score, u8 type, u16 surface_len, surface_len UTF-8 bytes
//! ```
//!
//! Encoding splits off the user-defined markers first, then merges the
//! characters of each remaining segment pairwise, highest score first, and
//! falls back to byte pieces for what is not in the vocabulary.

pub use crate::spaces::META_SPACE;

use crate::bits::f32_greater;
use crate::json_scan::encodings;
use crate::le::{le16, le32, u16_at, u32_at};
use crate::spaces::{escape_chars, meta_char, strip_space, unescape_bytes, unescape_chars};
use crate::lossy::{lossy_text, settled_text};
use crate::text::{occurs_at, string_from_utf8, to_bytes};
use crate::word_map::{last_index, WordMap};
use vstd::prelude::*;
use vstd::slice::slice_subrange;
use vstd::string::*;
use vstd::utf8::*;

verus! {

/// An ordinary piece.
pub const TK_NORMAL: u8 = 0;

/// The piece for what cannot be represented.
pub const TK_UNKNOWN: u8 = 1;

/// A control piece, never part of decoded text.
pub const TK_CONTROL: u8 = 2;

/// A marker that is split off before merging.
pub const TK_USER_DEFINED: u8 = 3;

/// A piece of the form `<0xNN>` that stands for one byte.
pub const TK_BYTE: u8 = 4;

/// Size of the blob header.
pub const HDR_BYTES: usize = 24;

/// Size of a piece record without its surface.
pub const REC_FIXED: usize = 7;

/// Why a tokenizer blob was refused.
#[derive(Debug, Clone, PartialEq, Eq)]
pub enum TokenizerError {
    /// The blob ended before a declared field could be read.
    Truncated { need: usize, got: usize },
    /// A piece's bytes are not valid UTF-8.
    InvalidUtf8 { piece: usize },
    /// The blob declares no pieces.
    Empty,
    /// A special id from the header is not a valid piece index.
    SpecialIdOutOfRange { name: &'static str, id: u32, n_pieces: usize },
    /// A byte piece is not of the form `<0xNN>`.
    MalformedBytePiece { piece: usize },
}

/// A decoded tokenizer as mathematics.
#[verifier::ext_equal]
pub struct TokenizerModel {
    pub pieces: Seq<Seq<u8>>,
    pub scores: Seq<u32>,
    pub types: Seq<u8>,
    pub pad_id: u32,
    pub eos_id: u32,
    pub bos_id: u32,
    pub unk_id: u32,
    pub add_dummy_prefix: bool,
    pub byte_fallback: bool,
}

/// One piece record.
pub struct Piece {
    pub surface: Seq<u8>,
    pub score: u32,
    pub ty: u8,
}

/// The record at `off`, which is that of piece `i`, and where the next one
/// starts.
pub open spec fn read_record(blob: Seq<u8>, off: int, i: int) -> Result<
    (Piece, int),
    TokenizerError,
> {
    if off + REC_FIXED > blob.len() {
        Err(
            TokenizerError::Truncated {
                need: (off + REC_FIXED) as usize,
                got: blob.len() as usize,
            },
        )
    } else {
        let start = off + REC_FIXED;
        let end = start + le16(blob, off + 5);
        if end > blob.len() {
            Err(TokenizerError::Truncated { need: end as usize, got: blob.len() as usize })
        } else if !valid_utf8(blob.subrange(start, end)) {
            Err(TokenizerError::InvalidUtf8 { piece: i as usize })
        } else {
            Ok(
                (
                    Piece {
                        surface: blob.subrange(start, end),
                        score: le32(blob, off) as u32,
                        ty: blob[off + 4],
                    },
                    end,
                ),
            )
        }
    }
}

/// The records from piece `i` at `off` up to piece `n`.
pub open spec fn read_records(blob: Seq<u8>, off: int, i: int, n: int) -> Result<
    Seq<Piece>,
    TokenizerError,
>
    decreases n - i,
{
    if i >= n {
        Ok(Seq::empty())
    } else {
        match read_record(blob, off, i) {
            Ok((p, next)) => match read_records(blob, next, i + 1, n) {
                Ok(rest) => Ok(seq![p] + rest),
                Err(e) => Err(e),
            },
            Err(e) => Err(e),
        }
    }
}

/// The first special id that is outside the table.
pub open spec fn special_error(
    pad: u32,
    eos: u32,
    bos: u32,
    unk: u32,
    n: int,
) -> Option<TokenizerError> {
    if pad >= n {
        Some(TokenizerError::SpecialIdOutOfRange { name: "pad", id: pad, n_pieces: n as usize })
    } else if eos >= n {
        Some(TokenizerError::SpecialIdOutOfRange { name: "eos", id: eos, n_pieces: n as usize })
    } else if bos >= n {
        Some(TokenizerError::SpecialIdOutOfRange { name: "bos", id: bos, n_pieces: n as usize })
    } else if unk >= n {
        Some(TokenizerError::SpecialIdOutOfRange { name: "unk", id: unk, n_pieces: n as usize })
    } else {
        None
    }
}

/// The value of a hexadecimal digit.
pub open spec fn hex_digit(b: u8) -> Option<int> {
    if 0x30 <= b <= 0x39 {
        Some(b - 0x30)
    } else if 0x41 <= b <= 0x46 {
        Some(b - 0x41 + 10)
    } else if 0x61 <= b <= 0x66 {
        Some(b - 0x61 + 10)
    } else {
        None
    }
}

/// The number that two hexadecimal digits spell.
pub open spec fn hex_pair(a: u8, b: u8) -> Option<int> {
    match (hex_digit(a), hex_digit(b)) {
        (Some(high), Some(low)) => Some(high * 16 + low),
        _ => None,
    }
}

/// A piece of the form `<0xNN>`, whatever its two digits.
pub open spec fn is_byte_form(piece: Seq<u8>) -> bool {
    &&& piece.len() == 6
    &&& piece[0] == 0x3C
    &&& piece[1] == 0x30
    &&& piece[2] == 0x78
    &&& piece[5] == 0x3E
}

/// The byte that a piece `<0xNN>` stands for. No other piece stands for a byte.
pub open spec fn byte_value(piece: Seq<u8>) -> Option<int> {
    if is_byte_form(piece) {
        hex_pair(piece[3], piece[4])
    } else {
        None
    }
}

/// Piece `i` is a byte piece that spells no byte.
pub open spec fn is_malformed(pieces: Seq<Seq<u8>>, types: Seq<u8>, i: int) -> bool {
    types[i] == TK_BYTE && byte_value(pieces[i]) is None
}

/// The first malformed byte piece at or behind `i`.
pub open spec fn first_malformed(pieces: Seq<Seq<u8>>, types: Seq<u8>, i: int) -> Option<int>
    decreases pieces.len() - i,
{
    if i < 0 || i >= pieces.len() {
        None
    } else if is_malformed(pieces, types, i) {
        Some(i)
    } else {
        first_malformed(pieces, types, i + 1)
    }
}

/// The model that a header and piece records make.
pub open spec fn model_from(blob: Seq<u8>, records: Seq<Piece>) -> TokenizerModel {
    TokenizerModel {
        pieces: records.map_values(|p: Piece| p.surface),
        scores: records.map_values(|p: Piece| p.score),
        types: records.map_values(|p: Piece| p.ty),
        pad_id: le32(blob, 4) as u32,
        eos_id: le32(blob, 8) as u32,
        bos_id: le32(blob, 12) as u32,
        unk_id: le32(blob, 16) as u32,
        add_dummy_prefix: blob[20] != 0,
        byte_fallback: blob[21] != 0,
    }
}

/// What a blob decodes to, or why it is refused.
pub open spec fn parse_blob(blob: Seq<u8>) -> Result<TokenizerModel, TokenizerError> {
    if blob.len() < HDR_BYTES {
        Err(TokenizerError::Truncated { need: HDR_BYTES, got: blob.len() as usize })
    } else if le32(blob, 0) == 0 {
        Err(TokenizerError::Empty)
    } else {
        match read_records(blob, HDR_BYTES as int, 0, le32(blob, 0)) {
            Err(e) => Err(e),
            Ok(records) => {
                let m = model_from(blob, records);
                match special_error(m.pad_id, m.eos_id, m.bos_id, m.unk_id, le32(blob, 0)) {
                    Some(e) => Err(e),
                    None => match first_malformed(m.pieces, m.types, 0) {
                        Some(i) => Err(TokenizerError::MalformedBytePiece { piece: i as usize }),
                        None => Ok(m),
                    },
                }
            },
        }
    }
}

/// The id of an exact surface; of equal surfaces the last one counts.
pub open spec fn surface_id(m: TokenizerModel, surface: Seq<u8>) -> Option<int> {
    last_index(m.pieces, surface, m.pieces.len() as int)
}

/// The last byte piece among the first `n` that stands for `b`.
pub open spec fn byte_piece(m: TokenizerModel, b: u8, n: int) -> Option<int>
    decreases n,
{
    if n <= 0 {
        None
    } else if m.types[n - 1] == TK_BYTE && byte_value(m.pieces[n - 1]) == Some(b as int) {
        Some(n - 1)
    } else {
        byte_piece(m, b, n - 1)
    }
}

/// Marker `id` stands at position `i` of `s`.
pub open spec fn marker_occurs(m: TokenizerModel, s: Seq<u8>, i: int, id: int) -> bool {
    m.types[id] == TK_USER_DEFINED && occurs_at(s, m.pieces[id], i)
}

/// The longest marker among the first `n` pieces that stands at position `i`,
/// the first of several equally long ones.
pub open spec fn longest_marker(m: TokenizerModel, s: Seq<u8>, i: int, n: int) -> Option<int>
    decreases n,
{
    if n <= 0 {
        None
    } else {
        let shorter = longest_marker(m, s, i, n - 1);
        if marker_occurs(m, s, i, n - 1) {
            match shorter {
                Some(p) => if m.pieces[p].len() >= m.pieces[n - 1].len() {
                    Some(p)
                } else {
                    Some(n - 1)
                },
                None => Some(n - 1),
            }
        } else {
            shorter
        }
    }
}

/// The marker that stands at position `i`.
pub open spec fn marker_at(m: TokenizerModel, s: Seq<u8>, i: int) -> Option<int> {
    longest_marker(m, s, i, m.pieces.len() as int)
}

/// No marker has an empty surface.
pub open spec fn markers_not_empty(m: TokenizerModel) -> bool {
    forall|id: int|
        0 <= id < m.pieces.len() && #[trigger] m.types[id] == TK_USER_DEFINED ==> m.pieces[id].len()
            > 0
}

/// How many bytes the character takes that starts with `b`.
pub open spec fn utf8_width(b: u8) -> int {
    if b < 0x80 {
        1
    } else if b < 0xE0 {
        2
    } else if b < 0xF0 {
        3
    } else {
        4
    }
}

/// How many bytes the first character of `s` takes.
pub open spec fn first_width(s: Seq<u8>) -> int {
    if utf8_width(s[0]) <= s.len() {
        utf8_width(s[0])
    } else {
        s.len() as int
    }
}

/// The characters of a text, each by its bytes.
pub open spec fn characters(s: Seq<u8>) -> Seq<Seq<u8>>
    decreases s.len(),
{
    if s.len() == 0 {
        Seq::empty()
    } else {
        seq![s.take(first_width(s))] + characters(s.skip(first_width(s)))
    }
}

/// Symbols `j` and `j + 1` as one.
pub open spec fn joined(syms: Seq<Seq<u8>>, j: int) -> Seq<u8> {
    syms[j] + syms[j + 1]
}

/// The score of joining symbols `j` and `j + 1`, where they make a piece.
pub open spec fn pair_score(m: TokenizerModel, syms: Seq<Seq<u8>>, j: int) -> Option<u32> {
    match surface_id(m, joined(syms, j)) {
        Some(id) => Some(m.scores[id]),
        None => None,
    }
}

/// The best of the first `k` pairs: the first that makes a piece, unless a
/// later one has a greater score.
pub open spec fn best_pair(m: TokenizerModel, syms: Seq<Seq<u8>>, k: int) -> Option<int>
    decreases k,
{
    if k <= 0 {
        None
    } else {
        let best = best_pair(m, syms, k - 1);
        match pair_score(m, syms, k - 1) {
            Some(score) => match best {
                Some(p) => if f32_greater(score, pair_score(m, syms, p)->0) {
                    Some(k - 1)
                } else {
                    Some(p)
                },
                None => Some(k - 1),
            },
            None => best,
        }
    }
}

/// The symbols with `j` and `j + 1` joined.
pub open spec fn join_at(syms: Seq<Seq<u8>>, j: int) -> Seq<Seq<u8>> {
    syms.take(j) + seq![joined(syms, j)] + syms.skip(j + 2)
}

/// The symbols after joining the best pair again and again until no pair makes
/// a piece.
pub open spec fn merge_all(m: TokenizerModel, syms: Seq<Seq<u8>>) -> Seq<Seq<u8>>
    decreases syms.len(),
{
    match best_pair(m, syms, syms.len() - 1) {
        Some(j) => if 0 <= j < syms.len() - 1 {
            merge_all(m, join_at(syms, j))
        } else {
            syms
        },
        None => syms,
    }
}

/// The id that stands for one raw byte.
pub open spec fn byte_fallback_id(m: TokenizerModel, b: u8) -> u32 {
    match byte_piece(m, b, m.pieces.len() as int) {
        Some(id) => id as u32,
        None => m.unk_id,
    }
}

/// The ids of one symbol: its piece, or its bytes where they can stand in, or
/// the unknown piece.
pub open spec fn symbol_ids(m: TokenizerModel, sym: Seq<u8>) -> Seq<u32> {
    match surface_id(m, sym) {
        Some(id) => seq![id as u32],
        None => if m.byte_fallback {
            sym.map_values(|b: u8| byte_fallback_id(m, b))
        } else {
            seq![m.unk_id]
        },
    }
}

/// The ids of a row of symbols.
pub open spec fn symbols_ids(m: TokenizerModel, syms: Seq<Seq<u8>>) -> Seq<u32>
    decreases syms.len(),
{
    if syms.len() == 0 {
        Seq::empty()
    } else {
        symbols_ids(m, syms.drop_last()) + symbol_ids(m, syms.last())
    }
}

/// The ids of a segment without markers.
pub open spec fn segment_ids(m: TokenizerModel, segment: Seq<u8>) -> Seq<u32> {
    symbols_ids(m, merge_all(m, characters(segment)))
}

/// The ids of the text from position `i` on, where `pending` is the segment
/// that ends there.
pub open spec fn scan_ids(m: TokenizerModel, s: Seq<u8>, i: int, pending: Seq<u8>) -> Seq<u32>
    decreases s.len() - i,
{
    if i < 0 || i >= s.len() {
        segment_ids(m, pending)
    } else {
        match marker_at(m, s, i) {
            Some(id) => {
                let next = i + m.pieces[id].len();
                if next <= i || next > s.len() {
                    Seq::empty()
                } else {
                    segment_ids(m, pending) + seq![id as u32] + scan_ids(m, s, next, Seq::empty())
                }
            },
            None => {
                let w = first_width(s.skip(i));
                scan_ids(m, s, i + w, pending + s.subrange(i, i + w))
            },
        }
    }
}

/// The text that is cut into pieces: spaces made visible, behind one more
/// visible space where the tokenizer adds one.
pub open spec fn escaped(m: TokenizerModel, text: Seq<char>) -> Seq<u8> {
    encode_utf8(
        if m.add_dummy_prefix {
            seq![meta_char()] + escape_chars(text)
        } else {
            escape_chars(text)
        },
    )
}

/// The ids of a text.
pub open spec fn encode_ids(m: TokenizerModel, text: Seq<char>) -> Seq<u32> {
    if text.len() == 0 {
        Seq::empty()
    } else {
        scan_ids(m, escaped(m, text), 0, Seq::empty())
    }
}

/// What a token contributes to decoded text, before visible spaces become
/// spaces: a byte piece its byte, a control or unknown piece nothing, any other
/// its surface.
pub open spec fn token_text(m: TokenizerModel, id: int) -> Seq<u8> {
    if id < 0 || id >= m.pieces.len() {
        Seq::empty()
    } else if m.types[id] == TK_BYTE {
        match byte_value(m.pieces[id]) {
            Some(b) => seq![b as u8],
            None => Seq::empty(),
        }
    } else if m.types[id] == TK_CONTROL || m.types[id] == TK_UNKNOWN {
        Seq::empty()
    } else {
        m.pieces[id]
    }
}

/// What a row of tokens contributes.
pub open spec fn tokens_text(m: TokenizerModel, ids: Seq<u32>) -> Seq<u8>
    decreases ids.len(),
{
    if ids.len() == 0 {
        Seq::empty()
    } else {
        tokens_text(m, ids.drop_last()) + token_text(m, ids.last() as int)
    }
}

/// Text with its visible spaces turned into spaces, and without the space that
/// encoding puts in front.
pub open spec fn plain_text(m: TokenizerModel, chars: Seq<char>) -> Seq<char> {
    let text = unescape_chars(chars);
    if m.add_dummy_prefix {
        strip_space(text)
    } else {
        text
    }
}

/// The text of a row of tokens.
pub open spec fn decode_text(m: TokenizerModel, ids: Seq<u32>) -> Seq<char> {
    plain_text(m, lossy_text(tokens_text(m, ids)))
}

/// The text of a row of tokens that stays whatever tokens follow: without a
/// character at the end that is not complete.
pub open spec fn settled_decode(m: TokenizerModel, ids: Seq<u32>) -> Seq<char> {
    plain_text(m, settled_text(tokens_text(m, ids)))
}

/// The raw bytes that a token adds to the output.
pub open spec fn raw_token_bytes(m: TokenizerModel, id: int) -> Seq<u8> {
    if m.types[id] == TK_BYTE {
        token_text(m, id)
    } else {
        unescape_bytes(token_text(m, id))
    }
}

/// A decoded SentencePiece model.
pub struct SpTokenizer {
    /// Surfaces in id order.
    pub pieces: Vec<String>,
    /// Scores in id order, as the bits of 32-bit floats.
    pub scores: Vec<u32>,
    /// Types in id order.
    pub types: Vec<u8>,
    /// Surface to id.
    pub index: WordMap,
    /// Byte value to id.
    pub byte_to_id: Vec<Option<u32>>,
    /// User-defined surfaces with their ids, longest first.
    pub markers: Vec<(String, u32)>,
    pub pad_id: u32,
    pub eos_id: u32,
    pub bos_id: u32,
    pub unk_id: u32,
    pub add_dummy_prefix: bool,
    pub byte_fallback: bool,
}

impl View for SpTokenizer {
    type V = TokenizerModel;

    open spec fn view(&self) -> TokenizerModel {
        TokenizerModel {
            pieces: encodings(self.pieces@),
            scores: self.scores@,
            types: self.types@,
            pad_id: self.pad_id,
            eos_id: self.eos_id,
            bos_id: self.bos_id,
            unk_id: self.unk_id,
            add_dummy_prefix: self.add_dummy_prefix,
            byte_fallback: self.byte_fallback,
        }
    }
}

/// A parsed model: the columns have one length, every special id is a piece,
/// every byte piece spells a byte.
pub open spec fn model_wf(m: TokenizerModel) -> bool {
    &&& 0 < m.pieces.len() <= u32::MAX
    &&& m.scores.len() == m.pieces.len()
    &&& m.types.len() == m.pieces.len()
    &&& m.pad_id < m.pieces.len()
    &&& m.eos_id < m.pieces.len()
    &&& m.bos_id < m.pieces.len()
    &&& m.unk_id < m.pieces.len()
    &&& forall|i: int| 0 <= i < m.pieces.len() ==> !(#[trigger] is_malformed(m.pieces, m.types, i))
    &&& forall|i: int| 0 <= i < m.pieces.len() ==> valid_utf8(#[trigger] m.pieces[i])
}

/// Marker `a` comes before marker `b`: it is longer, or as long and earlier in
/// the table.
pub open spec fn marker_before(a: (String, u32), b: (String, u32)) -> bool {
    encode_utf8(a.0@).len() > encode_utf8(b.0@).len() || (encode_utf8(a.0@).len() == encode_utf8(
        b.0@,
    ).len() && a.1 < b.1)
}

/// Every entry is a marker of the table under its id.
pub open spec fn markers_sound(m: TokenizerModel, markers: Seq<(String, u32)>) -> bool {
    forall|k: int|
        0 <= k < markers.len() ==> {
            &&& (#[trigger] markers[k]).1 < m.pieces.len()
            &&& m.types[markers[k].1 as int] == TK_USER_DEFINED
            &&& encode_utf8(markers[k].0@) == m.pieces[markers[k].1 as int]
        }
}

/// Longest first, table order among equals.
pub open spec fn markers_sorted(markers: Seq<(String, u32)>) -> bool {
    forall|j: int, k: int|
        0 <= j < k < markers.len() ==> marker_before(#[trigger] markers[j], #[trigger] markers[k])
}

/// Marker `id` is among the entries.
pub open spec fn lists_marker(markers: Seq<(String, u32)>, id: int) -> bool {
    exists|k: int| 0 <= k < markers.len() && (#[trigger] markers[k]).1 == id
}

/// Every marker among the first `n` pieces has an entry.
pub open spec fn markers_complete(m: TokenizerModel, markers: Seq<(String, u32)>, n: int) -> bool {
    forall|id: int|
        0 <= id < n && #[trigger] m.types[id] == TK_USER_DEFINED ==> lists_marker(markers, id)
}

/// A table from byte values to ids.
pub open spec fn byte_table_for(m: TokenizerModel, table: Seq<Option<u32>>, n: int) -> bool {
    &&& table.len() == 256
    &&& forall|b: int|
        0 <= b < 256 ==> #[trigger] table[b] == match byte_piece(m, b as u8, n) {
            Some(id) => Some(id as u32),
            None => None,
        }
}

impl SpTokenizer {
    /// Well-formedness: the model is, and the lookup tables agree with it.
    pub open spec fn wf(&self) -> bool {
        &&& model_wf(self@)
        &&& self.index.wf()
        &&& self.index@ == self@.pieces
        &&& byte_table_for(self@, self.byte_to_id@, self@.pieces.len() as int)
        &&& markers_sound(self@, self.markers@)
        &&& markers_sorted(self.markers@)
        &&& markers_complete(self@, self.markers@, self@.pieces.len() as int)
    }
}


fn hex_value(b: u8) -> (r: Option<u8>)
    ensures
        match r {
            Some(v) => v < 16 && hex_digit(b) == Some(v as int),
            None => hex_digit(b) is None,
        },
{
    if 0x30 <= b && b <= 0x39 {
        Some((b - 0x30) as u8)
    } else if 0x41 <= b && b <= 0x46 {
        Some((b - 0x41 + 10) as u8)
    } else if 0x61 <= b && b <= 0x66 {
        Some((b - 0x61 + 10) as u8)
    } else {
        None
    }
}

/// The byte that a piece `<0xNN>` stands for.
pub fn piece_byte(piece: &[u8]) -> (r: Option<u8>)
    ensures
        match r {
            Some(v) => byte_value(piece@) == Some(v as int),
            None => byte_value(piece@) is None,
        },
{
    if piece.len() != 6 || piece[0] != 0x3C || piece[1] != 0x30 || piece[2] != 0x78 || piece[5]
        != 0x3E {
        return None;
    }
    match hex_value(piece[3]) {
        Some(high) => match hex_value(piece[4]) {
            Some(low) => Some(high * 16 + low),
            None => None,
        },
        None => None,
    }
}

/// What `longest_marker` finds is a marker of greatest length.
pub proof fn lemma_longest_marker(m: TokenizerModel, s: Seq<u8>, i: int, n: int)
    ensures
        match longest_marker(m, s, i, n) {
            Some(p) => 0 <= p < n && marker_occurs(m, s, i, p) && forall|j: int|
                0 <= j < n && #[trigger] marker_occurs(m, s, i, j) ==> m.pieces[j].len()
                    < m.pieces[p].len() || (m.pieces[j].len() == m.pieces[p].len() && p <= j),
            None => forall|j: int| 0 <= j < n ==> !(#[trigger] marker_occurs(m, s, i, j)),
        },
    decreases n,
{
    if n > 0 {
        lemma_longest_marker(m, s, i, n - 1);
    }
}

proof fn lemma_first_malformed(pieces: Seq<Seq<u8>>, types: Seq<u8>, i: int)
    requires
        0 <= i,
    ensures
        first_malformed(pieces, types, i) is None ==> forall|j: int|
            i <= j < pieces.len() ==> !(#[trigger] is_malformed(pieces, types, j)),
        first_malformed(pieces, types, i) matches Some(k) ==> i <= k < pieces.len() && is_malformed(
            pieces,
            types,
            k,
        ),
    decreases pieces.len() - i,
{
    if i < pieces.len() && !is_malformed(pieces, types, i) {
        lemma_first_malformed(pieces, types, i + 1);
    }
}

/// The records read from piece `i` on, given those before, make the table.
proof fn lemma_records_step(blob: Seq<u8>, off: int, i: int, n: int, read: Seq<Piece>)
    requires
        i < n,
        read_records(blob, HDR_BYTES as int, 0, n) == prepend(read, read_records(blob, off, i, n)),
    ensures
        match read_record(blob, off, i) {
            Ok((p, next)) => read_records(blob, HDR_BYTES as int, 0, n) == prepend(
                read.push(p),
                read_records(blob, next, i + 1, n),
            ),
            Err(e) => read_records(blob, HDR_BYTES as int, 0, n) == Err::<Seq<Piece>, _>(e),
        },
{
    match read_record(blob, off, i) {
        Ok((p, next)) => {
            match read_records(blob, next, i + 1, n) {
                Ok(rest) => {
                    assert(read + (seq![p] + rest) =~= read.push(p) + rest);
                },
                Err(e) => {},
            }
        },
        Err(e) => {},
    }
}

spec fn prepend(read: Seq<Piece>, rest: Result<Seq<Piece>, TokenizerError>) -> Result<
    Seq<Piece>,
    TokenizerError,
> {
    match rest {
        Ok(r) => Ok(read + r),
        Err(e) => Err(e),
    }
}

fn empty_byte_table() -> (t: Vec<Option<u32>>)
    ensures
        t@.len() == 256,
        forall|b: int| 0 <= b < 256 ==> #[trigger] t@[b] is None,
{
    let mut t: Vec<Option<u32>> = Vec::new();
    let mut k: usize = 0;
    while k < 256
        invariant
            k <= 256,
            t@.len() == k,
            forall|b: int| 0 <= b < k ==> #[trigger] t@[b] is None,
        decreases 256 - k,
    {
        t.push(None);
        k = k + 1;
    }
    t
}

/// Where a marker of length `len` goes: behind every entry that is at least as
/// long.
fn marker_slot(markers: &Vec<(String, u32)>, len: usize) -> (k: usize)
    requires
        markers_sorted(markers@),
    ensures
        k <= markers@.len(),
        forall|j: int|
            0 <= j < k ==> encode_utf8((#[trigger] markers@[j]).0@).len() >= len,
        forall|j: int|
            k <= j < markers@.len() ==> encode_utf8((#[trigger] markers@[j]).0@).len() < len,
{
    let mut k: usize = 0;
    while k < markers.len() && markers[k].0.as_str().as_bytes().len() >= len
        invariant
            k <= markers@.len(),
            forall|j: int|
                0 <= j < k ==> encode_utf8((#[trigger] markers@[j]).0@).len() >= len,
        decreases markers@.len() - k,
    {
        k = k + 1;
    }
    proof {
        if k < markers@.len() {
            assert forall|j: int| k <= j < markers@.len() implies encode_utf8(
                (#[trigger] markers@[j]).0@,
            ).len() < len by {
                if j > k {
                    assert(marker_before(markers@[k as int], markers@[j]));
                }
            }
        }
    }
    k
}

/// The user-defined pieces, longest first, table order among equals.
fn collect_markers(pieces: &Vec<String>, types: &Vec<u8>, Ghost(m): Ghost<TokenizerModel>) -> (r:
    Vec<(String, u32)>)
    requires
        pieces@.len() == types@.len(),
        pieces@.len() <= u32::MAX,
        m.pieces == encodings(pieces@),
        m.types == types@,
    ensures
        markers_sound(m, r@),
        markers_sorted(r@),
        markers_complete(m, r@, pieces@.len() as int),
{
    let mut markers: Vec<(String, u32)> = Vec::new();
    let mut i: usize = 0;
    while i < pieces.len()
        invariant
            i <= pieces@.len(),
            pieces@.len() == types@.len(),
            pieces@.len() <= u32::MAX,
            m.pieces == encodings(pieces@),
            m.types == types@,
            markers_sound(m, markers@),
            markers_sorted(markers@),
            markers_complete(m, markers@, i as int),
            forall|k: int| 0 <= k < markers@.len() ==> (#[trigger] markers@[k]).1 < i,
        decreases pieces@.len() - i,
    {
        if types[i] == TK_USER_DEFINED {
            let surface = pieces[i].clone();
            let len: usize = surface.as_str().as_bytes().len();
            let k: usize = marker_slot(&markers, len);
            let ghost before = markers@;
            let entry: (String, u32) = (surface, i as u32);
            markers.insert(k, entry);
            proof {
                let now = markers@;
                assert(now[k as int] == entry);
                assert forall|j: int| 0 <= j < now.len() && j != k implies #[trigger] now[j]
                    == before[if j < k { j } else { j - 1 }] by {}
                assert forall|a: int, b: int| 0 <= a < b < now.len() implies marker_before(
                    #[trigger] now[a],
                    #[trigger] now[b],
                ) by {
                    let a0 = if a < k { a } else { a - 1 };
                    let b0 = if b < k { b } else { b - 1 };
                    if a != k && b != k {
                        assert(now[a] == before[a0]);
                        assert(now[b] == before[b0]);
                        assert(marker_before(before[a0], before[b0]));
                    } else if a == k {
                        assert(now[b] == before[b0]);
                    } else {
                        assert(now[a] == before[a0]);
                    }
                }
                assert forall|id: int|
                    0 <= id < i + 1 && #[trigger] m.types[id] == TK_USER_DEFINED implies lists_marker(
                    now,
                    id,
                ) by {
                    if id == i {
                        assert(now[k as int].1 == id);
                    } else {
                        assert(lists_marker(before, id));
                        let j = choose|j: int| 0 <= j < before.len() && (#[trigger] before[j]).1 == id;
                        let j1 = if j < k { j } else { j + 1 };
                        assert(now[j1] == before[j]);
                    }
                }
            }
        }
        i = i + 1;
    }
    markers
}

impl SpTokenizer {
    /// Decode the tokenizer blob of a model file.
    pub fn from_blob(blob: &[u8]) -> (r: Result<SpTokenizer, TokenizerError>)
        requires
            blob@.len() <= isize::MAX,
        ensures
            match parse_blob(blob@) {
                Ok(m) => r is Ok && r->Ok_0.wf() && r->Ok_0@ == m,
                Err(e) => r is Err && r->Err_0 == e,
            },
    {
        let len: usize = blob.len();
        if len < HDR_BYTES {
            return Err(TokenizerError::Truncated { need: HDR_BYTES, got: len });
        }
        let n32: u32 = u32_at(blob, 0);
        let n_pieces: usize = n32 as usize;
        let pad_id: u32 = u32_at(blob, 4);
        let eos_id: u32 = u32_at(blob, 8);
        let bos_id: u32 = u32_at(blob, 12);
        let unk_id: u32 = u32_at(blob, 16);
        let add_dummy_prefix: bool = blob[20] != 0;
        let byte_fallback: bool = blob[21] != 0;
        if n_pieces == 0 {
            return Err(TokenizerError::Empty);
        }
        let mut pieces: Vec<String> = Vec::new();
        let mut scores: Vec<u32> = Vec::new();
        let mut types: Vec<u8> = Vec::new();
        let mut off: usize = HDR_BYTES;
        let mut i: usize = 0;
        let ghost mut read: Seq<Piece> = Seq::empty();
        proof {
            match read_records(blob@, HDR_BYTES as int, 0, n_pieces as int) {
                Ok(rest) => {
                    assert(read + rest =~= rest);
                },
                Err(e) => {},
            }
        }
        while i < n_pieces
            invariant
                i <= n_pieces,
                n_pieces == le32(blob@, 0),
                len == blob@.len(),
                len <= isize::MAX,
                HDR_BYTES <= off <= len,
                read.len() == i,
                read_records(blob@, HDR_BYTES as int, 0, n_pieces as int) == prepend(
                    read,
                    read_records(blob@, off as int, i as int, n_pieces as int),
                ),
                encodings(pieces@) == read.map_values(|p: Piece| p.surface),
                scores@ == read.map_values(|p: Piece| p.score),
                types@ == read.map_values(|p: Piece| p.ty),
                forall|k: int| 0 <= k < read.len() ==> valid_utf8((#[trigger] read[k]).surface),
            decreases n_pieces - i,
        {
            proof {
                lemma_records_step(blob@, off as int, i as int, n_pieces as int, read);
            }
            if len - off < REC_FIXED {
                return Err(TokenizerError::Truncated { need: off + REC_FIXED, got: len });
            }
            let score: u32 = u32_at(blob, off);
            let ty: u8 = blob[off + 4];
            let size: usize = u16_at(blob, off + 5) as usize;
            let start: usize = off + REC_FIXED;
            if len - start < size {
                return Err(TokenizerError::Truncated { need: start + size, got: len });
            }
            let surface = match string_from_utf8(to_bytes(slice_subrange(blob, start, start + size))) {
                Some(s) => s,
                None => {
                    return Err(TokenizerError::InvalidUtf8 { piece: i });
                },
            };
            proof {
                let p = Piece {
                    surface: blob@.subrange(start as int, start + size),
                    score,
                    ty,
                };
                assert(encodings(pieces@.push(surface)) =~= encodings(pieces@).push(
                    encode_utf8(surface@),
                ));
                assert(read.push(p).map_values(|p: Piece| p.surface) =~= read.map_values(
                    |p: Piece| p.surface,
                ).push(p.surface));
                assert(read.push(p).map_values(|p: Piece| p.score) =~= read.map_values(
                    |p: Piece| p.score,
                ).push(p.score));
                assert(read.push(p).map_values(|p: Piece| p.ty) =~= read.map_values(
                    |p: Piece| p.ty,
                ).push(p.ty));
                read = read.push(p);
            }
            off = start + size;
            pieces.push(surface);
            scores.push(score);
            types.push(ty);
            i = i + 1;
        }
        proof {
            assert(read + Seq::<Piece>::empty() =~= read);
        }
        if pad_id as usize >= n_pieces {
            return Err(TokenizerError::SpecialIdOutOfRange { name: "pad", id: pad_id, n_pieces });
        }
        if eos_id as usize >= n_pieces {
            return Err(TokenizerError::SpecialIdOutOfRange { name: "eos", id: eos_id, n_pieces });
        }
        if bos_id as usize >= n_pieces {
            return Err(TokenizerError::SpecialIdOutOfRange { name: "bos", id: bos_id, n_pieces });
        }
        if unk_id as usize >= n_pieces {
            return Err(TokenizerError::SpecialIdOutOfRange { name: "unk", id: unk_id, n_pieces });
        }
        let ghost m = model_from(blob@, read);
        proof {
            assert(encodings(pieces@) == m.pieces);
            assert(m.pieces.len() == n_pieces);
            assert forall|k: int| 0 <= k < m.pieces.len() implies valid_utf8(#[trigger] m.pieces[k]) by {
                assert(valid_utf8(read[k].surface));
            }
        }
        let index = WordMap::from_pieces(&pieces);
        let mut byte_to_id: Vec<Option<u32>> = empty_byte_table();
        i = 0;
        while i < n_pieces
            invariant
                i <= n_pieces,
                n_pieces <= u32::MAX,
                pieces@.len() == n_pieces,
                types@.len() == n_pieces,
                m.pieces == encodings(pieces@),
                m.types == types@,
                byte_table_for(m, byte_to_id@, i as int),
                parse_blob(blob@) == match first_malformed(m.pieces, m.types, 0) {
                    Some(k) => Err(TokenizerError::MalformedBytePiece { piece: k as usize }),
                    None => Ok(m),
                },
                first_malformed(m.pieces, m.types, 0) == first_malformed(
                    m.pieces,
                    m.types,
                    i as int,
                ),
            decreases n_pieces - i,
        {
            assert(m.pieces[i as int] == encode_utf8(pieces@[i as int]@));
            if types[i] == TK_BYTE {
                match piece_byte(pieces[i].as_str().as_bytes()) {
                    Some(b) => {
                        let ghost before = byte_to_id@;
                        byte_to_id.set(b as usize, Some(i as u32));
                        proof {
                            assert forall|c: int| 0 <= c < 256 implies #[trigger] byte_to_id@[c]
                                == match byte_piece(m, c as u8, i + 1) {
                                Some(id) => Some(id as u32),
                                None => None,
                            } by {
                                if c != b {
                                    assert(byte_to_id@[c] == before[c]);
                                }
                            }
                        }
                    },
                    None => {
                        return Err(TokenizerError::MalformedBytePiece { piece: i });
                    },
                }
            } else {
                proof {
                    assert forall|c: int| 0 <= c < 256 implies #[trigger] byte_to_id@[c]
                        == match byte_piece(m, c as u8, i + 1) {
                        Some(id) => Some(id as u32),
                        None => None,
                    } by {}
                }
            }
            i = i + 1;
        }
        let markers = collect_markers(&pieces, &types, Ghost(m));
        proof {
            lemma_first_malformed(m.pieces, m.types, 0);
        }
        let t = SpTokenizer {
            pieces,
            scores,
            types,
            index,
            byte_to_id,
            markers,
            pad_id,
            eos_id,
            bos_id,
            unk_id,
            add_dummy_prefix,
            byte_fallback,
        };
        assert(t@ =~= m);
        Ok(t)
    }
}

} // verus!
