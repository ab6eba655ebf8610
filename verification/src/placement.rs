//! Where everything in a container stands: which word of the header every number of
//! the geometry is, which record every tensor, and which of them every part of a
//! loaded model.

use crate::bundle::{floats_at, has_parts_of, is_cq_at, is_engram, is_head, is_layer, is_load_of, is_model_of, V2Bundle, V2LoadError};
use crate::bits::f16_value;
use crate::cact::{cq_tensor_fault, floats_fault, is_record, Cact, HEADER_BYTES};
use crate::cact_layout::{engram_base, head_base, is_engram_idx, is_head_idx, is_layer_idx, is_layout, layer_base, layout_fault, CactLayout};
use crate::model::V2Model;
use crate::sp_tokenizer::{byte_value, is_malformed, model_wf, parse_blob, read_records, token_text, TokenizerModel};
use vstd::prelude::*;

verus! {

/// The header is a row of words, least significant byte first. Behind the tag come
/// the numbers of the geometry one by one; lists have their length first and room
/// for four entries; the last word is the base of the rotary angles.
pub proof fn law_the_header_is_a_row_of_words(c: Cact)
    requires
        c.wf(),
    ensures
        ({
            let word = |k: int|
                c.raw@[4 * k] + 256 * c.raw@[4 * k + 1] + 65536 * c.raw@[4 * k + 2] + 16777216
                    * c.raw@[4 * k + 3];
            let g = c.geom;
            &&& g.num_tensors == word(1)
            &&& g.codebook_len == word(2)
            &&& g.kv_window == word(3)
            &&& g.kv_bits == word(4)
            &&& g.vocab_size == word(5)
            &&& g.d_model == word(6)
            &&& g.num_heads == word(7)
            &&& g.num_kv_heads == word(8)
            &&& g.num_layers == word(9)
            &&& g.head_dim == word(10)
            &&& g.max_seq_len == word(11)
            &&& g.hada_n == word(12)
            &&& g.mhc_lanes == word(13)
            &&& g.engram_slots == word(14)
            &&& g.engram_sub_dim == word(15)
            &&& g.num_engram_tables == word(16)
            &&& g.engram_conv_taps == word(17)
            &&& g.engram_conv_dilation == word(18)
            &&& g.engram_orders@.len() == if word(19) < 4 {
                word(19)
            } else {
                4
            }
            &&& forall|k: int|
                0 <= k < g.engram_orders@.len() ==> #[trigger] g.engram_orders@[k] == word(20 + k)
            &&& g.engram_sites@.len() == if word(24) < 4 {
                word(24)
            } else {
                4
            }
            &&& forall|k: int|
                0 <= k < g.engram_sites@.len() ==> #[trigger] g.engram_sites@[k] == word(25 + k)
            &&& g.rope_theta == word(29)
        }),
{
    let g = c.geom;
    let m = g@;
    assert(m.engram_orders.len() == g.engram_orders@.len());
    assert(m.engram_sites.len() == g.engram_sites@.len());
    assert forall|k: int| 0 <= k < g.engram_orders@.len() implies #[trigger] g.engram_orders@[k]
        == m.engram_orders[k] by {}
    assert forall|k: int| 0 <= k < g.engram_sites@.len() implies #[trigger] g.engram_sites@[k]
        == m.engram_sites[k] by {}
}

/// A loaded model has the geometry of the header, every number under its own name.
pub proof fn law_a_loaded_model_has_the_geometry_of_its_header(
    r: Result<V2Bundle, V2LoadError>,
    c: Cact,
)
    requires
        is_load_of(r, c),
        r is Ok,
    ensures
        ({
            let m = r->Ok_0.model.cfg;
            let g = c.geom;
            &&& m.vocab_size == g.vocab_size
            &&& m.d_model == g.d_model
            &&& m.num_heads == g.num_heads
            &&& m.num_kv_heads == g.num_kv_heads
            &&& m.num_layers == g.num_layers
            &&& m.head_dim == g.head_dim
            &&& m.max_seq_len == g.max_seq_len
            &&& m.hada_n == g.hada_n
            &&& m.mhc_lanes == g.mhc_lanes
            &&& m.rope_theta == g.rope_theta
            &&& m.kv_window == g.kv_window
            &&& m.engram.slots == g.engram_slots
            &&& m.engram.sub_dim == g.engram_sub_dim
            &&& m.engram.num_tables == g.num_engram_tables
            &&& m.engram.conv_taps == g.engram_conv_taps
            &&& m.engram.conv_dilation == g.engram_conv_dilation
            &&& m.engram.orders@ == g.engram_orders@
            &&& m.engram.sites@ == g.engram_sites@
        }),
{
    let m = lemma_loaded(r, c);
}

proof fn lemma_loaded(r: Result<V2Bundle, V2LoadError>, c: Cact) -> (m: V2Model)
    requires
        is_load_of(r, c),
        r is Ok,
    ensures
        m == r->Ok_0.model,
        is_model_of(m, c),
        layout_fault(c) is None,
        has_parts_of(r->Ok_0, c),
{
    let m = r->Ok_0.model;
    assert(is_model_of(m, c));
    m
}

/// The tensors of a container stand in one order without a gap: the embedding, the
/// layers with their tensors in order, the lane router, the memory sites, the final
/// norm, and behind the manifest the heads.
pub proof fn law_tensors_stand_in_one_order(l: CactLayout, c: Cact)
    requires
        is_layout(l, c),
        c.geom.num_layers > 0,
    ensures
        l.embedding == 0,
        l.layers@[0].norm_in == l.embedding + 1,
        forall|k: int|
            0 <= k < l.layers@.len() ==> {
                let a = #[trigger] l.layers@[k];
                &&& a.q_proj == a.norm_in + 1
                &&& a.k_proj == a.q_proj + 1
                &&& a.v_proj == a.k_proj + 1
                &&& a.q_norm == a.v_proj + 1
                &&& a.k_norm == a.q_norm + 1
                &&& a.gate_proj == a.k_norm + 1
                &&& a.out_proj == a.gate_proj + 1
                &&& a.post_norm == a.out_proj + 1
                &&& a.attn_gate == a.post_norm + 1
                &&& a.pre_hada == a.attn_gate + 1
                &&& a.d1 == a.pre_hada + 1
                &&& a.d2 == a.d1 + 1
                &&& a.d3 == a.d2 + 1
                &&& (if k + 1 < l.layers@.len() {
                    l.layers@[k + 1].norm_in
                } else {
                    l.mhc.a_pre
                }) == a.d3 + 1
            },
        l.mhc.a_post == l.mhc.a_pre + 1,
        l.mhc.a_res == l.mhc.a_post + 1,
        l.mhc.b_pre == l.mhc.a_res + 1,
        l.mhc.b_post == l.mhc.b_pre + 1,
        l.mhc.b_res == l.mhc.b_post + 1,
        l.mhc.phi_pre == l.mhc.b_res + 1,
        l.mhc.phi_post == l.mhc.phi_pre + 1,
        l.mhc.phi_res == l.mhc.phi_post + 1,
        (if l.engrams@.len() > 0 {
            l.engrams@[0].tables
        } else {
            l.final_norm
        }) == l.mhc.phi_res + 1,
        forall|k: int|
            0 <= k < l.engrams@.len() ==> {
                let e = #[trigger] l.engrams@[k];
                &&& e.key_proj == e.tables + 1
                &&& e.value_proj == e.key_proj + 1
                &&& e.taps == e.value_proj + 1
                &&& (if k + 1 < l.engrams@.len() {
                    l.engrams@[k + 1].tables
                } else {
                    l.final_norm
                }) == e.taps + 1
            },
        forall|k: int|
            0 <= k < l.heads@.len() ==> {
                let h = #[trigger] l.heads@[k];
                &&& k == 0 ==> h.probes == l.final_norm + 2
                &&& h.proj == h.probes + 1
                &&& h.bias == h.proj + 1
                &&& k + 1 < l.heads@.len() ==> l.heads@[k + 1].probes == h.bias + 1
            },
{
    let g = c.geom@;
    assert(is_layer_idx(l.layers@[0], layer_base(0)));
    assert forall|k: int| 0 <= k < l.layers@.len() implies {
        let a = #[trigger] l.layers@[k];
        (if k + 1 < l.layers@.len() {
            l.layers@[k + 1].norm_in
        } else {
            l.mhc.a_pre
        }) == a.d3 + 1
    } by {
        assert(is_layer_idx(l.layers@[k], layer_base(k)));
        if k + 1 < l.layers@.len() {
            assert(is_layer_idx(l.layers@[k + 1], layer_base(k + 1)));
        }
    }
    assert forall|k: int| 0 <= k < l.engrams@.len() implies {
        let e = #[trigger] l.engrams@[k];
        (if k + 1 < l.engrams@.len() {
            l.engrams@[k + 1].tables
        } else {
            l.final_norm
        }) == e.taps + 1
    } by {
        assert(is_engram_idx(l.engrams@[k], engram_base(g, k)));
        if k + 1 < l.engrams@.len() {
            assert(is_engram_idx(l.engrams@[k + 1], engram_base(g, k + 1)));
        }
    }
    if l.engrams@.len() > 0 {
        assert(is_engram_idx(l.engrams@[0], engram_base(g, 0)));
    }
    assert forall|k: int| 0 <= k < l.heads@.len() implies {
        let h = #[trigger] l.heads@[k];
        &&& k == 0 ==> h.probes == l.final_norm + 2
        &&& k + 1 < l.heads@.len() ==> l.heads@[k + 1].probes == h.bias + 1
    } by {
        assert(is_head_idx(l.heads@[k], head_base(g, k)));
        if k + 1 < l.heads@.len() {
            assert(is_head_idx(l.heads@[k + 1], head_base(g, k + 1)));
        }
    }
}

/// Every part of a loaded layer is the tensor that the layout lists under the same
/// name: the matrix that makes keys is the one at `k_proj`, the one that makes
/// values the one at `v_proj`, and so on.
pub proof fn law_every_part_of_a_layer_is_the_tensor_of_its_name(
    r: Result<V2Bundle, V2LoadError>,
    c: Cact,
    l: CactLayout,
    k: int,
)
    requires
        is_load_of(r, c),
        r is Ok,
        is_layout(l, c),
        0 <= k < c.geom.num_layers,
    ensures
        r->Ok_0.model.layers@.len() == c.geom.num_layers,
        ({
            let a = l.layers@[k];
            let m = r->Ok_0.model.layers@[k];
            &&& m.norm_in@ == floats_at(c, a.norm_in as int)
            &&& is_cq_at(c, m.q_proj, a.q_proj as int)
            &&& is_cq_at(c, m.k_proj, a.k_proj as int)
            &&& is_cq_at(c, m.v_proj, a.v_proj as int)
            &&& m.q_norm@ == floats_at(c, a.q_norm as int)
            &&& m.k_norm@ == floats_at(c, a.k_norm as int)
            &&& is_cq_at(c, m.gate_proj, a.gate_proj as int)
            &&& is_cq_at(c, m.out_proj, a.out_proj as int)
            &&& m.post_norm@ == floats_at(c, a.post_norm as int)
            &&& m.attn_gate == floats_at(c, a.attn_gate as int)[0]
            &&& m.pre_hada@ == floats_at(c, a.pre_hada as int)
            &&& m.d1@ == floats_at(c, a.d1 as int)
            &&& m.d2@ == floats_at(c, a.d2 as int)
            &&& m.d3@ == floats_at(c, a.d3 as int)
        }),
{
    let m = lemma_loaded(r, c);
    assert(is_layer(m.layers@[k], c, layer_base(k)));
    assert(is_layer_idx(l.layers@[k], layer_base(k)));
}

/// So is every other part: the embedding, the lane router, the memory sites, the
/// final norm, the heads with their codes, and the tokenizer.
pub proof fn law_every_part_of_a_model_is_the_tensor_of_its_name(
    r: Result<V2Bundle, V2LoadError>,
    c: Cact,
    l: CactLayout,
)
    requires
        c.wf(),
        is_load_of(r, c),
        r is Ok,
        is_layout(l, c),
    ensures
        ({
            let b = r->Ok_0;
            let m = b.model.mhc;
            let a = l.mhc;
            &&& is_cq_at(c, b.model.embedding, l.embedding as int)
            &&& m.a_pre@ == floats_at(c, a.a_pre as int)
            &&& m.a_post@ == floats_at(c, a.a_post as int)
            &&& m.a_res@ == floats_at(c, a.a_res as int)
            &&& m.b_pre@ == floats_at(c, a.b_pre as int)
            &&& m.b_post@ == floats_at(c, a.b_post as int)
            &&& m.b_res@ == floats_at(c, a.b_res as int)
            &&& is_cq_at(c, m.phi_pre, a.phi_pre as int)
            &&& is_cq_at(c, m.phi_post, a.phi_post as int)
            &&& is_cq_at(c, m.phi_res, a.phi_res as int)
            &&& b.model.final_norm@ == floats_at(c, l.final_norm as int)
            &&& b.model.engrams@.len() == l.engrams@.len()
            &&& b.heads@.len() == l.heads@.len()
            &&& b.tokenizer is Some <==> l.tokenizer is Some
            &&& l.tokenizer is Some ==> parse_blob(c.blob_of(l.tokenizer->0 as int)) == Ok::<
                crate::sp_tokenizer::TokenizerModel,
                crate::sp_tokenizer::TokenizerError,
            >(b.tokenizer->0@)
        }),
        forall|k: int|
            0 <= k < l.engrams@.len() ==> {
                let e = #[trigger] l.engrams@[k];
                let m = r->Ok_0.model.engrams@[k];
                &&& is_cq_at(c, m.tables, e.tables as int)
                &&& is_cq_at(c, m.key_proj, e.key_proj as int)
                &&& is_cq_at(c, m.value_proj, e.value_proj as int)
                &&& m.taps@ == floats_at(c, e.taps as int)
            },
        forall|k: int|
            0 <= k < l.heads@.len() ==> {
                let h = #[trigger] l.heads@[k];
                let m = r->Ok_0.heads@[k];
                &&& m.code == h.code
                &&& m.probes@ == floats_at(c, h.probes as int)
                &&& m.proj@ == floats_at(c, h.proj as int)
                &&& m.bias@ == floats_at(c, h.bias as int)
                &&& m.num_probes == c.records@[h.probes as int].shape@[0]
                &&& m.out_dim == c.records@[h.proj as int].shape@[0]
                &&& m.d_model == c.geom.d_model
            },
{
    let m = lemma_loaded(r, c);
    assert forall|k: int| 0 <= k < l.engrams@.len() implies {
        let e = #[trigger] l.engrams@[k];
        let n = m.engrams@[k];
        &&& is_cq_at(c, n.tables, e.tables as int)
        &&& is_cq_at(c, n.key_proj, e.key_proj as int)
        &&& is_cq_at(c, n.value_proj, e.value_proj as int)
        &&& n.taps@ == floats_at(c, e.taps as int)
    } by {
        assert(is_engram(m.engrams@[k], c, engram_base(c.geom@, k)));
        assert(is_engram_idx(l.engrams@[k], engram_base(c.geom@, k)));
    }
    assert forall|k: int| 0 <= k < l.heads@.len() implies {
        let h = #[trigger] l.heads@[k];
        let n = r->Ok_0.heads@[k];
        &&& n.code == h.code
        &&& n.probes@ == floats_at(c, h.probes as int)
        &&& n.proj@ == floats_at(c, h.proj as int)
        &&& n.bias@ == floats_at(c, h.bias as int)
        &&& n.num_probes == c.records@[h.probes as int].shape@[0]
        &&& n.out_dim == c.records@[h.proj as int].shape@[0]
        &&& n.d_model == c.geom.d_model
    } by {
        assert(is_head(r->Ok_0.heads@[k], c, head_base(c.geom@, k)));
        assert(is_head_idx(l.heads@[k], head_base(c.geom@, k)));
    }
}

/// A container starts with its tag, has 28 levels behind the header, and behind them
/// the directory: one record of 44 bytes for every tensor, with its type, the number
/// of its dimensions and the dimensions, where its bytes start and how many they are,
/// and for quantised tensors the group size and the width.
pub proof fn law_the_directory_is_a_row_of_records(c: Cact, i: int)
    requires
        c.wf(),
        0 <= i < c.geom.num_tensors,
    ensures
        c.raw@[0] == 0x83 && c.raw@[1] == 0x2A && c.raw@[2] == 0xE1 && c.raw@[3] == 0x05,
        c.records@.len() == c.geom.num_tensors,
        c.codebook@.len() == 28,
        ({
            let word = |o: int|
                c.raw@[o] + 256 * c.raw@[o + 1] + 65536 * c.raw@[o + 2] + 16777216 * c.raw@[o + 3];
            let o = 232 + 44 * i;
            let r = c.records@[i];
            let start = word(o + 20) + 0x1_0000_0000 * word(o + 24);
            let count = word(o + 28) + 0x1_0000_0000 * word(o + 32);
            &&& forall|k: int| 0 <= k < 28 ==> #[trigger] c.codebook@[k] == word(120 + 4 * k)
            &&& r.dtype == c.raw@[o]
            &&& r.ndim == c.raw@[o + 1]
            &&& r.shape@[0] == word(o + 4)
            &&& r.shape@[1] == word(o + 8)
            &&& r.shape@[2] == word(o + 12)
            &&& r.shape@[3] == word(o + 16)
            &&& r.group == word(o + 36)
            &&& r.bits == word(o + 40) % 256
            &&& c.blob_of(i) == c.raw@.subrange(start, start + count)
        }),
{
    assert(is_record(c.records@[i], c.raw@, i));
    assert(crate::cact::field(c.raw@, 0) == 0x05E1_2A83);
    assert forall|k: int| 0 <= k < 28 implies #[trigger] c.codebook@[k] == c.raw@[120 + 4 * k] + 256
        * c.raw@[120 + 4 * k + 1] + 65536 * c.raw@[120 + 4 * k + 2] + 16777216 * c.raw@[120 + 4 * k
        + 3] by {
        assert(c.codebook@[k] == crate::le::le32(c.raw@, HEADER_BYTES + 4 * k));
    }
}

/// Tensors of type 1 hold 16-bit floats and those of type 2 32-bit floats, one behind
/// the other and least significant byte first; those of type 3 are quantised; no other
/// holds numbers.
pub proof fn law_types_say_what_a_tensor_holds(c: Cact, i: int, k: int)
    requires
        c.wf(),
        0 <= i < c.records@.len(),
        0 <= k,
    ensures
        ({
            let t = c.records@[i].dtype;
            let b = c.blob_of(i);
            let f = floats_at(c, i);
            &&& floats_fault(c.records@[i], i) is None <==> (t == 1 && b.len() % 2 == 0) || (t == 2
                && b.len() % 4 == 0)
            &&& cq_tensor_fault(c.records@[i], i, c.codebook@) is None ==> t == 3
            &&& t == 1 ==> f.len() == b.len() / 2 && (k < f.len() ==> f[k] == f16_value(
                (b[2 * k] + 256 * b[2 * k + 1]) as u16,
            ))
            &&& t == 2 ==> f.len() == b.len() / 4 && (k < f.len() ==> f[k] == b[4 * k] + 256 * b[4 * k
                + 1] + 65536 * b[4 * k + 2] + 16777216 * b[4 * k + 3])
        }),
{
    let r = c.records@[i];
    c.lemma_blob_in_range(i);
    let b = c.blob_of(i);
    assert(b.len() == r.nbytes);
}

/// Where the record of piece `k` of a tokenizer starts.
pub open spec fn piece_start(blob: Seq<u8>, k: int) -> int
    decreases k,
{
    if k <= 0 {
        24
    } else {
        let o = piece_start(blob, k - 1);
        o + 7 + blob[o + 5] + 256 * blob[o + 6]
    }
}

proof fn lemma_records(blob: Seq<u8>, i: int, n: int, k: int)
    requires
        0 <= i <= k < n,
        read_records(blob, piece_start(blob, i), i, n) is Ok,
    ensures
        ({
            let rs = read_records(blob, piece_start(blob, i), i, n)->Ok_0;
            let o = piece_start(blob, k);
            &&& rs.len() == n - i
            &&& rs[k - i].surface == blob.subrange(o + 7, o + 7 + blob[o + 5] + 256 * blob[o + 6])
            &&& rs[k - i].score == (blob[o] + 256 * blob[o + 1] + 65536 * blob[o + 2] + 16777216
                * blob[o + 3])
            &&& rs[k - i].ty == blob[o + 4]
        }),
    decreases n - i,
{
    let o = piece_start(blob, i);
    assert(piece_start(blob, i + 1) == o + 7 + blob[o + 5] + 256 * blob[o + 6]);
    let rs = read_records(blob, o, i, n)->Ok_0;
    let rest = read_records(blob, piece_start(blob, i + 1), i + 1, n);
    assert(rest is Ok);
    if i + 1 < n {
        if k > i {
            lemma_records(blob, i + 1, n, k);
            assert(rs[k - i] == rest->Ok_0[k - i - 1]);
        } else {
            lemma_records(blob, i + 1, n, i + 1);
        }
    } else {
        assert(rest->Ok_0 =~= Seq::empty());
    }
}

/// A tokenizer is a header of 24 bytes with the number of pieces, the special ids and
/// two switches, and behind it the pieces, one record behind the other: the score,
/// the type, the length of the text and the text.
pub proof fn law_a_tokenizer_is_a_header_and_its_pieces(blob: Seq<u8>, k: int)
    requires
        parse_blob(blob) is Ok,
        0 <= k < parse_blob(blob)->Ok_0.pieces.len(),
    ensures
        ({
            let word = |o: int|
                blob[o] + 256 * blob[o + 1] + 65536 * blob[o + 2] + 16777216 * blob[o + 3];
            let m = parse_blob(blob)->Ok_0;
            let o = piece_start(blob, k);
            &&& m.pieces.len() == word(0)
            &&& m.scores.len() == word(0)
            &&& m.types.len() == word(0)
            &&& m.pad_id == word(4)
            &&& m.eos_id == word(8)
            &&& m.bos_id == word(12)
            &&& m.unk_id == word(16)
            &&& m.add_dummy_prefix == (blob[20] != 0)
            &&& m.byte_fallback == (blob[21] != 0)
            &&& m.scores[k] == word(o)
            &&& m.types[k] == blob[o + 4]
            &&& m.pieces[k] == blob.subrange(o + 7, o + 7 + blob[o + 5] + 256 * blob[o + 6])
        }),
{
    let n = crate::le::le32(blob, 0);
    assert(piece_start(blob, 0) == 24);
    let rs = read_records(blob, 24, 0, n)->Ok_0;
    if n > 0 {
        lemma_records(blob, 0, n, 0);
        lemma_records(blob, 0, n, k);
    }
}

/// Types say what a piece contributes to a text: one of type 4 its byte, those of
/// types 1 and 2 nothing, any other its own text.
pub proof fn law_types_say_what_a_piece_contributes(m: TokenizerModel, id: int)
    requires
        model_wf(m),
        0 <= id < m.pieces.len(),
    ensures
        m.types[id] == 4 ==> token_text(m, id).len() == 1 && byte_value(m.pieces[id]) == Some(
            token_text(m, id)[0] as int,
        ),
        m.types[id] == 1 || m.types[id] == 2 ==> token_text(m, id) == Seq::<u8>::empty(),
        m.types[id] != 1 && m.types[id] != 2 && m.types[id] != 4 ==> token_text(m, id)
            == m.pieces[id],
{
    assert(!is_malformed(m.pieces, m.types, id));
    if m.types[id] == 4 {
        lemma_byte_value(m.pieces[id]);
    }
}

proof fn lemma_byte_value(piece: Seq<u8>)
    ensures
        byte_value(piece) matches Some(b) ==> 0 <= b < 256,
{
}

} // verus!
