use needle::cact::{
    Cact, CactError, ALIGN, DT_CQ, DT_FP16, DT_FP32, DT_RAW, HEADER_BYTES, HEAD_CONFIDENCE,
    HEAD_CONTRASTIVE, MHC_TENSORS, REC_BYTES, TAG, TENSORS_PER_LAYER,
};
use needle::cact_layout::CactLayout;
use needle::cq::{CqError, CODEBOOK_LEN};

fn synth(num_layers: usize, with_heads: bool, with_tokenizer: bool) -> Vec<u8> {
    let (d, heads, kv_heads, hd, lanes) = (8usize, 2usize, 1usize, 4usize, 2usize);
    let vocab = 6usize;
    let attn = heads * hd;
    let kv = kv_heads * hd;
    let hada = d.next_power_of_two();

    // (shape, dtype) in canon order; embedding is FP16 here for simplicity.
    let mut shapes: Vec<Vec<usize>> = vec![vec![vocab, d]];
    for _ in 0..num_layers {
        shapes.extend([
            vec![d],
            vec![attn, d],
            vec![kv, d],
            vec![kv, d],
            vec![hd],
            vec![hd],
            vec![attn, d],
            vec![d, attn],
            vec![d],
            vec![1],
            vec![d],
            vec![hada],
            vec![hada],
            vec![hada],
        ]);
    }
    shapes.extend([
        vec![num_layers],
        vec![num_layers],
        vec![num_layers],
        vec![num_layers, lanes],
        vec![num_layers, lanes],
        vec![num_layers, lanes, lanes],
        vec![num_layers * lanes, lanes * d],
        vec![num_layers * lanes, lanes * d],
        vec![num_layers * lanes * lanes, lanes * d],
    ]);
    shapes.push(vec![d]); // final_norm
    if with_heads {
        shapes.push(vec![2]); // manifest: contrastive + confidence
        for &p in &[4usize, 8usize] {
            shapes.push(vec![p, d]);
            shapes.push(vec![1, p * d]);
            shapes.push(vec![1]);
        }
    }
    let n_tensors = shapes.len() + usize::from(with_tokenizer);

    let cb: Vec<f32> = (0..CODEBOOK_LEN).map(|i| i as f32 * 0.01).collect();
    let mut hdr: Vec<u8> = Vec::new();
    for v in [
        TAG,
        n_tensors as u32,
        CODEBOOK_LEN as u32,
        0,
        8,
        vocab as u32,
        d as u32,
        heads as u32,
        kv_heads as u32,
        num_layers as u32,
        hd as u32,
        32,
        hada as u32,
        lanes as u32,
        0,
        0,
        0,
        0,
        0,
        0,
        0,
        0,
        0,
        0,
        0,
        0,
        0,
        0,
        0,
    ] {
        hdr.extend_from_slice(&v.to_le_bytes());
    }
    hdr.extend_from_slice(&100000.0f32.to_le_bytes());
    assert_eq!(hdr.len(), HEADER_BYTES);
    for &v in &cb {
        hdr.extend_from_slice(&v.to_le_bytes());
    }

    // Lay out blobs 64-byte aligned after the directory.
    let mut pos = hdr.len() + n_tensors * REC_BYTES;
    let mut recs = Vec::new();
    for (ti, s) in shapes.iter().enumerate() {
        let numel: usize = s.iter().product();
        let nbytes = numel * 2;
        pos = (pos + ALIGN - 1) & !(ALIGN - 1);
        // manifest holds the head codes; everything else is filler.
        let vals: Vec<u16> = if with_heads && ti == shapes.len() - 7 {
            vec![0x3C00, 0x4000] // 1.0, 2.0
        } else {
            (0..numel).map(|k| 0x3C00u16.wrapping_add(k as u16)).collect()
        };
        recs.push((DT_FP16, s.clone(), pos as u64, nbytes as u64, 0usize, 0u8, vals));
        pos += nbytes;
    }
    if with_tokenizer {
        pos = (pos + ALIGN - 1) & !(ALIGN - 1);
        recs.push((DT_RAW, vec![], pos as u64, 16, 0, 0, vec![0u16; 8]));
    }

    let mut dir = Vec::new();
    for (dtype, shape, offset, nbytes, group, bits, _) in &recs {
        dir.push(*dtype);
        dir.push(shape.len() as u8);
        dir.extend_from_slice(&0u16.to_le_bytes());
        for k in 0..4 {
            dir.extend_from_slice(&(*shape.get(k).unwrap_or(&0) as u32).to_le_bytes());
        }
        dir.extend_from_slice(&offset.to_le_bytes());
        dir.extend_from_slice(&nbytes.to_le_bytes());
        dir.extend_from_slice(&(*group as u32).to_le_bytes());
        dir.extend_from_slice(&(*bits as u32).to_le_bytes());
    }

    let mut buf = hdr;
    buf.extend_from_slice(&dir);
    for (_, _, offset, _, _, _, vals) in &recs {
        buf.resize(*offset as usize, 0);
        for v in vals {
            buf.extend_from_slice(&v.to_le_bytes());
        }
    }
    buf
}

#[test]
fn parses_header_and_directory() {
    let c = Cact::from_bytes(synth(3, true, true)).unwrap();
    assert_eq!(c.geom.d_model, 8);
    assert_eq!(c.geom.num_layers, 3);
    assert_eq!(c.geom.mhc_lanes, 2);
    assert_eq!(f32::from_bits(c.geom.rope_theta), 100000.0);
    assert_eq!(c.geom.attn_dim(), 8);
    assert_eq!(c.geom.kv_dim(), 4);
    assert!(c.geom.engram_sites.is_empty());
    assert_eq!(c.geom.engram_window(), 0);
}

#[test]
fn layout_resolves_canon_positions() {
    let c = Cact::from_bytes(synth(3, true, true)).unwrap();
    let l = c.layout().unwrap();
    assert_eq!(l.embedding, 0);
    assert_eq!(l.layers.len(), 3);
    assert_eq!(l.layers[0].norm_in, 1);
    assert_eq!(l.layers[0].d3, 14);
    assert_eq!(l.layers[1].norm_in, 15);
    assert_eq!(l.mhc.a_pre, 1 + 3 * TENSORS_PER_LAYER);
    assert_eq!(l.mhc.phi_res, l.mhc.a_pre + 8);
    assert_eq!(l.final_norm, l.mhc.a_pre + MHC_TENSORS);
    assert_eq!(l.heads.len(), 2);
    assert_eq!(l.heads[0].code, HEAD_CONTRASTIVE);
    assert_eq!(l.heads[1].code, HEAD_CONFIDENCE);
    assert_eq!(l.tokenizer, Some(c.num_tensors() - 1));
    assert!(l.head(HEAD_CONFIDENCE).is_some());
}

#[test]
fn layout_without_heads_or_tokenizer() {
    let c = Cact::from_bytes(synth(2, false, false)).unwrap();
    let l = c.layout().unwrap();
    assert!(l.heads.is_empty());
    assert!(l.head_manifest.is_none());
    assert!(l.tokenizer.is_none());
    assert_eq!(l.final_norm, c.num_tensors() - 1);
}

#[test]
fn heads_present_but_no_tokenizer() {
    let c = Cact::from_bytes(synth(2, true, false)).unwrap();
    let l = c.layout().unwrap();
    assert_eq!(l.heads.len(), 2);
    assert!(l.tokenizer.is_none());
}

#[test]
fn rejects_bad_tag() {
    let mut b = synth(2, false, false);
    b[0] ^= 0xFF;
    assert!(matches!(Cact::from_bytes(b), Err(CactError::BadTag(_))));
}

#[test]
fn rejects_truncated_file() {
    let b = synth(2, false, false);
    let n = b.len();
    assert!(matches!(
        Cact::from_bytes(b[..n / 2].to_vec()),
        Err(CactError::BlobOutOfRange { .. }) | Err(CactError::TooShort { .. })
    ));
}

#[test]
fn rejects_shape_that_contradicts_geometry() {
    let b = synth(2, false, false);
    let mut c = Cact::from_bytes(b).unwrap();
    // Corrupt the recorded d_model of layer 0's norm_in.
    c.records[1].shape[0] += 1;
    assert!(matches!(c.layout(), Err(CactError::ShapeMismatch { .. })));
}

#[test]
fn rejects_inconsistent_trailing_tensor_count() {
    let mut b = synth(2, true, false);
    // Claim one fewer tensor: 6 trailing instead of 7 -> not 1 + 3h.
    let n = u32::from_le_bytes([b[4], b[5], b[6], b[7]]);
    b[4..8].copy_from_slice(&(n - 1).to_le_bytes());
    let c = Cact::from_bytes(b).unwrap();
    assert!(matches!(c.layout(), Err(CactError::BadHeadManifest { .. })));
}

#[test]
fn floats_decode_fp16() {
    let c = Cact::from_bytes(synth(1, false, false)).unwrap();
    let v = c.floats(c.layout().unwrap().layers[0].norm_in).unwrap();
    assert_eq!(v.len(), 8);
    assert_eq!(f32::from_bits(v[0]), 1.0);
}

#[test]
fn dtype_mismatch_is_reported() {
    let c = Cact::from_bytes(synth(1, false, true)).unwrap();
    let tok = c.layout().unwrap().tokenizer.unwrap();
    assert!(matches!(c.floats(tok), Err(CactError::DtypeMismatch { .. })));
    assert!(matches!(c.cq(0), Err(CactError::DtypeMismatch { .. })));
    assert_eq!(c.raw_tensor(tok).unwrap().len(), 16);
}

fn set_u32(b: &mut [u8], at: usize, v: u32) {
    b[at..at + 4].copy_from_slice(&v.to_le_bytes());
}

/// Where record `i` of the directory starts.
fn rec(i: usize) -> usize {
    HEADER_BYTES + CODEBOOK_LEN * 4 + i * REC_BYTES
}

#[test]
fn every_fault_of_a_header_is_told() {
    assert_eq!(
        Cact::from_bytes(vec![0u8; 8]).err(),
        Some(CactError::TooShort { need: HEADER_BYTES, got: 8 })
    );
    let mut b = synth(1, false, false);
    set_u32(&mut b, 0, 7);
    assert_eq!(Cact::from_bytes(b).err(), Some(CactError::BadTag(7)));
    let mut b = synth(1, false, false);
    set_u32(&mut b, 8, 27);
    assert_eq!(Cact::from_bytes(b).err(), Some(CactError::BadCodebookLen(27)));
    let mut b = synth(1, false, false);
    b[rec(0) + 1] = 5;
    assert_eq!(Cact::from_bytes(b).err(), Some(CactError::BadNdim { index: 0, ndim: 5 }));
    let mut b = synth(1, false, false);
    b[rec(2) + 20..rec(2) + 28].copy_from_slice(&u64::MAX.to_le_bytes());
    assert!(matches!(
        Cact::from_bytes(b).err(),
        Some(CactError::BlobOutOfRange { index: 2, offset: u64::MAX, .. })
    ));
}

#[test]
fn every_fault_of_a_tensor_is_told() {
    let mut c = Cact::from_bytes(synth(1, false, true)).unwrap();
    assert_eq!(
        c.cq(0).err(),
        Some(CactError::DtypeMismatch { index: 0, want: DT_CQ, got: DT_FP16 })
    );
    assert_eq!(
        c.raw_tensor(0).err(),
        Some(CactError::DtypeMismatch { index: 0, want: DT_RAW, got: DT_FP16 })
    );
    c.records[1].nbytes = 3;
    assert_eq!(c.floats(1).err(), Some(CactError::RaggedBlob { index: 1, nbytes: 3 }));
    c.records[1].nbytes = 8;
    c.records[1].dtype = DT_FP32;
    assert_eq!(c.floats(1).unwrap().len(), 2);
    c.records[0].dtype = DT_CQ;
    c.records[0].group = 96;
    c.records[0].bits = 2;
    assert_eq!(c.cq(0).err(), Some(CactError::Cq(CqError::BadGroup(96))));
}

#[test]
fn a_head_with_an_unknown_code_is_refused() {
    let b = synth(1, true, false);
    let c = Cact::from_bytes(b.clone()).unwrap();
    let at = c.records()[c.layout().unwrap().head_manifest.unwrap()].offset as usize;
    let mut b = b;
    b[at..at + 2].copy_from_slice(&0x4200u16.to_le_bytes());
    let c = Cact::from_bytes(b).unwrap();
    assert_eq!(c.layout().err(), Some(CactError::UnknownHeadCode(3)));
}

#[test]
fn too_few_tensors_are_refused() {
    let mut b = synth(2, false, false);
    set_u32(&mut b, 4, 3);
    let c = Cact::from_bytes(b).unwrap();
    assert_eq!(
        c.layout().err(),
        Some(CactError::TensorCountTooSmall {
            need: 1 + 2 * TENSORS_PER_LAYER + MHC_TENSORS + 1,
            got: 3
        })
    );
}

#[test]
fn the_layout_names_every_tensor_once() {
    let c = Cact::from_bytes(synth(2, true, true)).unwrap();
    let l = CactLayout::derive(&c).unwrap();
    let mut seen = vec![l.embedding, l.final_norm, l.head_manifest.unwrap(), l.tokenizer.unwrap()];
    for y in &l.layers {
        seen.extend([
            y.norm_in, y.q_proj, y.k_proj, y.v_proj, y.q_norm, y.k_norm, y.gate_proj, y.out_proj,
            y.post_norm, y.attn_gate, y.pre_hada, y.d1, y.d2, y.d3,
        ]);
    }
    let m = &l.mhc;
    seen.extend([
        m.a_pre, m.a_post, m.a_res, m.b_pre, m.b_post, m.b_res, m.phi_pre, m.phi_post, m.phi_res,
    ]);
    for h in &l.heads {
        seen.extend([h.probes, h.proj, h.bias]);
    }
    seen.sort();
    assert_eq!(seen, (0..c.num_tensors()).collect::<Vec<_>>());
    assert_eq!(c.byte_len(), synth(2, true, true).len());
    assert_eq!(c.record(0).numel(), 48);
}

#[test]
fn messages_say_what_is_wrong() {
    assert!(CactError::BadTag(0x1234).message().contains("1234"));
    assert!(CactError::TooShort { need: 120, got: 8 }.message().contains("120"));
    assert!(CactError::Cq(CqError::BadGroup(96)).message().contains("96"));
}
