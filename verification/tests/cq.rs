use needle::arith::{Arith, Binary, Unary};
use needle::bits::f16_to_f32;
use needle::cq::{
    codebook_slice, packed_row_bytes, read_bits, CqError, CqWeight, CODEBOOK_LEN, TERNARY_CENTROID,
    TERNARY_RECORD_BITS,
};
use needle::hadamard::fwht_normalized;

fn unary(o: Unary, a: u32) -> u32 {
    let x = f32::from_bits(a);
    let r = match o {
        Unary::Sqrt => libm::sqrtf(x),
        Unary::Exp => libm::expf(x),
        Unary::Ln => libm::logf(x),
        Unary::Sigmoid => 1.0 / (1.0 + libm::expf(-x)),
    };
    r.to_bits()
}

fn binary(o: Binary, a: u32, b: u32) -> u32 {
    let (x, y) = (f32::from_bits(a), f32::from_bits(b));
    let r = match o {
        Binary::Add => x + y,
        Binary::Sub => x - y,
        Binary::Mul => x * y,
        Binary::Div => x / y,
        Binary::Max => x.max(y),
    };
    r.to_bits()
}

fn count(n: usize) -> u32 {
    (n as f32).to_bits()
}

type Floats = Arith<fn(Unary, u32) -> u32, fn(Binary, u32, u32) -> u32, fn(usize) -> u32>;

fn floats() -> Floats {
    Arith { unary, binary, count }
}

fn bits(x: &[f32]) -> Vec<u32> {
    x.iter().map(|v| v.to_bits()).collect()
}

fn values(x: &[u32]) -> Vec<f32> {
    x.iter().map(|v| f32::from_bits(*v)).collect()
}

const CODEBOOK_WIDTHS: [u8; 3] = [2, 3, 4];

fn fake_codebook(group: usize) -> Vec<f32> {
    let s = 1.0 / libm::sqrtf(group as f32);
    let mut cb = Vec::with_capacity(CODEBOOK_LEN);
    for &bits in &CODEBOOK_WIDTHS {
        let levels = 1usize << bits;
        for i in 0..levels {
            let v = (i as f32 - (levels as f32 - 1.0) / 2.0) / (levels as f32 / 2.0);
            cb.push(v * s);
        }
    }
    assert_eq!(cb.len(), CODEBOOK_LEN);
    cb
}

fn pack_lsb(idx: &[u8], out: usize, in_pad: usize, bits: usize) -> Vec<u8> {
    let row_bytes = in_pad * bits / 8;
    let mut packed = vec![0u8; out * row_bytes];
    for o in 0..out {
        for k in 0..in_pad {
            let v = idx[o * in_pad + k] as u32;
            let bit = k * bits;
            for b in 0..bits {
                if (v >> b) & 1 == 1 {
                    let abs = bit + b;
                    packed[o * row_bytes + abs / 8] |= 1 << (abs % 8);
                }
            }
        }
    }
    packed
}

fn f32_to_f16(v: f32) -> u16 {
    let x = v.to_bits();
    let sign = ((x >> 31) as u16) << 15;
    let exp = ((x >> 23) & 0xFF) as i32 - 127;
    let mant = x & 0x7F_FFFF;
    if exp < -14 {
        return sign;
    }
    if exp > 15 {
        return sign | 0x7C00;
    }
    sign | (((exp + 15) as u16) << 10) | ((mant >> 13) as u16)
}

struct Case {
    w: CqWeight,
    dense: Vec<f32>,
}

fn build_case(out: usize, in_feat: usize, group: usize, width: u8) -> Case {
    let cb = fake_codebook(group);
    let levels: Vec<f32> = if width == TERNARY_RECORD_BITS {
        let s = f32::from_bits(TERNARY_CENTROID) / libm::sqrtf(group as f32);
        vec![-s, 0.0, s]
    } else {
        values(codebook_slice(&bits(&cb), width).unwrap())
    };
    let n_levels = levels.len();

    let in_pad = in_feat.div_ceil(group) * group;
    let num_groups = in_pad / group;

    let idx: Vec<u8> = (0..out * in_pad)
        .map(|i| ((i * 7 + i / 13) % n_levels) as u8)
        .collect();
    let norms: Vec<f32> = (0..out * num_groups)
        .map(|i| 0.25 + (i % 11) as f32 * 0.125)
        .collect();

    let packed = if width == TERNARY_RECORD_BITS {
        let crumbs: Vec<u8> = idx.iter().map(|&t| if t == 0 { 3 } else { t - 1 }).collect();
        pack_lsb(&crumbs, out, in_pad, 2)
    } else {
        pack_lsb(&idx, out, in_pad, width as usize)
    };

    let mut blob = packed;
    for &n in &norms {
        blob.extend_from_slice(&f32_to_f16(n).to_le_bytes());
    }

    let mut dense = vec![0.0f32; out * in_feat];
    for o in 0..out {
        for g in 0..num_groups {
            let norm = f32::from_bits(f16_to_f32(f32_to_f16(norms[o * num_groups + g])));
            let u: Vec<f32> = (0..group)
                .map(|k| levels[idx[o * in_pad + g * group + k] as usize] * norm)
                .collect();
            let mut u = bits(&u);
            fwht_normalized(&floats(), &mut u);
            for (k, val) in values(&u).into_iter().enumerate() {
                let col = g * group + k;
                if col < in_feat {
                    dense[o * in_feat + col] = val;
                }
            }
        }
    }

    let w = CqWeight::from_blob(&blob, out, in_feat, group, width, &bits(&cb)).unwrap();
    Case { w, dense }
}

const WIDTHS: [u8; 4] = [2, 3, 4, TERNARY_RECORD_BITS];

#[test]
fn dequantize_matches_reference_reconstruction() {
    for &width in &WIDTHS {
        for &(out, in_feat, group) in &[(5usize, 16usize, 16usize), (3, 40, 8), (7, 128, 128)] {
            let c = build_case(out, in_feat, group, width);
            let got = values(&c.w.dequantize_to(&floats()));
            assert_eq!(got.len(), out * in_feat);
            for (i, (&g_i, &want)) in got.iter().zip(c.dense.iter()).enumerate() {
                assert!(
                    (g_i - want).abs() < 1e-5,
                    "bits={width} shape={out}x{in_feat} g={group} i={i}: {g_i} vs {want}"
                );
            }
        }
    }
}

#[test]
fn matvec_matches_dense_multiply() {
    for &width in &WIDTHS {
        for &(out, in_feat, group) in
            &[(5usize, 16usize, 16usize), (3, 40, 8), (9, 128, 128), (4, 200, 64)]
        {
            let c = build_case(out, in_feat, group, width);
            let x: Vec<f32> = (0..in_feat)
                .map(|i| (i as f32 * 0.31).sin() * 1.7 + 0.05 * i as f32)
                .collect();

            let got = values(&c.w.matvec(&floats(), &bits(&x)));
            assert_eq!(got.len(), out);

            for (o, &g_o) in got.iter().enumerate() {
                let want: f32 = (0..in_feat).map(|j| c.dense[o * in_feat + j] * x[j]).sum();
                let tol = 1e-4 * want.abs().max(1.0);
                assert!(
                    (g_o - want).abs() < tol,
                    "bits={width} shape={out}x{in_feat} g={group} o={o}: {g_o} vs {want}"
                );
            }
        }
    }
}

#[test]
fn padding_does_not_leak_into_matvec() {
    let c = build_case(6, 40, 32, 2);
    let x: Vec<f32> = (0..40).map(|i| 1.0 + i as f32).collect();
    let got = values(&c.w.matvec(&floats(), &bits(&x)));
    for (o, &g_o) in got.iter().enumerate() {
        let want: f32 = (0..40).map(|j| c.dense[o * 40 + j] * x[j]).sum();
        assert!((g_o - want).abs() < 1e-3 * want.abs().max(1.0));
    }
}

#[test]
fn row_range_matches_full_matvec() {
    for &width in &WIDTHS {
        let c = build_case(24, 128, 128, width);
        let x: Vec<f32> = (0..128).map(|i| (i as f32 * 0.19).sin()).collect();
        let full = c.w.matvec(&floats(), &bits(&x));

        let xh = c.w.prepare_input(&floats(), &bits(&x));
        assert_eq!(xh.len(), c.w.prepared_len());
        for &(start, len) in &[(0usize, 4usize), (4, 4), (8, 16), (20, 4), (23, 1)] {
            let band = c.w.matvec_rows_prepared(&floats(), &xh, start, len);
            assert_eq!(&band[..], &full[start..start + len], "bits={width} band {start}+{len}");
        }
    }
}

#[test]
fn matvec_matches_simple_reference() {
    for &width in &WIDTHS {
        for &(out, in_feat, group) in
            &[(16usize, 128usize, 128usize), (5, 40, 8), (7, 200, 64), (9, 512, 128)]
        {
            let c = build_case(out, in_feat, group, width);
            let x: Vec<f32> = (0..in_feat).map(|i| (i as f32 * 0.29).sin() * 2.0).collect();
            let xh = c.w.prepare_input(&floats(), &bits(&x));

            let fast = values(&c.w.matvec_prepared(&floats(), &xh));
            let slow = values(&c.w.matvec_prepared_reference(&floats(), &xh));

            let l1: f32 = values(&xh).iter().map(|v| v.abs()).sum();
            for o in 0..out {
                assert!(
                    (fast[o] - slow[o]).abs() <= 1e-5 * l1.max(1.0),
                    "bits={width} {out}x{in_feat} g={group} o={o}: {} vs {}",
                    fast[o],
                    slow[o]
                );
            }
        }
    }
}

#[test]
fn matmul_matches_repeated_matvec() {
    for &width in &WIDTHS {
        for &(out, in_feat, group) in
            &[(24usize, 128usize, 128usize), (9, 40, 8), (5, 200, 64), (16, 512, 128)]
        {
            let c = build_case(out, in_feat, group, width);
            let stride = c.w.prepared_len();
            for &batch in &[1usize, 2, 7, 16] {
                let mut xh: Vec<u32> = Vec::new();
                for b in 0..batch {
                    let x: Vec<f32> = (0..in_feat)
                        .map(|i| ((i + b * 13) as f32 * 0.23).sin() * 1.3)
                        .collect();
                    xh.extend(c.w.prepare_input(&floats(), &bits(&x)));
                }

                for &(row_start, rows) in &[(0usize, out), (0, 1), (1, 3.min(out - 1))] {
                    if row_start + rows > out || rows == 0 {
                        continue;
                    }
                    let got = c.w.matmul_rows_prepared(&floats(), &xh, batch, row_start, rows);
                    for b in 0..batch {
                        let part = &xh[b * stride..(b + 1) * stride];
                        let want = c.w.matvec_rows_prepared(&floats(), part, row_start, rows);
                        for r in 0..rows {
                            assert_eq!(
                                got[b * rows + r], want[r],
                                "bits={width} {out}x{in_feat} g={group} batch={batch} \
                                 rows={row_start}+{rows} b={b} r={r}"
                            );
                        }
                    }
                }
            }
        }
    }
}

#[test]
fn prepared_input_is_reusable_across_weights() {
    let a = build_case(4, 128, 128, 2);
    let b = build_case(6, 128, 128, 4);
    let x: Vec<f32> = (0..128).map(|i| (i as f32 * 0.07).cos()).collect();

    let xh = a.w.prepare_input(&floats(), &bits(&x));
    let ya = a.w.matvec_prepared(&floats(), &xh);
    let yb = b.w.matvec_prepared(&floats(), &xh);

    assert_eq!(ya, a.w.matvec(&floats(), &bits(&x)));
    assert_eq!(yb, b.w.matvec(&floats(), &bits(&x)));
}

#[test]
fn row_bytes_match_shipped_tensor_sizes() {
    for &(out, in_f, bits, group, want) in &[
        (8192usize, 512usize, 4u8, 128usize, 2_162_688usize),
        (512, 512, 2, 128, 69_632),
        (256, 512, 2, 128, 34_816),
        (108, 2048, 4, 128, 114_048),
        (432, 2048, 4, 128, 456_192),
        (32768, 128, 2, 128, 1_114_112),
    ] {
        let in_pad = in_f.div_ceil(group) * group;
        let got = out * packed_row_bytes(in_pad, bits) + out * (in_pad / group) * 2;
        assert_eq!(got, want, "{out}x{in_f} @ {bits}b/{group}");
    }
}

#[test]
fn rejects_bad_geometry() {
    let cb = bits(&fake_codebook(128));
    let blob = vec![0u8; 1 << 16];
    let err = |b: &[u8], out, in_f, group, bits, cb: &[u32]| {
        CqWeight::from_blob(b, out, in_f, group, bits, cb).err()
    };
    assert_eq!(err(&blob, 4, 128, 128, 7, &cb), Some(CqError::UnsupportedBits(7)));
    assert_eq!(err(&blob, 4, 128, 96, 2, &cb), Some(CqError::BadGroup(96)));
    assert_eq!(err(&blob, 4, 128, 100, 2, &cb), Some(CqError::BadGroup(100)));
    assert_eq!(err(&blob, 0, 128, 128, 2, &cb), Some(CqError::EmptyShape));
    assert_eq!(err(&blob, 4, 0, 128, 2, &cb), Some(CqError::EmptyShape));
    assert!(matches!(err(&[0u8; 4], 512, 512, 128, 2, &cb), Some(CqError::ShortBlob { .. })));
    assert_eq!(err(&blob, 4, 128, 128, 2, &cb[..10]), Some(CqError::BadCodebookLen(10)));
}

#[test]
fn one_running_sum_gives_the_reference_product() {
    for &width in &WIDTHS {
        let c = build_case(7, 200, 64, width);
        let x: Vec<f32> = (0..200).map(|i| (i as f32 * 0.13).cos()).collect();
        let xh = c.w.prepare_input(&floats(), &bits(&x));
        assert_eq!(
            c.w.matvec_prepared_single_acc(&floats(), &xh),
            c.w.matvec_prepared_reference(&floats(), &xh)
        );
    }
}

#[test]
fn ternary_levels_are_the_centroid_over_the_root_of_the_group() {
    for &group in &[8usize, 16, 32, 64, 128, 256, 512, 1024] {
        let c = build_case(1, group, group, TERNARY_RECORD_BITS);
        let s = f32::from_bits(TERNARY_CENTROID) / libm::sqrtf(group as f32);
        assert_eq!(values(&c.w.levels), vec![-s, 0.0, s]);
    }
}

#[test]
fn effective_bits_count_the_norms() {
    let c = build_case(4, 128, 128, 2);
    assert_eq!(f32::from_bits(c.w.effective_bits(&floats())), 2.125);
    assert_eq!(c.w.packed_bytes(), 128);
}

#[test]
fn indices_are_read_from_the_low_bits_up() {
    assert_eq!(read_bits(&[0b1110_0100], 0, 2, 3), 0);
    assert_eq!(read_bits(&[0b1110_0100], 2, 2, 3), 1);
    assert_eq!(read_bits(&[0b1110_0100], 4, 2, 3), 2);
    assert_eq!(read_bits(&[0b1110_0100], 6, 2, 3), 3);
    // A 3-bit index that straddles two bytes.
    assert_eq!(read_bits(&[0b1000_0000, 0b0000_0011], 7, 3, 7), 7);
}

#[test]
fn products_split_over_threads_are_the_serial_ones() {
    let c = build_case(8192, 128, 128, 2);
    let x: Vec<f32> = (0..128).map(|i| (i as f32 * 0.17).sin()).collect();
    let xh = c.w.prepare_input(&floats(), &bits(&x));
    assert_eq!(
        c.w.matvec_rows_prepared(&floats(), &xh, 0, 8192),
        c.w.matvec_rows_serial(&floats(), &xh, 0, 8192)
    );
    // Many rows, then few rows and many activations.
    for &(out, batch) in &[(512usize, 24usize), (4, 2200)] {
        let c = build_case(out, 128, 128, 4);
        let mut xs: Vec<u32> = Vec::new();
        for b in 0..batch {
            let x: Vec<f32> = (0..128).map(|i| ((i + b) as f32 * 0.3).cos()).collect();
            xs.extend(c.w.prepare_input(&floats(), &bits(&x)));
        }
        assert_eq!(
            c.w.matmul_rows_prepared(&floats(), &xs, batch, 0, out),
            c.w.matmul_rows_serial(&floats(), &xs, batch, 0, out)
        );
    }
}

/// The largest prime below two to the 32: residues add and multiply exactly.
const PRIME: u64 = 4_294_967_291;

fn residue_unary(_o: Unary, a: u32) -> u32 {
    a
}

fn residue_binary(o: Binary, a: u32, b: u32) -> u32 {
    let (x, y) = (a as u64, b as u64);
    let r = match o {
        Binary::Add => (x + y) % PRIME,
        Binary::Sub => (x + PRIME - y) % PRIME,
        Binary::Mul => x * y % PRIME,
        Binary::Div => 2_654_435_761,
        Binary::Max => x.max(y),
    };
    r as u32
}

fn residue_count(n: usize) -> u32 {
    n as u32
}

#[test]
fn rotated_products_are_the_plain_ones_without_rounding() {
    let ring: Floats =
        Arith { unary: residue_unary, binary: residue_binary, count: residue_count };
    for &width in &WIDTHS {
        for &(out, in_feat, group) in &[(5usize, 16usize, 16usize), (3, 44, 8), (4, 200, 64)] {
            let c = build_case(out, in_feat, group, width);
            let x: Vec<u32> =
                (0..in_feat as u32).map(|i| i.wrapping_mul(0x9E37_79B9) >> 1).collect();
            let got = c.w.matvec(&ring, &x);
            assert_eq!(got.len(), out);
            assert!(got.iter().any(|v| *v != 0));
            for (o, &g_o) in got.iter().enumerate() {
                let row = c.w.dequantize_row(&ring, o);
                let want = row
                    .iter()
                    .zip(x.iter())
                    .fold(0u64, |s, (a, b)| (s + *a as u64 * *b as u64 % PRIME) % PRIME);
                assert_eq!(g_o as u64, want, "bits={width} shape={out}x{in_feat} g={group} o={o}");
            }
        }
    }
}
