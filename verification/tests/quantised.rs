use needle::arith::{Arith, Binary, Unary};
use needle::int4::{QuantizedWeight, SCALE_MIN};
use needle::quant::{pack_pair, sign_extend4, unpack_pair};

fn unary(o: Unary, a: u32) -> u32 {
    let x = f32::from_bits(a);
    let r = match o {
        Unary::Sqrt => libm::sqrtf(x),
        Unary::Exp => libm::expf(x),
        Unary::Ln => libm::logf(x),
        Unary::Sigmoid => 1.0 / (1.0 + libm::expf(-x)),
    };
    r.to_bits()
}

fn binary(o: Binary, a: u32, b: u32) -> u32 {
    let (x, y) = (f32::from_bits(a), f32::from_bits(b));
    let r = match o {
        Binary::Add => x + y,
        Binary::Sub => x - y,
        Binary::Mul => x * y,
        Binary::Div => x / y,
        Binary::Max => x.max(y),
    };
    r.to_bits()
}

fn count(n: usize) -> u32 {
    (n as f32).to_bits()
}

type Floats = Arith<fn(Unary, u32) -> u32, fn(Binary, u32, u32) -> u32, fn(usize) -> u32>;

fn floats() -> Floats {
    Arith { unary, binary, count }
}

fn bits(x: &[f32]) -> Vec<u32> {
    x.iter().map(|v| v.to_bits()).collect()
}

fn values(x: &[u32]) -> Vec<f32> {
    x.iter().map(|v| f32::from_bits(*v)).collect()
}

fn nearest(v: u32) -> i8 {
    libm::roundf(f32::from_bits(v)).clamp(-8.0, 7.0) as i8
}

fn quantize(w: &[f32], in_feat: usize, out_feat: usize) -> QuantizedWeight {
    QuantizedWeight::quantize(&floats(), &(nearest as fn(u32) -> i8), &bits(w), in_feat, out_feat)
}

#[test]
fn test_sign_extend() {
    assert_eq!(sign_extend4(0x7), 7);
    assert_eq!(sign_extend4(0x8), -8);
    assert_eq!(sign_extend4(0xF), -1);
    assert_eq!(sign_extend4(0x0), 0);
}

#[test]
fn test_roundtrip_identity() {
    let in_feat = 64;
    let out_feat = 32;
    let mut w = vec![0.0f32; in_feat * out_feat];
    for i in 0..in_feat {
        for o in 0..out_feat {
            w[i * out_feat + o] = ((i + o) % 8) as f32;
        }
    }
    let qw = quantize(&w, in_feat, out_feat);
    let mut out = vec![0u32; in_feat * out_feat];
    qw.dequantize_to(&floats(), &mut out);
    let out = values(&out);

    for i in 0..w.len() {
        let diff = (w[i] - out[i]).abs();
        assert!(diff < 1e-5, "index {i}: expected {}, got {}", w[i], out[i]);
    }
}

#[test]
fn test_matvec_matches_dequantize() {
    let in_feat = 64;
    let out_feat = 32;
    let w: Vec<f32> = (0..in_feat * out_feat).map(|i| (i as f32 - 32.0) * 0.05).collect();
    let x: Vec<f32> = (0..in_feat).map(|i| (i as f32 * 0.1).sin()).collect();

    let qw = quantize(&w, in_feat, out_feat);

    let mut dq = vec![0u32; in_feat * out_feat];
    qw.dequantize_to(&floats(), &mut dq);
    let dq = values(&dq);
    let mut y_ref = vec![0.0f32; out_feat];
    for o in 0..out_feat {
        for i in 0..in_feat {
            y_ref[o] += x[i] * dq[i * out_feat + o];
        }
    }

    let y_got = values(&qw.matvec(&floats(), &bits(&x)));

    for o in 0..out_feat {
        let diff = (y_got[o] - y_ref[o]).abs();
        let tol = 1e-3 * (y_ref[o].abs().max(1.0));
        assert!(
            diff < tol,
            "out[{o}]: matvec={} dequant+dot={} diff={diff} tol={tol}",
            y_got[o],
            y_ref[o]
        );
    }
}

#[test]
fn simd_matches_scalar_reference() {
    for &(in_feat, out_feat) in &[(32usize, 8usize), (64, 16), (512, 512), (100, 12), (33, 7)] {
        let w: Vec<f32> =
            (0..in_feat * out_feat).map(|i| ((i * 31 % 197) as f32 - 98.0) / 37.0).collect();
        let q = quantize(&w, in_feat, out_feat);
        let x: Vec<f32> = (0..in_feat).map(|i| (i as f32 * 0.37).sin() * 3.0 - 0.5).collect();
        let got = values(&q.matvec(&floats(), &bits(&x)));

        let group = in_feat.min(32);
        let pairs = q.num_groups * group / 2;
        for o in 0..out_feat {
            let mut want = 0.0f32;
            for p in 0..pairs {
                let (lo, hi) = unpack_pair(q.data[p * out_feat + o]);
                let x0 = if 2 * p < in_feat { x[2 * p] } else { 0.0 };
                let x1 = if 2 * p + 1 < in_feat { x[2 * p + 1] } else { 0.0 };
                let scale = f32::from_bits(q.scales[(2 * p / group) * out_feat + o]);
                want += (lo as f32 * x0 + hi as f32 * x1) * scale;
            }
            assert_eq!(got[o], want, "{in_feat}x{out_feat} out[{o}]");
        }
    }
}

#[test]
fn scales_are_a_seventh_of_the_largest_magnitude() {
    let mut w = vec![0.5f32; 32 * 2];
    w[3 * 2] = -14.0;
    let q = quantize(&w, 32, 2);
    assert_eq!(f32::from_bits(q.scales[0]), 2.0);
    assert_eq!(f32::from_bits(q.scales[1]), 0.5 / 7.0);
    assert_eq!(unpack_pair(q.data[2]).1, -7);
    assert_eq!(unpack_pair(q.data[1]), (7, 7));
    let zero = quantize(&[0.0; 32], 32, 1);
    assert_eq!(zero.scales, vec![SCALE_MIN]);
    assert_eq!(f32::from_bits(SCALE_MIN), 1e-8);
    assert_eq!(zero.data, vec![0u8; 16]);
}

#[test]
fn every_row_of_an_odd_number_is_restored() {
    let q = quantize(&[7.0, 7.0, 7.0], 3, 1);
    assert_eq!(q.data.len(), 2);
    let mut out = bits(&[0.0; 3]);
    q.dequantize_to(&floats(), &mut out);
    assert_eq!(values(&out), vec![7.0, 7.0, 7.0]);
    assert_eq!(values(&q.matvec(&floats(), &bits(&[1.0, 2.0, 3.0]))), vec![42.0]);

    for rows in [1usize, 5, 31] {
        let w: Vec<f32> = (0..rows * 2).map(|i| (i % 15) as f32 - 7.0).collect();
        let q = quantize(&w, rows, 2);
        let mut out = bits(&vec![9.0; rows * 2]);
        q.dequantize_to(&floats(), &mut out);
        for (got, want) in values(&out).iter().zip(w.iter()) {
            assert!((got - want).abs() < 0.51, "{rows} rows: {got} vs {want}");
        }
        let x: Vec<f32> = (0..rows).map(|i| i as f32 * 0.5 - 3.0).collect();
        let y = values(&q.matvec(&floats(), &bits(&x)));
        for o in 0..2 {
            let want: f32 = (0..rows).map(|r| f32::from_bits(out[r * 2 + o]) * x[r]).sum();
            assert!((y[o] - want).abs() < 1e-3, "{rows} rows: {} vs {want}", y[o]);
        }
    }
}

#[test]
fn a_batch_is_one_product_behind_the_other() {
    let w: Vec<f32> = (0..64 * 4).map(|i| (i as f32 * 0.21).sin()).collect();
    let q = quantize(&w, 64, 4);
    let x: Vec<f32> = (0..3 * 64).map(|i| (i as f32 * 0.11).cos()).collect();
    let all = q.matmul(&floats(), &bits(&x), 3);
    for b in 0..3 {
        let one = q.matvec(&floats(), &bits(&x[b * 64..(b + 1) * 64]));
        assert_eq!(&all[b * 4..(b + 1) * 4], &one[..]);
    }
}

#[test]
fn every_pair_unpacks_to_what_was_packed() {
    for a in -8i8..=7 {
        for b in -8i8..=7 {
            assert_eq!(unpack_pair(pack_pair(a, b)), (a, b));
        }
    }
}
