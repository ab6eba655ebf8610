use needle::arith::{Arith, Binary, Unary};
use needle::cact::{HEAD_CONFIDENCE, HEAD_CONTRASTIVE};
use needle::heads::{ProbeHeadWeights, ProbePool};

fn unary(o: Unary, a: u32) -> u32 {
    let x = f32::from_bits(a);
    let r = match o {
        Unary::Sqrt => libm::sqrtf(x),
        Unary::Exp => libm::expf(x),
        Unary::Ln => libm::logf(x),
        Unary::Sigmoid => 1.0 / (1.0 + libm::expf(-x)),
    };
    r.to_bits()
}

fn binary(o: Binary, a: u32, b: u32) -> u32 {
    let (x, y) = (f32::from_bits(a), f32::from_bits(b));
    let r = match o {
        Binary::Add => x + y,
        Binary::Sub => x - y,
        Binary::Mul => x * y,
        Binary::Div => x / y,
        Binary::Max => x.max(y),
    };
    r.to_bits()
}

fn count(n: usize) -> u32 {
    (n as f32).to_bits()
}

type Floats = Arith<fn(Unary, u32) -> u32, fn(Binary, u32, u32) -> u32, fn(usize) -> u32>;

fn floats() -> Floats {
    Arith { unary, binary, count }
}

fn bits(x: &[f32]) -> Vec<u32> {
    x.iter().map(|v| v.to_bits()).collect()
}

fn values(x: &[u32]) -> Vec<f32> {
    x.iter().map(|v| f32::from_bits(*v)).collect()
}

fn push(pool: &mut ProbePool, cell: &[f32]) {
    pool.push(&floats(), &bits(cell));
}

fn pooled(pool: &ProbePool) -> Vec<f32> {
    values(&pool.pooled(&floats()).unwrap())
}

fn pooled_reference(cells: &[Vec<f32>], probes: &[f32], num_probes: usize, d: usize) -> Vec<f32> {
    let denom = libm::sqrtf(d as f32);
    let mut out = vec![0.0f32; num_probes * d];
    for k in 0..num_probes {
        let probe = &probes[k * d..(k + 1) * d];
        let scores: Vec<f32> = cells
            .iter()
            .map(|c| c.iter().zip(probe).map(|(a, b)| a * b).sum::<f32>() / denom)
            .collect();
        let max = scores.iter().copied().fold(f32::NEG_INFINITY, f32::max);
        let exps: Vec<f32> = scores.iter().map(|&z| libm::expf(z - max)).collect();
        let total: f32 = exps.iter().sum();
        for (w, cell) in exps.iter().zip(cells.iter()) {
            for c in 0..d {
                out[k * d + c] += (w / total) * cell[c];
            }
        }
    }
    out
}

fn synth(n_cells: usize, d: usize, scale: f32) -> Vec<Vec<f32>> {
    (0..n_cells)
        .map(|i| (0..d).map(|c| ((i * 31 + c * 7) as f32 * 0.017).sin() * scale).collect())
        .collect()
}

#[test]
fn streaming_pool_matches_batch_softmax() {
    for &(n_cells, d, num_probes, scale) in &[
        (28usize, 16usize, 4usize, 1.0f32),
        (200, 32, 8, 3.0),
        (1, 8, 2, 1.0),
        (2800, 16, 4, 2.0),
    ] {
        let cells = synth(n_cells, d, scale);
        let probes: Vec<f32> =
            (0..num_probes * d).map(|i| (i as f32 * 0.031).cos() * 0.7).collect();

        let mut pool = ProbePool::new(&bits(&probes), num_probes, d).unwrap();
        for c in &cells {
            push(&mut pool, c);
        }
        let got = pooled(&pool);
        assert_eq!(got.len(), num_probes * d);
        assert_eq!(pool.cells(), n_cells);

        let want = pooled_reference(&cells, &probes, num_probes, d);
        let mag = want.iter().fold(0.0f32, |a, b| a.max(b.abs())).max(1e-6);
        for i in 0..got.len() {
            assert!(
                (got[i] - want[i]).abs() <= 1e-5 * mag,
                "cells={n_cells} d={d} probes={num_probes} i={i}: {} vs {}",
                got[i],
                want[i]
            );
        }
    }
}

#[test]
fn streaming_pool_survives_extreme_scores() {
    let d = 16;
    let mut cells = synth(50, d, 1.0);
    cells.push(vec![90.0; d]);
    cells.push(vec![-90.0; d]);
    let probes: Vec<f32> = vec![1.0; d];
    let mut pool = ProbePool::new(&bits(&probes), 1, d).unwrap();
    for c in &cells {
        push(&mut pool, c);
    }
    let got = pooled(&pool);
    assert!(got.iter().all(|v| v.is_finite()), "{got:?}");
    for &v in &got {
        assert!((v - 90.0).abs() < 1e-2, "expected ~90, got {v}");
    }
}

#[test]
fn pooling_is_order_independent() {
    let d = 24;
    let cells = synth(60, d, 2.0);
    let probes: Vec<f32> = (0..3 * d).map(|i| (i as f32 * 0.05).sin()).collect();

    let mut a = ProbePool::new(&bits(&probes), 3, d).unwrap();
    for c in &cells {
        push(&mut a, c);
    }
    let mut b = ProbePool::new(&bits(&probes), 3, d).unwrap();
    for c in cells.iter().rev() {
        push(&mut b, c);
    }
    let (x, y) = (pooled(&a), pooled(&b));
    for i in 0..x.len() {
        assert!((x[i] - y[i]).abs() < 1e-4, "i={i}: {} vs {}", x[i], y[i]);
    }
}

#[test]
fn reset_restores_a_fresh_pool() {
    let d = 8;
    let cells = synth(10, d, 1.0);
    let probes: Vec<f32> = (0..2 * d).map(|i| i as f32 * 0.1).collect();
    let mut pool = ProbePool::new(&bits(&probes), 2, d).unwrap();
    for c in &cells {
        push(&mut pool, c);
    }
    let first = pooled(&pool);

    pool.reset();
    assert_eq!(pool.cells(), 0);
    assert_eq!(pool.pooled(&floats()), Err("probe pool received no cells"));
    for c in &cells {
        push(&mut pool, c);
    }
    assert_eq!(first, pooled(&pool));
}

#[test]
fn rejects_bad_probe_shapes() {
    assert!(ProbePool::new(&bits(&[1.0, 2.0]), 0, 2).is_err());
    assert!(ProbePool::new(&bits(&[1.0, 2.0]), 2, 0).is_err());
    assert!(ProbePool::new(&bits(&[1.0, 2.0, 3.0]), 2, 2).is_err());
}

#[test]
fn contrastive_projection_is_unit_norm() {
    let (p, d, out_dim) = (4usize, 8usize, 6usize);
    let proj: Vec<f32> =
        (0..out_dim * p * d).map(|i| ((i * 13 % 29) as f32 - 14.0) * 0.05).collect();
    let probes: Vec<f32> = (0..p * d).map(|i| i as f32 * 0.01).collect();
    let h = ProbeHeadWeights {
        code: HEAD_CONTRASTIVE,
        probes: bits(&probes),
        proj: bits(&proj),
        bias: bits(&vec![0.0; out_dim]),
        num_probes: p,
        out_dim,
        d_model: d,
    };
    h.validate().unwrap();
    let pooled: Vec<f32> = (0..p * d).map(|i| (i as f32 * 0.07).sin()).collect();
    let out = values(&h.project_normalized(&floats(), &bits(&pooled)));
    let norm: f32 = out.iter().map(|v| v * v).sum::<f32>().sqrt();
    assert!((norm - 1.0).abs() < 1e-5, "norm={norm}");
}

#[test]
fn contrastive_projection_handles_zero_vector() {
    let (p, d, out_dim) = (2usize, 4usize, 3usize);
    let h = ProbeHeadWeights {
        code: HEAD_CONTRASTIVE,
        probes: bits(&vec![0.0; p * d]),
        proj: bits(&vec![0.0; out_dim * p * d]),
        bias: bits(&vec![0.0; out_dim]),
        num_probes: p,
        out_dim,
        d_model: d,
    };
    let out = values(&h.project_normalized(&floats(), &bits(&vec![0.0; p * d])));
    assert_eq!(out.len(), out_dim);
    assert!(out.iter().all(|v| v.is_finite()));
}

#[test]
fn confidence_projection_applies_bias() {
    let (p, d) = (2usize, 4usize);
    let h = ProbeHeadWeights {
        code: HEAD_CONFIDENCE,
        probes: bits(&vec![0.5; p * d]),
        proj: bits(&vec![1.0; p * d]),
        bias: bits(&[-2.5]),
        num_probes: p,
        out_dim: 1,
        d_model: d,
    };
    h.validate().unwrap();
    let out = values(&h.project(&floats(), &bits(&vec![1.0f32; p * d])));
    assert!((out[0] - (8.0 - 2.5)).abs() < 1e-6, "{}", out[0]);
}

#[test]
fn validate_rejects_shape_mismatches() {
    let mut h = ProbeHeadWeights {
        code: HEAD_CONFIDENCE,
        probes: bits(&[0.0; 8]),
        proj: bits(&[0.0; 8]),
        bias: bits(&[0.0; 1]),
        num_probes: 2,
        out_dim: 1,
        d_model: 4,
    };
    h.validate().unwrap();
    h.bias.push(0);
    assert_eq!(h.validate(), Err("head bias length does not match out_dim"));
    h.bias.pop();
    h.probes.push(0);
    assert_eq!(h.validate(), Err("head probes shape does not match num_probes * d_model"));
    h.probes.pop();
    h.proj.push(0);
    assert_eq!(
        h.validate(),
        Err("head proj shape does not match out_dim * num_probes * d_model")
    );
}

#[test]
fn a_pool_of_one_cell_is_that_cell() {
    let mut pool = ProbePool::new(&bits(&[0.5, -0.5, 1.0, 2.0]), 2, 2).unwrap();
    assert_eq!(pool.num_probes(), 2);
    assert_eq!(pool.pooled_len(), 4);
    push(&mut pool, &[3.0, -7.0]);
    assert_eq!(pooled(&pool), vec![3.0, -7.0, 3.0, -7.0]);
}
