use needle::arith::{Arith, Binary, Unary};
use needle::kernels::{
    engram_index, engram_table_order, hadamard_mlp, logsumexp, rms_unit, rms_unit_to, silu, sinkhorn,
    ENGRAM_PRIME, ENGRAM_SEED,
};

fn unary(o: Unary, a: u32) -> u32 {
    let x = f32::from_bits(a);
    let r = match o {
        Unary::Sqrt => libm::sqrtf(x),
        Unary::Exp => libm::expf(x),
        Unary::Ln => libm::logf(x),
        Unary::Sigmoid => 1.0 / (1.0 + libm::expf(-x)),
    };
    r.to_bits()
}

fn binary(o: Binary, a: u32, b: u32) -> u32 {
    let (x, y) = (f32::from_bits(a), f32::from_bits(b));
    let r = match o {
        Binary::Add => x + y,
        Binary::Sub => x - y,
        Binary::Mul => x * y,
        Binary::Div => x / y,
        Binary::Max => x.max(y),
    };
    r.to_bits()
}

fn count(n: usize) -> u32 {
    (n as f32).to_bits()
}

type Floats = Arith<fn(Unary, u32) -> u32, fn(Binary, u32, u32) -> u32, fn(usize) -> u32>;

fn floats() -> Floats {
    Arith { unary, binary, count }
}

fn bits(x: &[f32]) -> Vec<u32> {
    x.iter().map(|v| v.to_bits()).collect()
}

fn values(x: &[u32]) -> Vec<f32> {
    x.iter().map(|v| f32::from_bits(*v)).collect()
}

fn unit(x: &[f32]) -> Vec<f32> {
    let mut y = bits(x);
    rms_unit(&floats(), &mut y);
    values(&y)
}

fn balance(m: &[f32], n: usize) -> Vec<f32> {
    let mut y = bits(m);
    sinkhorn(&floats(), &mut y, n);
    values(&y)
}

fn silu_of(x: f32) -> f32 {
    f32::from_bits(silu(&floats(), x.to_bits()))
}

#[test]
fn rms_unit_normalises_to_unit_rms() {
    let x = unit(&[3.0f32, -4.0, 0.0, 5.0]);
    let mean_sq: f32 = x.iter().map(|v| v * v).sum::<f32>() / x.len() as f32;
    assert!((mean_sq - 1.0).abs() < 1e-5, "mean_sq={mean_sq}");
    assert!(x[0] > 0.0 && x[1] < 0.0 && x[2] == 0.0);
}

#[test]
fn rms_unit_to_matches_in_place() {
    let x = vec![1.5f32, -2.5, 0.25, 7.0, -0.125];
    let a = unit(&x);
    let b = values(&rms_unit_to(&floats(), &bits(&x)));
    assert_eq!(a, b);
}

#[test]
fn rms_unit_handles_all_zeros() {
    let x = unit(&[0.0f32; 8]);
    assert!(x.iter().all(|v| *v == 0.0), "eps must keep this finite");
}

#[test]
fn sinkhorn_output_is_near_doubly_stochastic() {
    let n = 4;
    let m: Vec<f32> = (0..n * n).map(|k| (k as f32 * 0.7).sin() * 2.0).collect();
    let m = balance(&m, n);
    assert!(m.iter().all(|v| *v > 0.0 && *v < 1.0));
    for i in 0..n {
        let row: f32 = (0..n).map(|j| m[i * n + j]).sum();
        assert!((row - 1.0).abs() < 1e-3, "row {i} sums to {row}");
    }
    for j in 0..n {
        let col: f32 = (0..n).map(|i| m[i * n + j]).sum();
        assert!((col - 1.0).abs() < 1e-3, "col {j} sums to {col}");
    }
}

#[test]
fn sinkhorn_of_scaled_identity_is_near_identity() {
    let n = 4;
    let mut m = vec![0.0f32; n * n];
    for i in 0..n {
        m[i * n + i] = 4.0;
    }
    let m = balance(&m, n);
    for i in 0..n {
        for j in 0..n {
            let want = if i == j { 1.0 } else { 0.0 };
            assert!(
                (m[i * n + j] - want).abs() < 0.1,
                "({i},{j}) = {} want ~{want}",
                m[i * n + j]
            );
        }
    }
}

#[test]
fn sinkhorn_preserves_orientation() {
    let n = 4;
    let mut m = vec![0.0f32; n * n];
    for i in 0..n {
        m[i * n + (i + 1) % n] = 6.0;
    }
    let m = balance(&m, n);
    for i in 0..n {
        let on = m[i * n + (i + 1) % n];
        let diag = m[i * n + i];
        assert!(on > 0.9, "row {i}: expected mass at (i+1), got {on}");
        assert!(diag < 0.1, "row {i}: unexpected diagonal mass {diag}");
    }
}

#[test]
fn silu_matches_definition() {
    for &x in &[-4.0f32, -1.0, 0.0, 0.5, 3.0] {
        let want = x / (1.0 + libm::expf(-x));
        assert!((silu_of(x) - want).abs() < 1e-6, "x={x}");
    }
    assert_eq!(silu_of(0.0), 0.0);
}

#[test]
fn hadamard_mlp_matches_dense_reference() {
    for &(d, n) in &[(8usize, 8usize), (6, 8), (512, 512)] {
        let d1: Vec<f32> = (0..n).map(|i| 1.0 + (i as f32 * 0.03).sin()).collect();
        let d2: Vec<f32> = (0..n).map(|i| 0.9 + (i as f32 * 0.05).cos()).collect();
        let d3: Vec<f32> = (0..n).map(|i| 0.02 + i as f32 * 1e-4).collect();
        let x: Vec<f32> = (0..d).map(|i| (i as f32 * 0.11).sin()).collect();

        let got =
            values(&hadamard_mlp(&floats(), &bits(&x), &bits(&d1), &bits(&d2), &bits(&d3)));
        assert_eq!(got.len(), d);

        let h = walsh_normalized(n);
        let mut z: Vec<f32> = (0..n).map(|i| if i < d { x[i] } else { 0.0 }).collect();
        for i in 0..n {
            z[i] *= d1[i];
        }
        z = matvec_row(&z, &h, n);
        for i in 0..n {
            z[i] = silu_of(z[i] * d2[i]);
        }
        z = matvec_row(&z, &h, n);
        for i in 0..d {
            let want = z[i] * d3[i];
            assert!(
                (got[i] - want).abs() < 2e-5 * want.abs().max(1.0),
                "d={d} n={n} i={i}: {} vs {want}",
                got[i]
            );
        }
    }
}

fn walsh_normalized(n: usize) -> Vec<f32> {
    let mut h = vec![1.0f32];
    let mut size = 1;
    while size < n {
        let mut next = vec![0.0f32; size * 2 * size * 2];
        for r in 0..size {
            for c in 0..size {
                let v = h[r * size + c];
                next[r * size * 2 + c] = v;
                next[r * size * 2 + c + size] = v;
                next[(r + size) * size * 2 + c] = v;
                next[(r + size) * size * 2 + c + size] = -v;
            }
        }
        h = next;
        size *= 2;
    }
    let s = 1.0 / libm::sqrtf(n as f32);
    h.iter().map(|v| v * s).collect()
}

fn matvec_row(z: &[f32], m: &[f32], n: usize) -> Vec<f32> {
    (0..n).map(|j| (0..n).map(|k| z[k] * m[k * n + j]).sum()).collect()
}

#[test]
fn engram_index_matches_reference_hash() {
    let orders = [2usize, 3];
    let heads = 2usize;
    let slots = 8192usize;
    let tokens: [u32; 6] = [11, 250, 7, 4095, 1, 63];
    let token_at =
        |k: usize| -> u32 { tokens.get(tokens.len().wrapping_sub(1 + k)).copied().unwrap_or(0) };

    let mut table = 0usize;
    for (oi, &order) in orders.iter().enumerate() {
        for h in 0..heads {
            assert_eq!(engram_table_order(table, heads), oi, "table {table}");
            let seed = ENGRAM_SEED.wrapping_mul((oi * heads + h) as u32 + 1);
            let mut acc = seed;
            for j in 0..order {
                acc = (acc ^ token_at(j)).wrapping_mul(ENGRAM_PRIME);
            }
            acc ^= acc >> 15;
            let want = (acc % slots as u32) as usize;
            assert_eq!(engram_index(table, order, slots, token_at), want, "table {table}");
            table += 1;
        }
    }
    assert_eq!(table, orders.len() * heads);
}

#[test]
fn engram_index_varies_with_order_and_table() {
    let tokens = [5u32, 9, 13];
    let at = |k: usize| tokens.get(tokens.len().wrapping_sub(1 + k)).copied().unwrap_or(0);
    let a = engram_index(0, 2, 8192, at);
    let b = engram_index(0, 3, 8192, at);
    let c = engram_index(1, 2, 8192, at);
    assert_ne!(a, b);
    assert_ne!(a, c);
}

#[test]
fn engram_index_treats_missing_history_as_zero() {
    let at_short = |k: usize| if k == 0 { 42u32 } else { 0 };
    let tokens = [0u32, 42];
    let at_padded = |k: usize| tokens[tokens.len() - 1 - k];
    assert_eq!(engram_index(0, 2, 8192, at_short), engram_index(0, 2, 8192, at_padded));
}

#[test]
fn logsumexp_keeps_infinities() {
    let lse = |x: &[f32]| f32::from_bits(logsumexp(&floats(), &bits(x)));
    assert_eq!(lse(&[]), f32::NEG_INFINITY);
    assert_eq!(lse(&[f32::NEG_INFINITY, f32::NEG_INFINITY]), f32::NEG_INFINITY);
    assert_eq!(lse(&[1.0, f32::INFINITY]), f32::INFINITY);
    assert!((lse(&[0.0, 0.0]) - 2.0f32.ln()).abs() < 1e-6);
    assert!((lse(&[1000.0, 1000.0]) - (1000.0 + 2.0f32.ln())).abs() < 1e-3);
}
