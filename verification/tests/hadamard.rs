use needle::arith::{Arith, Binary, Unary};
use needle::hadamard::{fwht, fwht_normalized, hada_n};

fn unary(o: Unary, a: u32) -> u32 {
    let x = f32::from_bits(a);
    let r = match o {
        Unary::Sqrt => libm::sqrtf(x),
        Unary::Exp => libm::expf(x),
        Unary::Ln => libm::logf(x),
        Unary::Sigmoid => 1.0 / (1.0 + libm::expf(-x)),
    };
    r.to_bits()
}

fn binary(o: Binary, a: u32, b: u32) -> u32 {
    let (x, y) = (f32::from_bits(a), f32::from_bits(b));
    let r = match o {
        Binary::Add => x + y,
        Binary::Sub => x - y,
        Binary::Mul => x * y,
        Binary::Div => x / y,
        Binary::Max => x.max(y),
    };
    r.to_bits()
}

fn count(n: usize) -> u32 {
    (n as f32).to_bits()
}

type Floats = Arith<fn(Unary, u32) -> u32, fn(Binary, u32, u32) -> u32, fn(usize) -> u32>;

fn floats() -> Floats {
    Arith { unary, binary, count }
}

fn bits(x: &[f32]) -> Vec<u32> {
    x.iter().map(|v| v.to_bits()).collect()
}

fn values(x: &[u32]) -> Vec<f32> {
    x.iter().map(|v| f32::from_bits(*v)).collect()
}

fn walsh_dense(n: usize) -> Vec<Vec<f32>> {
    let mut h = vec![vec![1.0f32]];
    while h.len() < n {
        let m = h.len();
        let mut next = vec![vec![0.0f32; m * 2]; m * 2];
        for r in 0..m {
            for c in 0..m {
                let v = h[r][c];
                next[r][c] = v;
                next[r][c + m] = v;
                next[r + m][c] = v;
                next[r + m][c + m] = -v;
            }
        }
        h = next;
    }
    h
}

#[test]
fn fwht_matches_dense_matmul_exactly() {
    for &n in &[1usize, 2, 4, 8, 16, 128, 512, 1024] {
        let w = walsh_dense(n);
        let x: Vec<f32> = (0..n).map(|i| ((i * 7 + i / 5) % 19) as f32 - 9.0).collect();

        let mut got = bits(&x);
        fwht(&floats(), &mut got);
        let got = values(&got);

        for r in 0..n {
            let want: f32 = (0..n).map(|c| w[r][c] * x[c]).sum();
            assert_eq!(got[r], want, "n={n} row={r}");
        }
    }
}

#[test]
fn fwht_matches_dense_matmul_on_fractional_input() {
    for &n in &[8usize, 128, 512] {
        let w = walsh_dense(n);
        let x: Vec<f32> = (0..n)
            .map(|i| (i as f32 * 0.37).sin() + 0.3 * (i as f32 * 0.11).cos())
            .collect();
        let l1: f32 = x.iter().map(|v| v.abs()).sum();

        let mut got = bits(&x);
        fwht(&floats(), &mut got);
        let got = values(&got);

        for r in 0..n {
            let want: f32 = (0..n).map(|c| w[r][c] * x[c]).sum();
            assert!(
                (got[r] - want).abs() <= 1e-5 * l1,
                "n={n} row={r}: got {} want {want} (l1={l1})",
                got[r]
            );
        }
    }
}

#[test]
fn normalized_is_involutive() {
    let n = 128;
    let x: Vec<f32> = (0..n).map(|i| (i as f32 * 0.11).cos()).collect();
    let mut y = bits(&x);
    fwht_normalized(&floats(), &mut y);
    fwht_normalized(&floats(), &mut y);
    let y = values(&y);
    for i in 0..n {
        assert!((y[i] - x[i]).abs() < 1e-4, "i={i}: {} vs {}", y[i], x[i]);
    }
}

#[test]
fn hada_n_matches_bit_length_formula() {
    fn py(d: usize) -> usize {
        let bit_length = usize::BITS - (d - 1).leading_zeros();
        1usize << bit_length
    }
    for d in 1..=2048usize {
        assert_eq!(hada_n(d), py(d), "d_model={d}");
    }
    assert_eq!(hada_n(512), 512);
    assert_eq!(hada_n(768), 1024);
}

#[test]
fn transforming_twice_multiplies_by_the_length() {
    let x: Vec<f32> = vec![3.0, -1.0, 4.0, 1.0, -5.0, 9.0, 2.0, -6.0];
    let mut y = bits(&x);
    fwht(&floats(), &mut y);
    fwht(&floats(), &mut y);
    let want: Vec<f32> = x.iter().map(|v| v * 8.0).collect();
    assert_eq!(values(&y), want);
}
