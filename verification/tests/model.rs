use needle::arith::{Arith, Binary, Unary};
use needle::batch::V2Batch;
use needle::blocks::Blocks;
use needle::bundle::{V2Bundle, V2LoadError};
use needle::cact::{
    Cact, CactError, ALIGN, DT_CQ, DT_FP16, DT_RAW, HEAD_CONFIDENCE, HEAD_CONTRASTIVE, REC_BYTES, TAG,
};
use needle::cact_layout::CactLayout;
use needle::cq::{CqWeight, CODEBOOK_LEN};
use needle::engine::{GenerateOptions, StopReason, Turn};
use needle::engram::entry_rows;
use needle::kernels::{hadamard_mlp, rms_unit_to, sinkhorn};
use needle::model::V2Model;
use needle::run::score_hidden;
use needle::sampling::{argmax, Wide, WideOp};
use needle::sp_tokenizer::{TK_BYTE, TK_CONTROL, TK_NORMAL, TK_UNKNOWN, TK_USER_DEFINED};
use needle::state::V2State;
use needle::stream::Stream;
use needle::trace::Trace;
use needle::v2_engine::V2Engine;

fn unary(o: Unary, a: u32) -> u32 {
    let x = f32::from_bits(a);
    let r = match o {
        Unary::Sqrt => libm::sqrtf(x),
        Unary::Exp => libm::expf(x),
        Unary::Ln => libm::logf(x),
        Unary::Sigmoid => 1.0 / (1.0 + libm::expf(-x)),
    };
    r.to_bits()
}

fn binary(o: Binary, a: u32, b: u32) -> u32 {
    let (x, y) = (f32::from_bits(a), f32::from_bits(b));
    let r = match o {
        Binary::Add => x + y,
        Binary::Sub => x - y,
        Binary::Mul => x * y,
        Binary::Div => x / y,
        Binary::Max => x.max(y),
    };
    r.to_bits()
}

fn count(n: usize) -> u32 {
    (n as f32).to_bits()
}

type Floats = Arith<fn(Unary, u32) -> u32, fn(Binary, u32, u32) -> u32, fn(usize) -> u32>;

fn floats() -> Floats {
    Arith { unary, binary, count }
}

fn bits(x: &[f32]) -> Vec<u32> {
    x.iter().map(|v| v.to_bits()).collect()
}

fn values(x: &[u32]) -> Vec<f32> {
    x.iter().map(|v| f32::from_bits(*v)).collect()
}

fn widen(v: u32) -> u64 {
    (f32::from_bits(v) as f64).to_bits()
}

fn unit(v: u64) -> u64 {
    (v as f64 / (1u64 << 53) as f64).to_bits()
}

fn wide_op(o: WideOp, a: u64, b: u64) -> u64 {
    let (x, y) = (f64::from_bits(a), f64::from_bits(b));
    let r = match o {
        WideOp::Add => x + y,
        WideOp::Sub => x - y,
        WideOp::Mul => x * y,
    };
    r.to_bits()
}

type Doubles = Wide<fn(u32) -> u64, fn(u64) -> u64, fn(WideOp, u64, u64) -> u64>;

fn doubles() -> Doubles {
    Wide { widen, unit, op: wide_op }
}

fn norm(x: &[u32], scale: &[u32]) -> Vec<u32> {
    let v = values(x);
    let mean = v.iter().map(|a| a * a).sum::<f32>() / v.len() as f32;
    let inv = 1.0 / libm::sqrtf(mean + 1e-6);
    let out: Vec<f32> =
        v.iter().zip(values(scale)).map(|(a, g)| a * inv * (1.0 + g)).collect();
    bits(&out)
}

fn softmax(x: &[u32]) -> Vec<u32> {
    let v = values(x);
    let top = v.iter().copied().fold(f32::NEG_INFINITY, f32::max);
    let e: Vec<f32> = v.iter().map(|a| libm::expf(a - top)).collect();
    let total: f32 = e.iter().sum();
    let out: Vec<f32> = e.iter().map(|a| a / total).collect();
    bits(&out)
}

fn rope(x: &[u32], heads: usize, pos: usize) -> Vec<u32> {
    let v = values(x);
    let hd = v.len() / heads;
    let half = hd / 2;
    let mut out = v.clone();
    for h in 0..heads {
        for i in 0..half {
            let angle = pos as f32 * libm::powf(10000.0, -2.0 * i as f32 / hd as f32);
            let (s, c) = (libm::sinf(angle), libm::cosf(angle));
            let (a, b) = (v[h * hd + i], v[h * hd + half + i]);
            out[h * hd + i] = a * c - b * s;
            out[h * hd + half + i] = a * s + b * c;
        }
    }
    bits(&out)
}

type Vectors = Blocks<
    fn(&[u32], &[u32]) -> Vec<u32>,
    fn(&[u32]) -> Vec<u32>,
    fn(&[u32], usize, usize) -> Vec<u32>,
>;

fn vectors() -> Vectors {
    Blocks { norm, softmax, rope }
}

fn half(v: f32) -> u16 {
    let x = v.to_bits();
    let sign = ((x >> 31) as u16) << 15;
    let exp = ((x >> 23) & 0xFF) as i32 - 127;
    if exp < -14 {
        return sign;
    }
    sign | (((exp + 15) as u16) << 10) | (((x & 0x7F_FFFF) >> 13) as u16)
}

struct Source(u32);

impl Source {
    fn next(&mut self) -> u32 {
        self.0 = self.0.wrapping_mul(1664525).wrapping_add(1013904223);
        self.0 >> 8
    }

    fn float(&mut self) -> f32 {
        (self.next() % 2000) as f32 / 1000.0 - 1.0
    }
}

const D: usize = 16;
const LAYERS: usize = 3;
const LANES: usize = 2;
const HD: usize = 8;
const WINDOW: usize = 4;
const SEQ: usize = 320;

fn tokenizer_blob() -> Vec<u8> {
    let mut p: Vec<(String, f32, u8)> = vec![
        ("<pad>".into(), 0.0, TK_CONTROL),
        ("</s>".into(), 0.0, TK_CONTROL),
        ("<s>".into(), 0.0, TK_CONTROL),
        ("<unk>".into(), 0.0, TK_UNKNOWN),
        ("<|im_start|>".into(), 0.0, TK_USER_DEFINED),
        ("<|im_end|>".into(), 0.0, TK_USER_DEFINED),
        ("<tool_call>".into(), 0.0, TK_USER_DEFINED),
        ("</tool_call>".into(), 0.0, TK_USER_DEFINED),
        ("\u{2581}".into(), -1.0, TK_NORMAL),
    ];
    for b in 0..256 {
        p.push((format!("<0x{b:02X}>"), -50.0, TK_BYTE));
    }
    let mut out = Vec::new();
    for v in [p.len() as u32, 0, 1, 2, 3] {
        out.extend_from_slice(&v.to_le_bytes());
    }
    out.extend_from_slice(&[1, 1, 0, 0]);
    for (s, score, ty) in &p {
        out.extend_from_slice(&score.to_le_bytes());
        out.push(*ty);
        out.extend_from_slice(&(s.len() as u16).to_le_bytes());
        out.extend_from_slice(s.as_bytes());
    }
    out
}

const VOCAB: usize = 9 + 256;

/// A container with a small model, its tokenizer and both heads.
fn container(vocab: usize, seed: u32) -> Vec<u8> {
    let mut r = Source(seed);
    let codebook: Vec<f32> = (0..CODEBOOK_LEN).map(|_| r.float() * 0.5).collect();
    let mut recs: Vec<(u8, Vec<usize>, usize, u8, Vec<u8>)> = Vec::new();
    let fp = |r: &mut Source, shape: &[usize], scale: f32| {
        let n: usize = shape.iter().product();
        let mut b = Vec::new();
        for _ in 0..n {
            b.extend_from_slice(&half(r.float() * scale).to_le_bytes());
        }
        (DT_FP16, shape.to_vec(), 0usize, 0u8, b)
    };
    let cq = |r: &mut Source, out: usize, inp: usize, width: u8| {
        let w = if width == 5 { 2 } else { width as usize };
        let mut b: Vec<u8> = (0..out * inp * w / 8).map(|_| r.next() as u8).collect();
        for _ in 0..out * inp / 8 {
            b.extend_from_slice(&half(0.5 + r.float() * 0.25).to_le_bytes());
        }
        (DT_CQ, vec![out, inp], 8usize, width, b)
    };
    recs.push(cq(&mut r, vocab, D, 4));
    for l in 0..LAYERS {
        recs.push(fp(&mut r, &[D], 0.2));
        recs.push(cq(&mut r, 16, D, 2));
        recs.push(cq(&mut r, 8, D, 3));
        recs.push(cq(&mut r, 8, D, 5));
        recs.push(fp(&mut r, &[HD], 0.2));
        recs.push(fp(&mut r, &[HD], 0.2));
        recs.push(cq(&mut r, 16, D, if l == 0 { 4 } else { 2 }));
        recs.push(cq(&mut r, D, 16, 2));
        recs.push(fp(&mut r, &[D], 0.2));
        recs.push(fp(&mut r, &[1], 1.0));
        recs.push(fp(&mut r, &[D], 0.2));
        recs.push(fp(&mut r, &[D], 1.0));
        recs.push(fp(&mut r, &[D], 1.0));
        recs.push(fp(&mut r, &[D], 1.0));
    }
    for shape in [vec![LAYERS], vec![LAYERS], vec![LAYERS]] {
        recs.push(fp(&mut r, &shape, 1.0));
    }
    recs.push(fp(&mut r, &[LAYERS, LANES], 1.0));
    recs.push(fp(&mut r, &[LAYERS, LANES], 1.0));
    recs.push(fp(&mut r, &[LAYERS, LANES, LANES], 1.0));
    recs.push(cq(&mut r, LAYERS * LANES, LANES * D, 4));
    recs.push(cq(&mut r, LAYERS * LANES, LANES * D, 4));
    recs.push(cq(&mut r, LAYERS * LANES * LANES, LANES * D, 4));
    // One memory site: two tables of sixteen slots, eight numbers wide.
    recs.push(cq(&mut r, 2 * 16, 8, 2));
    recs.push(cq(&mut r, D, D, 2));
    recs.push(cq(&mut r, D, D, 2));
    recs.push(fp(&mut r, &[2, D], 1.0));
    recs.push(fp(&mut r, &[D], 0.2));
    let mut codes = Vec::new();
    codes.extend_from_slice(&half(HEAD_CONTRASTIVE as f32).to_le_bytes());
    codes.extend_from_slice(&half(HEAD_CONFIDENCE as f32).to_le_bytes());
    recs.push((DT_FP16, vec![2], 0, 0, codes));
    for (probes, out) in [(2usize, 5usize), (3, 1)] {
        recs.push(fp(&mut r, &[probes, D], 1.0));
        recs.push(fp(&mut r, &[out, probes * D], 1.0));
        recs.push(fp(&mut r, &[out], 1.0));
    }
    recs.push((DT_RAW, vec![], 0, 0, tokenizer_blob()));

    let mut b: Vec<u8> = Vec::new();
    for v in [
        TAG, recs.len() as u32, CODEBOOK_LEN as u32, WINDOW as u32, 8, vocab as u32, D as u32, 2, 1,
        LAYERS as u32, HD as u32, SEQ as u32, D as u32, LANES as u32, 16, 8, 2, 2, 2, 2, 2, 3, 0, 0, 1,
        1, 0, 0, 0,
    ] {
        b.extend_from_slice(&v.to_le_bytes());
    }
    b.extend_from_slice(&10000.0f32.to_le_bytes());
    for v in &codebook {
        b.extend_from_slice(&v.to_le_bytes());
    }
    let mut pos = b.len() + recs.len() * REC_BYTES;
    let mut at = Vec::new();
    for (dtype, shape, group, width, blob) in &recs {
        pos = (pos + ALIGN - 1) / ALIGN * ALIGN;
        at.push(pos);
        b.push(*dtype);
        b.push(shape.len() as u8);
        b.extend_from_slice(&[0, 0]);
        for k in 0..4 {
            b.extend_from_slice(&(*shape.get(k).unwrap_or(&0) as u32).to_le_bytes());
        }
        b.extend_from_slice(&(pos as u64).to_le_bytes());
        b.extend_from_slice(&(blob.len() as u64).to_le_bytes());
        b.extend_from_slice(&(*group as u32).to_le_bytes());
        b.extend_from_slice(&(*width as u32).to_le_bytes());
        pos += blob.len();
    }
    for (p, rec) in at.iter().zip(&recs) {
        b.resize(*p, 0);
        b.extend_from_slice(&rec.4);
    }
    b
}

fn engine() -> V2Engine {
    let e = V2Engine::from_bytes(container(VOCAB, 12345)).unwrap();
    assert!(e.ready_to_generate());
    assert!(e.ready_to_embed());
    e
}

fn matvec(w: &CqWeight, x: &[f32]) -> Vec<f32> {
    values(&w.matvec(&floats(), &bits(x)))
}

fn sigmoid(x: f32) -> f32 {
    1.0 / (1.0 + libm::expf(-x))
}

fn unit_rms(x: &[f32]) -> Vec<f32> {
    values(&rms_unit_to(&floats(), &bits(x)))
}

fn normed(x: &[f32], scale: &[u32]) -> Vec<f32> {
    values(&norm(&bits(x), scale))
}

/// The model written out plainly over a whole sequence: the scores at every
/// position, and the lanes after every layer.
/// A name, a layer (the number of layers where it is of none) and what stands there.
type Point = (&'static str, usize, Vec<f32>);

fn plain_forward(m: &V2Model, tokens: &[u32], window: usize) -> (Vec<Vec<f32>>, Vec<Vec<Vec<f32>>>) {
    let (scores, lanes, _) = plain_points(m, tokens, window);
    (scores, lanes)
}

fn plain_points(
    m: &V2Model,
    tokens: &[u32],
    window: usize,
) -> (Vec<Vec<f32>>, Vec<Vec<Vec<f32>>>, Vec<Vec<Point>>) {
    let c = &m.cfg;
    let (d, n, hd) = (c.d_model, c.mhc_lanes, c.head_dim);
    let mut keys: Vec<Vec<Vec<f32>>> = vec![Vec::new(); c.num_layers];
    let mut vals: Vec<Vec<Vec<f32>>> = vec![Vec::new(); c.num_layers];
    let mut memory: Vec<Vec<f32>> = Vec::new();
    let whole = c.num_layers;
    let (mut all_scores, mut all_lanes, mut all_points) = (Vec::new(), Vec::new(), Vec::new());
    for (pos, &token) in tokens.iter().enumerate() {
        let row = values(&m.embedding.dequantize_row(&floats(), token as usize));
        let x: Vec<f32> = row.iter().map(|v| v * libm::sqrtf(d as f32)).collect();
        let mut lanes: Vec<f32> = (0..n).flat_map(|_| x.clone()).collect();
        let mut trace = vec![lanes.clone()];
        let mut points: Vec<Point> = vec![("embed", whole, x.clone())];

        let site = &m.engrams[0];
        let mut entries = Vec::new();
        for r in entry_rows(&c.engram, tokens, pos) {
            match r {
                Some(r) => entries.extend(values(&site.tables.dequantize_row(&floats(), r))),
                None => entries.extend(vec![0.0f32; c.engram.sub_dim]),
            }
        }
        memory.push(matvec(&site.value_proj, &entries));
        let key = matvec(&site.key_proj, &entries);
        let taps = values(&site.taps);
        let mut value = vec![0.0f32; d];
        for j in 0..c.engram.conv_taps {
            let shift = j * c.engram.conv_dilation;
            if shift > pos {
                continue;
            }
            for i in 0..d {
                value[i] += taps[j * d + i] * memory[pos - shift][i];
            }
        }

        points.push(("engram_k0", whole, key.clone()));
        points.push(("engram_v0", whole, value.clone()));

        for li in 0..c.num_layers {
            let l = &m.layers[li];
            let nx = unit_rms(&lanes);
            let pre = matvec(&m.mhc.phi_pre, &nx);
            let post = matvec(&m.mhc.phi_post, &nx);
            let res = matvec(&m.mhc.phi_res, &nx);
            let mut u = vec![0.0f32; d];
            let mut hpre = Vec::new();
            for lane in 0..n {
                let z = f32::from_bits(m.mhc.a_pre[li]) * pre[li * n + lane]
                    + f32::from_bits(m.mhc.b_pre[li * n + lane])
                    + f32::from_bits(c.pre_off(li, lane));
                hpre.push(sigmoid(z));
                for i in 0..d {
                    u[i] += sigmoid(z) * lanes[lane * d + i];
                }
            }
            points.push(("hpre", li, hpre));
            points.push(("u", li, u.clone()));
            let mut bx = u.clone();
            let mut strength = Vec::new();
            if c.engram.site_of_layer(li) == Some(0) {
                let (a, b) = (unit_rms(&u), unit_rms(&key));
                let mut dot = 0.0f32;
                for i in 0..d {
                    dot += a[i] * b[i];
                }
                let alpha = sigmoid(dot / libm::sqrtf(d as f32));
                strength.push(alpha);
                for i in 0..d {
                    bx[i] = u[i] + alpha * value[i];
                }
            }
            points.push(("bx", li, bx.clone()));
            if !strength.is_empty() {
                points.push(("alpha", li, strength));
            }
            let h = normed(&bx, &l.norm_in);
            let split = |v: Vec<f32>, scale: &[u32], heads: usize| {
                let v: Vec<f32> = (0..heads)
                    .flat_map(|k| normed(&v[k * hd..(k + 1) * hd], scale))
                    .collect();
                values(&rope(&bits(&v), heads, pos))
            };
            let q = split(matvec(&l.q_proj, &h), &l.q_norm, c.num_heads);
            keys[li].push(split(matvec(&l.k_proj, &h), &l.k_norm, c.num_kv_heads));
            vals[li].push(matvec(&l.v_proj, &h));
            let gate = matvec(&l.gate_proj, &h);
            let lo = if window == 0 || window > pos { 0 } else { pos + 1 - window };
            let mut att = Vec::new();
            for head in 0..c.num_heads {
                let kv = head / (c.num_heads / c.num_kv_heads);
                let scores: Vec<f32> = (lo..=pos)
                    .map(|p| {
                        let mut acc = 0.0f32;
                        for i in 0..hd {
                            acc += q[head * hd + i] * keys[li][p][kv * hd + i];
                        }
                        acc * (1.0 / libm::sqrtf(hd as f32))
                    })
                    .collect();
                let w = values(&softmax(&bits(&scores)));
                let mut out = vec![0.0f32; hd];
                for (s, p) in (lo..=pos).enumerate() {
                    for i in 0..hd {
                        out[i] += w[s] * vals[li][p][kv * hd + i];
                    }
                }
                att.extend(out);
            }
            for (a, g) in att.iter_mut().zip(&gate) {
                *a *= sigmoid(*g);
            }
            let att = normed(&matvec(&l.out_proj, &att), &l.post_norm);
            let g = sigmoid(f32::from_bits(l.attn_gate));
            let mut y: Vec<f32> = (0..d).map(|i| bx[i] + g * att[i]).collect();
            let h = normed(&y, &l.pre_hada);
            let mlp = values(&hadamard_mlp(&floats(), &bits(&h), &l.d1, &l.d2, &l.d3));
            for i in 0..d {
                y[i] += mlp[i];
                y[i] -= u[i];
            }
            points.push(("y", li, y.clone()));
            let mixed: Vec<f32> = (0..n * n)
                .map(|k| {
                    f32::from_bits(m.mhc.a_res[li]) * res[li * n * n + k]
                        + f32::from_bits(m.mhc.b_res[li * n * n + k])
                })
                .collect();
            let mut mixed = bits(&mixed);
            sinkhorn(&floats(), &mut mixed, n);
            let mixed = values(&mixed);
            let before = lanes.clone();
            let mut hpost = Vec::new();
            for a in 0..n {
                let z = f32::from_bits(m.mhc.a_post[li]) * post[li * n + a]
                    + f32::from_bits(m.mhc.b_post[li * n + a])
                    + f32::from_bits(c.post_off(li, a));
                let hp = 2.0 * sigmoid(z);
                hpost.push(hp);
                for i in 0..d {
                    let mut acc = 0.0f32;
                    for b in 0..n {
                        acc += mixed[a * n + b] * before[b * d + i];
                    }
                    lanes[a * d + i] = acc + hp * y[i];
                }
            }
            points.push(("hpost", li, hpost));
            points.push(("hres", li, mixed));
            points.push(("x", li, lanes.clone()));
            trace.push(lanes.clone());
        }
        let mean: Vec<f32> = (0..d)
            .map(|i| {
                let mut acc = 0.0f32;
                for lane in 0..n {
                    acc += lanes[lane * d + i];
                }
                acc / n as f32
            })
            .collect();
        let hidden = normed(&mean, &m.final_norm);
        let scores = values(&score_hidden(&floats(), m, &bits(&hidden)));
        points.push(("lane_mean", whole, mean));
        points.push(("final_norm", whole, hidden));
        points.push(("logits", whole, scores.clone()));
        all_scores.push(scores);
        all_lanes.push(trace);
        all_points.push(points);
    }
    (all_scores, all_lanes, all_points)
}

fn prompt(n: usize) -> Vec<u32> {
    let mut r = Source(99);
    (0..n).map(|_| r.next() % VOCAB as u32).collect()
}

fn state_of(e: &V2Engine) -> V2State<u32> {
    e.new_state(0)
}

#[test]
fn steps_compute_the_plain_forward_pass() {
    let e = engine();
    let m = e.model();
    let tokens = prompt(20);
    let (want, _) = plain_forward(m, &tokens, WINDOW);
    let mut s = state_of(&e);
    let mut logits = vec![0u32; VOCAB];
    for (i, &t) in tokens.iter().enumerate() {
        m.step(&floats(), &vectors(), t, &mut s, &mut logits).unwrap();
        assert_eq!(values(&logits), want[i], "position {i}");
    }
    assert_eq!(s.pos(), 20);
    assert_eq!(s.history()[..20], tokens[..]);
}

/// What a trace holds, in the order of the pass.
fn points_of(trace: &Trace, logits: &[u32]) -> Vec<Point> {
    let whole = trace.layers.len();
    let mut out: Vec<Point> = vec![("embed", whole, values(&trace.embed))];
    if let (Some(k), Some(v)) = (&trace.engram_k0, &trace.engram_v0) {
        out.push(("engram_k0", whole, values(k)));
        out.push(("engram_v0", whole, values(v)));
    }
    for (li, l) in trace.layers.iter().enumerate() {
        out.push(("hpre", li, values(&l.hpre)));
        out.push(("u", li, values(&l.u)));
        out.push(("bx", li, values(&l.bx)));
        if let Some(a) = l.alpha {
            out.push(("alpha", li, values(&[a])));
        }
        out.push(("y", li, values(&l.y)));
        out.push(("hpost", li, values(&l.hpost)));
        out.push(("hres", li, values(&l.hres)));
        out.push(("x", li, values(&l.x)));
    }
    out.push(("lane_mean", whole, values(&trace.lane_mean)));
    out.push(("final_norm", whole, values(&trace.final_norm)));
    out.push(("logits", whole, values(logits)));
    out
}

#[test]
fn the_trace_holds_every_point_of_the_pass() {
    let e = engine();
    let m = e.model();
    let tokens = prompt(6);
    let (_, _, want) = plain_points(m, &tokens, WINDOW);
    let mut s = state_of(&e);
    let mut logits = vec![0u32; VOCAB];
    for (i, &t) in tokens.iter().enumerate() {
        let trace = m.step_traced(&floats(), &vectors(), t, &mut s, &mut logits).unwrap();
        assert_eq!(trace.final_norm, V2Model::last_hidden(&s));
        let got = points_of(&trace, &logits);
        assert_eq!(got.len(), want[i].len());
        for (g, w) in got.iter().zip(&want[i]) {
            assert_eq!(g, w, "position {i}");
        }
    }
    let kept = logits.clone();
    assert_eq!(
        m.step_traced(&floats(), &vectors(), VOCAB as u32, &mut s, &mut logits).err(),
        Some("token id outside vocabulary")
    );
    assert_eq!(logits, kept);
}

#[test]
fn the_hidden_state_is_that_of_the_last_token_however_it_was_fed() {
    let e = engine();
    let m = e.model();
    for &n in &[1usize, 2, 9, 33] {
        let toks = tokens(n, VOCAB);
        let mut want = m.make_state(0u32);
        for &t in &toks {
            m.step_prefill(&floats(), &vectors(), t, &mut want).unwrap();
        }
        for &cap in &[1usize, 4, 8, 64] {
            for scores in [None, Some(VOCAB)] {
                let mut s = m.make_state(0u32);
                let batch = V2Batch::new(m, cap);
                m.prefill_batch(&floats(), &vectors(), &toks, &mut s, &batch, scores).unwrap();
                assert_eq!(
                    V2Model::last_hidden(&s),
                    V2Model::last_hidden(&want),
                    "n={n} cap={cap} {scores:?}"
                );
                let kept = s.hidden.clone();
                m.prefill_batch(&floats(), &vectors(), &[], &mut s, &batch, None).unwrap();
                assert_eq!(s.hidden, kept, "no token leaves it alone");
            }
        }
    }
}

#[test]
fn refused_tokens_leave_the_state_alone() {
    let e = engine();
    let m = e.model();
    let mut s = state_of(&e);
    let mut logits = vec![0u32; VOCAB];
    assert_eq!(
        m.step(&floats(), &vectors(), VOCAB as u32, &mut s, &mut logits),
        Err("token id outside vocabulary")
    );
    let mut short = vec![0u32; 3];
    assert_eq!(
        m.step(&floats(), &vectors(), 1, &mut s, &mut short),
        Err("logits buffer is not vocab_size long")
    );
    assert_eq!(s.pos(), 0);
    let batch = V2Batch::new(m, 4);
    assert_eq!(batch.cap(), 4);
    let long = vec![1u32; SEQ + 1];
    assert_eq!(
        m.prefill_batch(&floats(), &vectors(), &long, &mut s, &batch, None),
        Err("sequence exceeds max_seq_len")
    );
    assert_eq!(
        m.prefill_batch(&floats(), &vectors(), &[1, VOCAB as u32], &mut s, &batch, None),
        Err("token id outside vocabulary")
    );
    assert_eq!(
        m.prefill_batch(&floats(), &vectors(), &[1], &mut s, &batch, Some(2)),
        Err("logits buffer is not vocab_size long")
    );
    assert_eq!(s.pos(), 0);
    m.step_prefill(&floats(), &vectors(), 5, &mut s).unwrap();
    let kept = (s.k_cache.clone(), s.v_cache.clone(), s.engram_v.clone(), s.hidden.clone());
    assert!(m.step_prefill(&floats(), &vectors(), VOCAB as u32, &mut s).is_err());
    assert_eq!(kept, (s.k_cache, s.v_cache, s.engram_v, s.hidden));
}

#[test]
fn a_full_sequence_is_refused_and_rings_stay_small() {
    let e = engine();
    let m = e.model();
    let mut s = state_of(&e);
    assert_eq!(s.cache_len(), WINDOW);
    for _ in 0..SEQ {
        m.step_prefill(&floats(), &vectors(), 9, &mut s).unwrap();
    }
    assert_eq!(
        m.step_prefill(&floats(), &vectors(), 9, &mut s).err(),
        Some("sequence exceeds max_seq_len")
    );
    assert_eq!(
        s.set_kv_window(Some(0), &m.cfg),
        Err("requested attention window exceeds this state's KV capacity; allocate with make_state_full_causal")
    );
}

#[test]
fn a_window_no_shorter_than_the_text_changes_nothing() {
    let e = engine();
    let m = e.model();
    let tokens = prompt(WINDOW);
    let mut a = state_of(&e);
    let mut b = m.make_state_full_causal(0u32);
    let mut logits = vec![0u32; VOCAB];
    for &t in &tokens {
        let x = m.step_traced(&floats(), &vectors(), t, &mut a, &mut logits).unwrap();
        let y = m.step_traced(&floats(), &vectors(), t, &mut b, &mut logits).unwrap();
        assert_eq!(x, y);
    }
    let x = m.step_traced(&floats(), &vectors(), 7, &mut a, &mut logits).unwrap();
    let y = m.step_traced(&floats(), &vectors(), 7, &mut b, &mut logits).unwrap();
    assert_ne!(x, y);
}

fn options(chunk: usize, temperature: f32, seed: u64, constrain: bool) -> GenerateOptions {
    GenerateOptions {
        max_new_tokens: 24,
        temperature: temperature.to_bits(),
        seed,
        system: None,
        prefill_chunk: chunk,
        constrain,
    }
}

const TOOLS: &str = "[{\"name\":\"ping\",\"parameters\":{\"to\":{\"type\":\"string\"}}}]";

#[test]
fn result_is_independent_of_prefill_chunk() {
    let e = engine();
    let mut s = state_of(&e);
    for &(temperature, constrain) in &[(0.0f32, false), (0.9, false), (0.9, true)] {
        let o = options(0, temperature, 5, constrain);
        let want = e.generate(&floats(), &vectors(), &doubles(), "hi", TOOLS, &o);
        assert!(want.prompt_tokens > 20);
        for chunk in [0usize, 1, 7, 32, 64, 128, 512] {
            let o = options(chunk, temperature, 5, constrain);
            let got = e.generate_with_state(
                &floats(), &vectors(), &doubles(), "hi", TOOLS, &o, &mut s,
            );
            assert_eq!(got.token_ids, want.token_ids);
            assert_eq!(got.text, want.text);
            assert_eq!(got.stop_reason, want.stop_reason);
            let seq =
                e.generate_sequential(&floats(), &vectors(), &doubles(), "hi", TOOLS, &o);
            assert_eq!(seq.token_ids, want.token_ids);
        }
        assert!(want.token_ids.len() <= 24);
    }
}

#[test]
fn streaming_reproduces_the_same_output() {
    let e = engine();
    for (query, temperature, seed) in [
        ("hello there", 0.8f32, 3u64),
        ("hi", 1.0, 1),
        ("hi", 1.0, 2),
        ("what is it", 0.0, 0),
        ("x", 2.5, 9),
        ("y", 2.5, 10),
    ] {
        let o = options(16, temperature, seed, false);
        let want = e.generate(&floats(), &vectors(), &doubles(), query, TOOLS, &o);
        let mut s = state_of(&e);
        let mut run = match e.start(&floats(), &vectors(), query, TOOLS, &o, &mut s) {
            Ok(run) => run,
            Err(_) => panic!("the prompt was refused"),
        };
        let tok = e.tokenizer().unwrap();
        let mut stop = StopReason::MaxTokens;
        let mut stream = Stream::new();
        let mut ids = Vec::new();
        let mut text = String::new();
        while run.session.wants_token() {
            let t = run.turn(&floats(), &vectors(), &doubles(), e.model(), &o, &mut s);
            if let Turn::Stop(r) = t {
                stop = r;
                break;
            }
            for d in stream.push(tok, &run.session.out) {
                ids.push(d.id);
                text.push_str(&d.piece);
            }
            if let Turn::EmitAndStop(r) = t {
                stop = r;
                break;
            }
        }
        if let Some(d) = stream.close(tok, &run.session.out) {
            ids.push(d.id);
            text.push_str(&d.piece);
        }
        let n = run.prompt_tokens;
        let got = run.session.finish(tok, n, stop);
        assert_eq!(got.token_ids, want.token_ids);
        assert_eq!(got.text, want.text);
        assert_eq!(got.stop_reason, want.stop_reason);
        assert_eq!(ids, want.token_ids, "streamed ids differ for {query:?}");
        assert_eq!(text, want.text, "streamed text differs for {query:?}");
    }
}

#[test]
fn a_run_leaves_its_tokens_in_the_state() {
    let e = engine();
    let mut s = state_of(&e);
    let o = options(16, 0.9, 4, false);
    let r = e.generate_with_state(&floats(), &vectors(), &doubles(), "hi", TOOLS, &o, &mut s);
    let kept = match r.stop_reason {
        StopReason::ContextFull | StopReason::Error(_) => r.token_ids.len() - 1,
        _ => r.token_ids.len(),
    };
    assert_eq!(s.pos(), r.prompt_tokens + kept);
    assert_eq!(s.history()[r.prompt_tokens..], r.token_ids[..kept]);
}

#[test]
fn a_reply_ends_as_reported() {
    let e = engine();
    let t = e.tokenizer().unwrap();
    let mut full = 0;
    for seed in 0..40u64 {
        for max in [0usize, 1, 3, 24] {
            let mut o = options(0, 1.5, seed, false);
            o.max_new_tokens = max;
            let r = e.generate(&floats(), &vectors(), &doubles(), "hi", TOOLS, &o);
            assert!(r.token_ids.len() <= max);
            assert!(!r.token_ids.contains(&t.eos_id));
            // The end-of-turn marker is the sixth piece.
            assert!(!r.token_ids.contains(&5));
            match r.stop_reason {
                StopReason::MaxTokens => {
                    full += 1;
                    assert_eq!(r.token_ids.len(), max);
                }
                StopReason::Eos | StopReason::ImEnd => assert!(r.token_ids.len() < max),
                _ => panic!("{:?}", r.stop_reason),
            }
        }
    }
    assert!(full >= 40);
}

#[test]
fn a_seed_repeats_a_sampled_reply() {
    let e = engine();
    let run = |seed| {
        let o = options(128, 1.0, seed, false);
        e.generate(&floats(), &vectors(), &doubles(), "hi", "[]", &o).token_ids
    };
    assert_eq!(run(1), run(1));
    assert_ne!(run(1), run(2));
    let greedy = |seed| {
        let o = options(128, 0.0, seed, false);
        e.generate(&floats(), &vectors(), &doubles(), "hi", "[]", &o).token_ids
    };
    assert_eq!(greedy(1), greedy(2));
}

#[test]
fn a_batch_of_queries_is_one_run_after_the_other() {
    let e = engine();
    let all = e.run_batch(&floats(), &vectors(), &doubles(), &[("a", "[]"), ("b", TOOLS)]);
    assert_eq!(all.len(), 2);
    let a = e.run(&floats(), &vectors(), &doubles(), "a", "[]");
    let b = e.run(&floats(), &vectors(), &doubles(), "b", TOOLS);
    assert_eq!(all[0].token_ids, a.token_ids);
    assert_eq!(all[1].token_ids, b.token_ids);
}

#[test]
fn a_prompt_outside_the_vocabulary_fails() {
    // The tokenizer knows more pieces than the model.
    let e = V2Engine::from_bytes(container(64, 1)).unwrap();
    let o = options(8, 0.0, 0, false);
    let r = e.generate(&floats(), &vectors(), &doubles(), "hi", "[]", &o);
    assert_eq!(r.error(), Some("token id outside vocabulary"));
    assert!(r.token_ids.is_empty());
    let o = options(0, 0.0, 0, false);
    let q = e.generate(&floats(), &vectors(), &doubles(), "hi", "[]", &o);
    assert_eq!(q.error(), Some("token id outside vocabulary"));
    assert_eq!(r.prompt_tokens, q.prompt_tokens);
    assert!(e.encode_contrastive(&floats(), &vectors(), "zzz").is_none());
    assert!(e.last_hidden(&floats(), &vectors(), "zzz").is_none());
}

/// The cells of a text, pooled and projected plainly.
fn plain_head(e: &V2Engine, code: u8, text: &str) -> Vec<f32> {
    let m = e.model();
    let h = e.bundle().head(code).unwrap();
    let ids = e.encode_with_bos(text).unwrap();
    let (_, lanes) = plain_forward(m, &ids, 0);
    let mut cells: Vec<Vec<f32>> = Vec::new();
    for trace in &lanes {
        for (l, x) in trace.iter().enumerate() {
            if l == 0 {
                cells.push(x[..D].to_vec());
            } else {
                cells.push((0..D).map(|i| (0.0 + x[i] + x[D + i]) / 2.0).collect());
            }
        }
    }
    let probes = values(&h.probes);
    let mut pooled = Vec::new();
    for k in 0..h.num_probes {
        let z: Vec<f32> = cells
            .iter()
            .map(|c| {
                (0..D).map(|i| c[i] * probes[k * D + i]).sum::<f32>() / libm::sqrtf(D as f32)
            })
            .collect();
        let w = values(&softmax(&bits(&z)));
        for i in 0..D {
            pooled.push(cells.iter().zip(&w).map(|(c, w)| c[i] * w).sum::<f32>());
        }
    }
    let proj = values(&h.proj);
    let bias = values(&h.bias);
    let n = pooled.len();
    let out: Vec<f32> = (0..h.out_dim)
        .map(|o| (0..n).map(|i| proj[o * n + i] * pooled[i]).sum::<f32>() + bias[o])
        .collect();
    if code == HEAD_CONTRASTIVE {
        let len = out.iter().map(|v| v * v).sum::<f32>().sqrt();
        out.iter().map(|v| v / len).collect()
    } else {
        out
    }
}

#[test]
fn heads_pool_the_cells_of_the_whole_text() {
    let e = engine();
    let text = "how is the weather";
    let got = values(&e.encode_contrastive(&floats(), &vectors(), text).unwrap());
    assert_eq!(got.len(), e.contrastive_dim());
    for (a, b) in got.iter().zip(plain_head(&e, HEAD_CONTRASTIVE, text)) {
        assert!((a - b).abs() < 1e-4, "{a} vs {b}");
    }
    assert!(e.can_judge());
    let z = f32::from_bits(e.confidence(&floats(), &vectors(), text).unwrap());
    let want = plain_head(&e, HEAD_CONFIDENCE, text)[0];
    assert!((z - want).abs() < 1e-3 * want.abs().max(1.0), "{z} vs {want}");
    let p = f32::from_bits(e.confidence_probability(&floats(), &vectors(), text).unwrap());
    assert_eq!(p, 1.0 / (1.0 + libm::expf(-z)));
    let judged = V2Engine::judged_text("q", "[]", "done");
    assert_eq!(
        e.confidence_for(&floats(), &vectors(), "q", "[]", "done"),
        e.confidence_probability(&floats(), &vectors(), &judged)
    );
}

#[test]
fn shared_head_state_matches_per_call_state() {
    let e = engine();
    let mut s = e.new_head_state(0u32).unwrap();
    for text in ["a", "some longer text", "a"] {
        let shared = e.encode_contrastive_with_state(&floats(), &vectors(), text, &mut s);
        assert_eq!(shared, e.encode_contrastive(&floats(), &vectors(), text));
        let z = e.confidence_with_state(&floats(), &vectors(), text, &mut s);
        assert_eq!(z, e.confidence(&floats(), &vectors(), text));
    }
    // A state with a short ring cannot hold a whole text.
    let mut small = state_of(&e);
    assert!(e.encode_contrastive_with_state(&floats(), &vectors(), "a", &mut small).is_none());
}

#[test]
fn descriptions_are_ranked_by_their_product_with_the_query() {
    let e = engine();
    let texts = ["send mail", "how is the weather", "weather now"];
    let got = e.retrieve_tools(&floats(), &vectors(), "weather now", &texts, 2);
    assert_eq!(got.len(), 2);
    assert_eq!(got[0].0, 2);
    assert!((f32::from_bits(got[0].1) - 1.0).abs() < 1e-4);
    let q = values(&e.encode_contrastive(&floats(), &vectors(), "weather now").unwrap());
    for (i, score) in &got {
        let d = values(&e.encode_contrastive(&floats(), &vectors(), texts[*i]).unwrap());
        let want: f32 = q.iter().zip(&d).fold(0.0, |a, (x, y)| a + x * y);
        assert_eq!(f32::from_bits(*score), want);
    }
    assert!(f32::from_bits(got[0].1) >= f32::from_bits(got[1].1));
    assert_eq!(e.retrieve_tools(&floats(), &vectors(), "x", &texts, 10).len(), 3);
}

#[test]
fn the_hidden_state_gives_the_last_scores() {
    let e = engine();
    let h = e.last_hidden(&floats(), &vectors(), "abc").unwrap();
    let ids = e.encode_with_bos("abc").unwrap();
    let (want, _) = plain_forward(e.model(), &ids, WINDOW);
    let got = values(&score_hidden(&floats(), e.model(), &h));
    assert_eq!(got, want[ids.len() - 1]);
}

#[test]
fn loading_reports_what_is_wrong() {
    let good = container(VOCAB, 7);
    let mut b = good.clone();
    b[0] ^= 1;
    assert!(matches!(
        V2Engine::from_bytes(b).err(),
        Some(V2LoadError::Cact(CactError::BadTag(_)))
    ));
    let c = Cact::from_bytes(good.clone()).unwrap();
    assert!(V2Bundle::has_gates(&c));
    assert!(V2Bundle::can_load(&good));
    assert!(V2Bundle::can_load(&[]));
    // A gate tensor of no bytes.
    let gate = c.layout().unwrap().layers[1].attn_gate;
    let at = 120 + CODEBOOK_LEN * 4 + gate * REC_BYTES + 28;
    let mut b = good.clone();
    b[at..at + 8].copy_from_slice(&0u64.to_le_bytes());
    assert!(!V2Bundle::can_load(&b));
    // With a fault before it, loading never comes to it.
    for i in [
        c.layout().unwrap().embedding,
        c.layout().unwrap().layers[0].d3,
        c.layout().unwrap().layers[1].post_norm,
    ] {
        let mut early = b.clone();
        early[120 + CODEBOOK_LEN * 4 + i * REC_BYTES] = DT_RAW;
        assert!(V2Bundle::can_load(&early));
        assert!(matches!(
            V2Engine::from_bytes(early).err(),
            Some(V2LoadError::Cact(CactError::DtypeMismatch { index, .. })) if index == i
        ));
    }
    let mut late = b.clone();
    let i = c.layout().unwrap().layers[1].pre_hada;
    late[120 + CODEBOOK_LEN * 4 + i * REC_BYTES] = DT_RAW;
    assert!(!V2Bundle::can_load(&late));
    let tok = c.layout().unwrap().tokenizer.unwrap();
    let at = c.record(tok).offset as usize;
    let mut b = good.clone();
    b[at..at + 4].copy_from_slice(&0u32.to_le_bytes());
    assert!(matches!(V2Engine::from_bytes(b).err(), Some(V2LoadError::Tokenizer(_))));
    // Without orders the memory tables belong to none.
    let mut b = good.clone();
    b[4 * 19..4 * 19 + 4].copy_from_slice(&0u32.to_le_bytes());
    assert_eq!(
        V2Engine::from_bytes(b).err(),
        Some(V2LoadError::Model("engram geometry incomplete"))
    );
    let bundle = V2Bundle::from_cact(&c).unwrap();
    assert!(bundle.contrastive_head().is_some());
    assert!(bundle.confidence_head().is_some());
    assert!(bundle.head(9).is_none());
    assert!(V2LoadError::Model("x").message().contains("x"));
}

fn tokens(n: usize, vocab: usize) -> Vec<u32> {
    (0..n).map(|i| (20 + (i * 4099 + i / 7) % (vocab - 40)) as u32).collect()
}

fn sequential(m: &V2Model, toks: &[u32]) -> (V2State<u32>, Vec<u32>) {
    let mut state = m.make_state(0u32);
    let mut logits = vec![0u32; m.cfg.vocab_size];
    let (last, prefix) = toks.split_last().unwrap();
    for &t in prefix {
        m.step_prefill(&floats(), &vectors(), t, &mut state).unwrap();
    }
    m.step(&floats(), &vectors(), *last, &mut state, &mut logits).unwrap();
    (state, logits)
}

fn batched(m: &V2Model, toks: &[u32], batch: &V2Batch) -> (V2State<u32>, Vec<u32>) {
    let mut state = m.make_state(0u32);
    let logits = m
        .prefill_batch(&floats(), &vectors(), toks, &mut state, batch, Some(m.cfg.vocab_size))
        .unwrap()
        .unwrap();
    (state, logits)
}

#[test]
fn batched_prefill_matches_sequential_exactly() {
    let e = engine();
    let m = e.model();
    for &n in &[1usize, 2, 7, 16, 31, 32, 33, 64, 100, 129] {
        let toks = tokens(n, VOCAB);
        let (_, want) = sequential(m, &toks);
        for &cap in &[1usize, 8, 32, 128] {
            let (_, got) = batched(m, &toks, &V2Batch::new(m, cap));
            assert_eq!(got, want, "n={n} cap={cap}");
        }
    }
}

#[test]
fn chunk_boundary_does_not_change_the_result() {
    let e = engine();
    let m = e.model();
    let toks = tokens(300, VOCAB);
    let (_, want) = batched(m, &toks, &V2Batch::new(m, 512));
    for &cap in &[7usize, 64, 128, 299, 300, 301] {
        let (_, got) = batched(m, &toks, &V2Batch::new(m, cap));
        assert_eq!(got, want, "cap={cap} changed the result");
    }
}

#[test]
fn decoding_continues_identically_after_batched_prefill() {
    let e = engine();
    let m = e.model();
    let toks = tokens(40, VOCAB);
    let greedy = |(mut state, mut logits): (V2State<u32>, Vec<u32>)| -> Vec<u32> {
        let mut out = Vec::new();
        for _ in 0..12 {
            let next = argmax(&logits);
            out.push(next);
            m.step(&floats(), &vectors(), next, &mut state, &mut logits).unwrap();
        }
        out
    };
    let seq_ids = greedy(sequential(m, &toks));
    let batch_ids = greedy(batched(m, &toks, &V2Batch::new(m, 16)));
    assert_eq!(batch_ids, seq_ids);
    assert!(!seq_ids.is_empty());
}

#[test]
fn engine_batched_and_sequential_agree_on_real_prompts() {
    let e = engine();
    const TWO: &str = r#"[{"name":"get_weather","description":"Get current weather for a city","parameters":{"type":"object","properties":{"city":{"type":"string"}},"required":["city"]}},{"name":"send_email","description":"Send an email","parameters":{"type":"object","properties":{"to":{"type":"string"},"body":{"type":"string"}},"required":["to","body"]}}]"#;
    for q in [
        "What's the weather in Paris?",
        "Is it raining in Tokyo right now?",
        "Email alice@example.com saying the build is green",
    ] {
        let seq = e.generate_sequential(
            &floats(), &vectors(), &doubles(), q, TWO, &GenerateOptions::default(),
        );
        let bat = e.run(&floats(), &vectors(), &doubles(), q, TWO);
        assert_eq!(bat.token_ids, seq.token_ids, "token ids differ for {q:?}");
        assert_eq!(bat.text, seq.text, "text differs for {q:?}");
        assert_eq!(bat.stop_reason, seq.stop_reason);
    }
}

#[test]
fn batch_scratch_is_reusable() {
    let e = engine();
    let m = e.model();
    let batch = V2Batch::new(m, 32);
    let a = tokens(50, VOCAB);
    let c = tokens(37, VOCAB);
    let (_, a1) = batched(m, &a, &batch);
    let _ = batched(m, &c, &batch);
    let (_, a2) = batched(m, &a, &batch);
    assert_eq!(a1, a2, "reusing batch scratch changed the result");
    assert!(batch.bytes() > 0);
}

#[test]
fn reset_yields_identical_second_run() {
    let e = engine();
    let m = e.model();
    let mut state = m.make_state(0u32);
    let mut a = vec![0u32; VOCAB];
    for &t in &prompt(30) {
        m.step(&floats(), &vectors(), t, &mut state, &mut a).unwrap();
    }
    state.reset();
    assert_eq!(state.pos(), 0);
    assert!(state.history().is_empty());
    let mut b = vec![0u32; VOCAB];
    for &t in &prompt(30) {
        m.step(&floats(), &vectors(), t, &mut state, &mut b).unwrap();
    }
    assert_eq!(a, b, "reset did not fully clear per-sequence state");
}

#[test]
fn model_is_stateless_across_sequences() {
    let e = engine();
    let m = e.model();
    let (first, a) = sequential(m, &prompt(30));
    let (second, b) = sequential(m, &prompt(30));
    assert_eq!(a, b);
    assert_eq!(V2Model::last_hidden(&first), V2Model::last_hidden(&second));
    assert_eq!(V2Model::last_hidden(&first).len(), m.cfg.d_model);
    assert_eq!(score_hidden(&floats(), m, V2Model::last_hidden(&first)), a);
}

#[test]
fn shared_state_matches_fresh_state() {
    let e = engine();
    let mut state = state_of(&e);
    for q in ["a", "what is it", "another one, longer than the others"] {
        let o = options(64, 0.0, 0, false);
        let want = e.generate(&floats(), &vectors(), &doubles(), q, TOOLS, &o);
        let got =
            e.generate_with_state(&floats(), &vectors(), &doubles(), q, TOOLS, &o, &mut state);
        assert_eq!(got.token_ids, want.token_ids, "shared state diverged on {q:?}");
    }
}

#[test]
fn head_runs_do_not_affect_generation() {
    let e = engine();
    let before = e.run(&floats(), &vectors(), &doubles(), "What's the weather in Paris?", TOOLS);
    let _ = e.encode_contrastive(&floats(), &vectors(), "some unrelated text about flights");
    let _ = e.confidence(&floats(), &vectors(), "and something else entirely");
    let after = e.run(&floats(), &vectors(), &doubles(), "What's the weather in Paris?", TOOLS);
    assert_eq!(before.token_ids, after.token_ids);
    assert_eq!(before.text, after.text);
}

#[test]
fn empty_tool_list_leaves_decoding_free() {
    let e = engine();
    for temperature in [0.0f32, 1.0] {
        let bound = e.generate(
            &floats(), &vectors(), &doubles(), "What's the weather in Paris?", "[]",
            &options(128, temperature, 4, true),
        );
        let free = e.generate(
            &floats(), &vectors(), &doubles(), "What's the weather in Paris?", "[]",
            &options(128, temperature, 4, false),
        );
        assert_eq!(bound.text, free.text);
    }
}

#[test]
fn every_encoded_id_is_in_range() {
    let e = engine();
    let t = e.tokenizer().unwrap();
    for s in ["plain", "<|im_start|>user\n", "\u{1F9EE}", "a  b", "", "<tool_call>[]</tool_call>"] {
        for id in t.encode(s) {
            assert!((id as usize) < t.vocab_size(), "id {id} out of range for {s:?}");
        }
    }
}

#[test]
fn arbitrary_text_round_trips() {
    let e = engine();
    let t = e.tokenizer().unwrap();
    assert!(t.byte_fallback);
    let samples = [
        "plain ascii",
        "tabs\tand\nnewlines",
        "\u{1F9EE} \u{1F4CE} \u{2728}",
        "\u{16A0}\u{16A2}\u{16A6}\u{16A8}\u{16B1}\u{16B2}",
        "\u{200B}zero width\u{200B}",
        "a\u{0301}combining",
        "{\"k\": \"\u{00FC}ber\"}",
    ];
    for s in samples {
        let round = t.decode(&t.encode(s));
        assert_eq!(round, s, "round trip {s:?}");
    }
}

#[test]
fn rings_count_their_bytes() {
    let e = engine();
    // Keys and values of every layer, one key head of eight numbers, four
    // positions, four bytes each.
    assert_eq!(state_of(&e).kv_bytes(), 2 * LAYERS * WINDOW * HD * 4);
    assert!(e.tokenizer().unwrap().chat_marker_ids().is_none());
    let c = Cact::from_bytes(container(VOCAB, 7)).unwrap();
    assert_eq!(CactLayout::engram_site_of_layer(&c.geom, 1), Some(0));
    assert_eq!(CactLayout::engram_site_of_layer(&c.geom, 0), None);
}
