use needle::arith::{Arith, Binary, Unary};
use needle::engine::{GenerateOptions, StopReason, V2Result, DEFAULT_MAX_NEW_TOKENS};
use needle::constrained::FORBIDDEN;
use needle::generate::choose_token;
use needle::prompt::{
    compact_json, extract_between, THINK_END, THINK_START, TOOL_CALL_END, TOOL_CALL_START,
};
use needle::sampling::{argmax, sample, SplitMix64, Wide, WideOp};
use needle::v2_engine::V2Engine;

fn unary(o: Unary, a: u32) -> u32 {
    let x = f32::from_bits(a);
    let r = match o {
        Unary::Sqrt => libm::sqrtf(x),
        Unary::Exp => libm::expf(x),
        Unary::Ln => libm::logf(x),
        Unary::Sigmoid => 1.0 / (1.0 + libm::expf(-x)),
    };
    r.to_bits()
}

fn binary(o: Binary, a: u32, b: u32) -> u32 {
    let (x, y) = (f32::from_bits(a), f32::from_bits(b));
    let r = match o {
        Binary::Add => x + y,
        Binary::Sub => x - y,
        Binary::Mul => x * y,
        Binary::Div => x / y,
        Binary::Max => x.max(y),
    };
    r.to_bits()
}

fn count(n: usize) -> u32 {
    (n as f32).to_bits()
}

type Floats = Arith<fn(Unary, u32) -> u32, fn(Binary, u32, u32) -> u32, fn(usize) -> u32>;

fn floats() -> Floats {
    Arith { unary, binary, count }
}

fn bits(x: &[f32]) -> Vec<u32> {
    x.iter().map(|v| v.to_bits()).collect()
}

fn values(x: &[u32]) -> Vec<f32> {
    x.iter().map(|v| f32::from_bits(*v)).collect()
}

fn widen(v: u32) -> u64 {
    (f32::from_bits(v) as f64).to_bits()
}

fn unit(v: u64) -> u64 {
    (v as f64 / (1u64 << 53) as f64).to_bits()
}

fn wide_op(o: WideOp, a: u64, b: u64) -> u64 {
    let (x, y) = (f64::from_bits(a), f64::from_bits(b));
    let r = match o {
        WideOp::Add => x + y,
        WideOp::Sub => x - y,
        WideOp::Mul => x * y,
    };
    r.to_bits()
}

type Doubles = Wide<fn(u32) -> u64, fn(u64) -> u64, fn(WideOp, u64, u64) -> u64>;

fn doubles() -> Doubles {
    Wide { widen, unit, op: wide_op }
}

fn draw(logits: &[f32], temperature: f32, r: &mut SplitMix64) -> u32 {
    sample(&floats(), &doubles(), &bits(logits), temperature.to_bits(), r)
}

#[test]
fn compact_json_removes_only_insignificant_whitespace() {
    // Whitespace between tokens goes; whitespace inside strings stays.
    assert_eq!(compact_json("{ \"a\" : 1 }"), "{\"a\":1}");
    assert_eq!(compact_json("[\n  1,\n  2\n]"), "[1,2]");
    assert_eq!(
        compact_json("{\"a\": \"keep  me\"}"),
        "{\"a\":\"keep  me\"}"
    );
    assert_eq!(
        compact_json("{\"a\": \"tab\\there\"}"),
        "{\"a\":\"tab\\there\"}"
    );
    // An escaped quote must not end the string early.
    assert_eq!(
        compact_json("{\"a\": \"q \\\" x\"}"),
        "{\"a\":\"q \\\" x\"}"
    );
    // A backslash before the closing quote is itself escaped.
    assert_eq!(compact_json("{\"a\": \"b\\\\\"}"), "{\"a\":\"b\\\\\"}");
    // Already compact: unchanged.
    let compact = "[{\"name\":\"f\",\"parameters\":{\"a\":1}}]";
    assert_eq!(compact_json(compact), compact);
    // Empty and degenerate input passes through.
    assert_eq!(compact_json(""), "");
    assert_eq!(compact_json("[]"), "[]");
}
#[test]
fn prompt_is_insensitive_to_schema_indentation() {
    let pretty = r#"[{
  "name": "get_weather",
  "description": "Get current weather for a city",
  "parameters": {
"type": "object",
"properties": {"city": {"type": "string"}},
"required": ["city"]
  }
}]"#;
    let compact = r#"[{"name":"get_weather","description":"Get current weather for a city","parameters":{"type":"object","properties":{"city":{"type":"string"}},"required":["city"]}}]"#;
    assert_eq!(
        V2Engine::build_prompt("q", pretty, None),
        V2Engine::build_prompt("q", compact, None)
    );
}

#[test]
fn prompt_matches_upstream_template() {
    let p = V2Engine::build_prompt("hi", "[]", None);
    assert_eq!(
        p,
        "<|im_start|>user\n<tools>[]</tools>\nhi<|im_end|>\n<|im_start|>assistant\n"
    );
}

#[test]
fn prompt_includes_system_turn_first() {
    let p = V2Engine::build_prompt("q", "[]", Some("be terse"));
    assert!(p.starts_with("<|im_start|>system\nbe terse<|im_end|>\n<|im_start|>user\n"));
    assert!(p.ends_with("<|im_start|>assistant\n"));
}

#[test]
fn extracts_tool_call_and_thinking() {
    let t = "<think>reasoning here</think>\n<tool_call>[{\"name\":\"f\"}]</tool_call>";
    assert_eq!(
        extract_between(t, THINK_START, THINK_END),
        Some("reasoning here".into())
    );
    assert_eq!(
        extract_between(t, TOOL_CALL_START, TOOL_CALL_END),
        Some("[{\"name\":\"f\"}]".into())
    );
    assert_eq!(
        extract_between("no markers", TOOL_CALL_START, TOOL_CALL_END),
        None
    );
}
#[test]
fn extracts_unterminated_tool_call() {
    let t = "<tool_call>[{\"name\":\"get_wea";
    assert_eq!(
        extract_between(t, TOOL_CALL_START, TOOL_CALL_END),
        Some("[{\"name\":\"get_wea".into())
    );
}

#[test]
fn argmax_picks_the_largest() {
    assert_eq!(argmax(&bits(&[0.1, 9.0, 2.0])), 1);
    assert_eq!(argmax(&bits(&[-5.0, -1.0, -9.0])), 1);
    // Ties resolve to the first.
    assert_eq!(argmax(&bits(&[1.0, 1.0])), 0);
}

#[test]
fn sampling_is_deterministic_for_a_seed() {
    let logits: Vec<f32> = (0..64).map(|i| (i as f32 * 0.3).sin()).collect();
    let a: Vec<u32> = {
        let mut r = SplitMix64::new(7);
        (0..16).map(|_| draw(&logits, 0.8, &mut r)).collect()
    };
    let b: Vec<u32> = {
        let mut r = SplitMix64::new(7);
        (0..16).map(|_| draw(&logits, 0.8, &mut r)).collect()
    };
    assert_eq!(a, b);
    let c: Vec<u32> = {
        let mut r = SplitMix64::new(8);
        (0..16).map(|_| draw(&logits, 0.8, &mut r)).collect()
    };
    assert_ne!(a, c, "a different seed should give a different stream");
}
#[test]
fn low_temperature_sampling_approaches_argmax() {
    let mut logits = vec![0.0f32; 32];
    logits[19] = 10.0;
    let mut r = SplitMix64::new(1);
    for _ in 0..32 {
        assert_eq!(draw(&logits, 0.01, &mut r), 19);
    }
}

#[test]
fn sampling_stays_in_range() {
    let logits = vec![0.0f32; 10];
    let mut r = SplitMix64::new(3);
    for _ in 0..200 {
        assert!(draw(&logits, 1.0, &mut r) < 10);
    }
}

#[test]
fn splitmix_covers_the_unit_interval() {
    let mut r = SplitMix64::new(42);
    let mut lo = false;
    let mut hi = false;
    for _ in 0..1000 {
        let v = r.next_unit() as f64 / (1u64 << 53) as f64;
        assert!((0.0..1.0).contains(&v));
        if v < 0.25 {
            lo = true;
        }
        if v > 0.75 {
            hi = true;
        }
    }
    assert!(lo && hi);
}

#[test]
fn draws_follow_the_weights() {
    // Two scores whose weights stand three to one.
    let logits = vec![3.0f32.ln(), 0.0];
    let mut r = SplitMix64::new(11);
    let zeros = (0..4000).filter(|_| draw(&logits, 1.0, &mut r) == 0).count();
    assert!((2850..3150).contains(&zeros), "{zeros}");
}

#[test]
fn streams_of_different_seeds_stay_apart() {
    let mut a = SplitMix64::new(1);
    let mut b = SplitMix64::new(2);
    let x: Vec<u64> = (0..8).map(|_| a.next_u64()).collect();
    let y: Vec<u64> = (0..8).map(|_| b.next_u64()).collect();
    assert!(x.iter().zip(&y).all(|(p, q)| p != q));
}

#[test]
fn a_score_that_is_no_number_is_never_the_largest() {
    assert_eq!(argmax(&bits(&[f32::NAN, 1.0, 2.0])), 2);
    assert_eq!(argmax(&bits(&[1.0, f32::NAN])), 0);
}

#[test]
fn default_options_are_greedy() {
    let o = GenerateOptions::default();
    assert_eq!(o.max_new_tokens, DEFAULT_MAX_NEW_TOKENS);
    assert!(!o.samples());
    assert!(!o.constrain);
    assert_eq!(o.prefill_chunk, 128);
}

#[test]
fn stop_reasons_tell_natural_ends() {
    assert!(StopReason::Eos.is_natural());
    assert!(StopReason::ImEnd.is_natural());
    assert!(!StopReason::MaxTokens.is_natural());
    assert!(!StopReason::ContextFull.is_natural());
    assert!(!StopReason::Error("x").is_natural());
    let r = V2Result::failed(3, "x");
    assert_eq!(r.error(), Some("x"));
    assert!(!r.stopped_naturally());
    assert_eq!(r.prompt_tokens, 3);
    assert_eq!(r.text, "");
}

#[test]
fn greedy_choices_keep_to_the_mask() {
    let scores = bits(&[9.0, 1.0, 3.0, 2.0]);
    let mask = Some(vec![FORBIDDEN, 0, FORBIDDEN, 0]);
    let mut r = SplitMix64::new(0);
    let o = GenerateOptions::default();
    assert_eq!(choose_token(&floats(), &doubles(), &scores, &None, &o, &mut r), 0);
    assert_eq!(choose_token(&floats(), &doubles(), &scores, &mask, &o, &mut r), 3);
    let o = GenerateOptions { temperature: 1.0f32.to_bits(), ..Default::default() };
    for _ in 0..100 {
        let t = choose_token(&floats(), &doubles(), &scores, &mask, &o, &mut r);
        assert!(t == 1 || t == 3);
    }
}
