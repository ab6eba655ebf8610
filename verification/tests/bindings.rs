use needle::bands::{band_len, bands_of, join_rows, should_parallelise, split, Band, Split};
use needle::bindings::{binding_options, LastError};
use needle::cli::{parse_args, parse_number, Opts, Parsed, Version, USAGE};
use needle::numerals::{push_decimal, push_hex};
use needle::retrieval::{descriptions, listed_or_none, rank, ranking_json, RankStyle};

fn parsed(args: &[&str]) -> Parsed {
    let raw: Vec<String> = args.iter().map(|a| a.to_string()).collect();
    let numbers: Vec<Option<u32>> =
        raw.iter().map(|a| a.parse::<f32>().ok().map(f32::to_bits)).collect();
    parse_args(&raw, &numbers)
}

fn run(args: &[&str]) -> Opts {
    match parsed(args) {
        Parsed::Run(o) => o,
        other => panic!("{other:?}"),
    }
}

fn failed(args: &[&str]) -> String {
    match parsed(args) {
        Parsed::Fail(m) => m,
        other => panic!("{other:?}"),
    }
}

#[test]
fn flags_and_values_are_read_in_any_order() {
    let o = run(&[
        "--stream", "m.cact", "--max-tokens", "64", "q", "--temperature", "0.5", "--seed", "9", "[]",
        "--json", "--constrain", "--prefill-chunk", "0", "--system", "be brief",
    ]);
    assert!(o.stream && o.json_only && o.constrain);
    assert_eq!(o.max_tokens, Some(64));
    assert_eq!(o.temperature, Some(0.5f32.to_bits()));
    assert_eq!(o.seed, Some(9));
    assert_eq!(o.prefill_chunk, Some(0));
    assert_eq!(o.system.as_deref(), Some("be brief"));
    assert_eq!(o.positional, ["m.cact", "q", "[]"]);
    assert_eq!(o.version(), Ok(Version::V2));
    let g = o.generate_options();
    assert_eq!((g.max_new_tokens, g.seed, g.prefill_chunk), (64, 9, 0));
    assert_eq!(g.system.as_deref(), Some("be brief"));
}

#[test]
fn what_is_not_given_has_a_default() {
    let g = run(&["m.cact", "q", "[]"]).generate_options();
    assert_eq!((g.max_new_tokens, g.temperature, g.seed, g.prefill_chunk), (128, 0, 0, 128));
    assert!(g.system.is_none() && !g.constrain);
}

#[test]
fn mistakes_on_the_command_line_are_told() {
    assert_eq!(failed(&["--seed"]), format!("--seed needs a value\n\n{USAGE}"));
    assert_eq!(failed(&["--seed", "x"]), "--seed must be an integer");
    assert_eq!(failed(&["--max-tokens", "-1"]), "--max-tokens must be an integer");
    assert_eq!(failed(&["--prefill-chunk", ""]), "--prefill-chunk must be an integer");
    assert_eq!(failed(&["--temperature", "warm"]), "--temperature must be a number");
    assert_eq!(failed(&["--what"]), format!("Unknown option: --what\n\n{USAGE}"));
    assert!(matches!(parsed(&["--help"]), Parsed::Help));
    assert!(matches!(parsed(&["a", "-h"]), Parsed::Help));
    assert_eq!(run(&[]).version(), Err(USAGE.to_string()));
    assert!(run(&["m.cact", "q"]).version().unwrap_err().starts_with("a .cact model takes"));
    assert!(run(&["w", "v", "q"]).version().unwrap_err().starts_with("v1 .safetensors"));
    assert_eq!(
        run(&["w", "v", "q", "[]", "--seed", "1"]).version(),
        Err("--seed is v2 only; w is a v1 model".to_string())
    );
    assert_eq!(run(&["w", "v", "q", "[]"]).version(), Ok(Version::V1));
}

#[test]
fn numbers_are_read_like_integers() {
    for s in ["0", "+7", "18446744073709551615", "18446744073709551616", "", "+", "-1", "1 ", "a"] {
        assert_eq!(parse_number(s, u64::MAX), s.parse::<u64>().ok(), "{s:?}");
    }
    assert_eq!(parse_number("300", 255), None);
}

#[test]
fn numerals_are_written_as_they_are_formatted() {
    for n in [0u128, 7, 10, 999, u64::MAX as u128, u128::MAX] {
        let mut s = String::new();
        push_decimal(&mut s, n);
        assert_eq!(s, n.to_string());
    }
    let mut s = String::new();
    push_hex(&mut s, 0x5e12a83, 8);
    assert_eq!(s.to_lowercase(), "05e12a83");
}

#[test]
fn a_json_list_of_strings_is_read() {
    assert_eq!(descriptions("[\"a\", \"b\\n\"]"), ["a", "b\n"]);
    assert!(descriptions("[1]").is_empty());
    assert!(descriptions("{").is_empty());
    assert!(listed_or_none(None).is_empty());
    assert_eq!(listed_or_none(Some(vec!["x".to_string()])), ["x"]);
}

#[test]
fn rankings_are_by_score_and_then_by_index() {
    let s = |x: f32| Some(x.to_bits());
    let scores = [s(0.5), None, s(2.0), s(0.5), s(-1.0)];
    let got: Vec<usize> = rank(&scores, 10).iter().map(|r| r.0).collect();
    assert_eq!(got, [2, 0, 3, 4]);
    let got: Vec<usize> = rank(&scores, 2).iter().map(|r| r.0).collect();
    assert_eq!(got, [2, 0]);
    assert!(rank(&scores, 0).is_empty());
    let got: Vec<usize> = rank(&[s(0.0), s(-0.0), s(f32::NAN)], 9).iter().map(|r| r.0).collect();
    assert_eq!(got, [2, 0, 1]);
}

#[test]
fn rankings_are_written_as_json() {
    let r = [(3usize, "0.5".to_string()), (10, "-1".to_string())];
    assert_eq!(ranking_json(RankStyle::Pairs, &r), "[[3,0.5],[10,-1]]");
    assert_eq!(
        ranking_json(RankStyle::Objects, &r),
        "[{\"index\":3,\"score\":0.5},{\"index\":10,\"score\":-1}]"
    );
    assert_eq!(ranking_json(RankStyle::Pairs, &[]), "[]");
}

#[test]
fn the_last_error_is_kept_and_cleared() {
    let mut e = LastError::new();
    assert!(e.message.is_none());
    e.set_last_error("bad");
    assert_eq!(e.message.as_deref(), Some("bad"));
    e.set_last_error("a\0b");
    assert_eq!(e.message.as_deref(), Some("(error message contained null byte)"));
    e.clear_last_error();
    assert!(e.message.is_none());
    assert_eq!(e.out_string("fine".to_string()).as_deref(), Some("fine"));
    assert!(e.message.is_none());
    assert!(e.out_string("a\0".to_string()).is_none());
    assert_eq!(e.message.as_deref(), Some("result contained a null byte"));
    assert!(e.embedding_fits(4, 4));
    assert!(!e.embedding_fits(128, 64));
    assert_eq!(e.message.as_deref(), Some("out too small: need 128, got 64"));
    e.bad_description(7);
    assert_eq!(e.message.as_deref(), Some("description 7 is null or not UTF-8"));
}

#[test]
fn settings_of_bindings_are_brought_into_range() {
    let o = binding_options(0, (-1.0f32).to_bits(), 5, true);
    assert_eq!((o.max_new_tokens, o.temperature, o.seed, o.constrain), (128, 0, 5, true));
    let o = binding_options(9, 0.7f32.to_bits(), 0, false);
    assert_eq!((o.max_new_tokens, o.temperature), (9, 0.7f32.to_bits()));
    assert_eq!(binding_options(1, f32::NAN.to_bits(), 0, false).temperature, 0);
}

#[test]
fn bands_cut_work_into_shares() {
    assert_eq!(band_len(100, 8, 16), 16);
    assert_eq!(band_len(1000, 8, 16), 125);
    let bands = bands_of(100, 32);
    assert_eq!(bands.len(), 4);
    assert_eq!(bands[3], Band { start: 96, len: 4 });
    assert!(bands_of(0, 8).is_empty());
    let parts = vec![vec![1, 2, 5, 6], vec![3, 7]];
    let bands = bands_of(3, 2);
    assert_eq!(join_rows(&parts, &bands, 2, 2, 3), vec![1, 2, 3, 5, 6, 7]);
}

#[test]
fn only_large_products_are_split() {
    assert_eq!(split(8, 1, 512), Split::Serial);
    assert_eq!(split(8192, 128, 512), Split::Rows);
    assert_eq!(split(4, 4096, 2048), Split::Batch);
    assert!(should_parallelise(8192, 512));
    assert!(!should_parallelise(512, 512));
    assert_eq!(split(usize::MAX, usize::MAX, 2), Split::Rows);
}
