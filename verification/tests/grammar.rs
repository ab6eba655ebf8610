use needle::constrained::{ConstrainedDecoder, FORBIDDEN};
use needle::json_machine::{JsonState, JsonStateMachine};
use needle::json_scan::{json_keys_with_object_values, json_top_level_keys};
use needle::tools::{extract_param_keys, parse_tools_json, to_snake_case, ToolDef};
use needle::trie::{check_token_valid, Trie};

fn bias(mask: &[u32], c: char) -> f32 {
    f32::from_bits(mask[c as usize])
}

#[test]
fn unique_arg_keys_excludes_a_written_key() {
    let defs = ToolDef::from_json(
        "[{\"name\":\"t\",\"description\":\"x\",\"parameters\":\
         {\"alpha\":{\"type\":\"string\"},\"beta\":{\"type\":\"string\"}}}]",
    );
    assert_eq!(defs.len(), 1);
    assert_eq!(defs[0].param_keys.len(), 2, "{:?}", defs[0].param_keys);

    // One token per byte value, so a mask entry maps to a character.
    let vocab: Vec<(u32, Vec<u8>)> = (0..128u32).map(|i| (i, vec![i as u8])).collect();
    let vsize = vocab.len();

    let mut dec = ConstrainedDecoder::new(&defs, vocab.clone()).with_unique_arg_keys();
    dec.feed_bytes(b"[{\"name\":\"t\",\"arguments\":{\"");
    let mask = dec.logit_mask(vsize);
    assert_eq!(bias(&mask, 'a'), 0.0, "alpha should be startable");
    assert_eq!(bias(&mask, 'b'), 0.0, "beta should be startable");

    // Finish alpha and its value, then open the next key.
    dec.feed_bytes(b"alpha\":\"x\",\"");
    assert_eq!(dec.used_keys(), ["alpha".to_string()]);
    let mask = dec.logit_mask(vsize);
    assert!(bias(&mask, 'a') < -1.0, "alpha must be excluded once used");
    assert_eq!(bias(&mask, 'b'), 0.0, "beta must remain available");

    // Without the flag the written key stays available, which is v1 behaviour.
    let mut plain = ConstrainedDecoder::new(&defs, vocab);
    plain.feed_bytes(b"[{\"name\":\"t\",\"arguments\":{\"alpha\":\"x\",\"");
    assert_eq!(bias(&plain.logit_mask(vsize), 'a'), 0.0, "v1 permits repeats");
}
#[test]
fn unique_arg_keys_resets_between_calls() {
    let defs = ToolDef::from_json(
        "[{\"name\":\"t\",\"description\":\"x\",\
         \"parameters\":{\"alpha\":{\"type\":\"string\"}}}]",
    );
    let vocab: Vec<(u32, Vec<u8>)> = (0..128u32).map(|i| (i, vec![i as u8])).collect();
    let mut dec = ConstrainedDecoder::new(&defs, vocab).with_unique_arg_keys();
    dec.feed_bytes(b"[{\"name\":\"t\",\"arguments\":{\"alpha\":\"x\"},");
    dec.feed_bytes(b"{\"name\":\"t\",\"arguments\":{\"");
    assert!(dec.used_keys().is_empty(), "a new call clears the used set");
    assert_eq!(
        bias(&dec.logit_mask(128), 'a'),
        0.0,
        "alpha available again"
    );
}

#[test]
fn no_recorded_key_is_empty() {
    let defs = ToolDef::from_json(
        "[{\"name\":\"t\",\"description\":\"x\",\
         \"parameters\":{\"alpha\":{\"type\":\"string\"}}}]",
    );
    let vocab: Vec<(u32, Vec<u8>)> = (0..256u32).map(|i| (i, vec![i as u8])).collect();
    let mut dec = ConstrainedDecoder::new(&defs, vocab).with_unique_arg_keys();
    // An empty key leaves nothing; broken bytes leave their replacement.
    dec.feed_bytes(b"[{\"name\":\"t\",\"arguments\":{\"\":1,\"\xFF\":2,\"a\":3,\"");
    assert_eq!(dec.used_keys(), ["\u{FFFD}".to_string(), "a".to_string()]);
    assert!(dec.used_keys().iter().all(|k| !k.is_empty()));
}

#[test]
fn test_trie_basic() {
    let mut t = Trie::new();
    t.insert(b"get_weather");
    t.insert(b"get_time");

    assert!(check_token_valid(b"get", &t, 0));
    assert!(check_token_valid(b"get_w", &t, 0));
    assert!(check_token_valid(b"get_weather\"", &t, 0));
    // Chars after `"` are structural JSON handled by the state machine — ignored here
    assert!(check_token_valid(b"get_weather\",", &t, 0));
    assert!(!check_token_valid(b"set_", &t, 0));
    assert!(!check_token_valid(b"get_x", &t, 0));
}

#[test]
fn test_state_machine_tool_name() {
    let mut sm = JsonStateMachine::new();
    sm.feed(b"[{\"name\":\"get_weather\",\"arguments\":{}}]");
    assert_eq!(sm.current_function, "get_weather");
}

#[test]
fn test_state_machine_arg_key() {
    let mut sm = JsonStateMachine::new();
    // Feed up to (but not including) the arg key
    sm.feed(b"[{\"name\":\"get_weather\",\"arguments\":{\"");
    assert_eq!(sm.state, JsonState::InArgKey);
    assert!(sm.constrained_buf.is_empty());
}

#[test]
fn test_state_machine_full_sequence() {
    let mut sm = JsonStateMachine::new();
    // Simulate token-by-token feeding
    let output =
        br#"[{"name":"get_weather","arguments":{"location":"Paris","unit":"celsius"}}]"#;
    for &b in output.iter() {
        sm.feed_byte(b);
    }
    assert_eq!(sm.state, JsonState::Free);
    assert_eq!(sm.current_function, "get_weather");
}

#[test]
fn test_parse_tools_flat() {
    let json = r#"[{"name":"get_weather","description":"Get weather","parameters":{"location":{"type":"string"},"unit":{"type":"string"}}}]"#;
    let tools = parse_tools_json(json);
    assert_eq!(tools.len(), 1);
    assert_eq!(tools[0].snake_name, "get_weather");
    assert!(tools[0].param_keys.contains(&"location".to_string()));
    assert!(tools[0].param_keys.contains(&"unit".to_string()));
}

#[test]
fn test_parse_tools_json_schema() {
    let json = r#"[{"name":"get_weather","parameters":{"type":"object","properties":{"location":{"type":"string"},"unit":{"type":"string"}},"required":["location"]}}]"#;
    let tools = parse_tools_json(json);
    assert_eq!(tools.len(), 1);
    assert!(tools[0].param_keys.contains(&"location".to_string()));
    assert!(tools[0].param_keys.contains(&"unit".to_string()));
    // "type", "required" must NOT be in param_keys
    assert!(!tools[0].param_keys.contains(&"type".to_string()));
    assert!(!tools[0].param_keys.contains(&"required".to_string()));
}

#[test]
fn test_constrained_decoder_name_mask() {
    let tools = vec![ToolDef {
        name: "get_weather".to_string(),
        snake_name: "get_weather".to_string(),
        param_keys: vec!["location".to_string(), "unit".to_string()],
    }];
    // token 0 = "get", token 1 = " get", token 2 = "set"
    let token_bytes: Vec<(u32, Vec<u8>)> = vec![
        (0, b"get".to_vec()),
        (1, b" get".to_vec()), // space prefix — invalid (space not in trie)
        (2, b"set".to_vec()),
    ];
    let mut dec = ConstrainedDecoder::new(&tools, token_bytes);

    // Drive state machine into InName by feeding `[{"name":"`
    dec.feed_bytes(b"[{\"name\":\"");
    assert_eq!(dec.state(), JsonState::InName);

    let mask = dec.logit_mask(3);
    assert_eq!(f32::from_bits(mask[0]), 0.0, "\"get\" should be allowed");
    assert!(f32::from_bits(mask[1]) < 0.0, "\" get\" (space-prefixed) should be blocked");
    assert!(f32::from_bits(mask[2]) < 0.0, "\"set\" should be blocked (not in trie)");
}

#[test]
fn a_mask_leaves_a_token_where_the_vocabulary_can_spell_it() {
    let defs = ToolDef::from_json("[{\"name\":\"ping\",\"parameters\":{}}]");
    let vocab: Vec<(u32, Vec<u8>)> = (0..128u32).map(|i| (i, vec![i as u8])).collect();
    let mut dec = ConstrainedDecoder::new(&defs, vocab);
    dec.feed_bytes(b"[{\"name\":\"pin");
    let mask = dec.logit_mask(128);
    assert_eq!(bias(&mask, 'g'), 0.0);
    assert_eq!(mask.iter().filter(|m| **m == FORBIDDEN).count(), 127);
    assert_eq!(f32::from_bits(FORBIDDEN), -1e9);
    dec.feed_bytes(b"g");
    let mask = dec.logit_mask(128);
    assert_eq!(bias(&mask, '"'), 0.0);
}

#[test]
fn a_name_without_a_fitting_token_is_not_masked() {
    let defs = ToolDef::from_json("[{\"name\":\"ping\",\"parameters\":{}}]");
    let vocab: Vec<(u32, Vec<u8>)> = vec![(0, b"x".to_vec()), (1, b"y".to_vec())];
    let mut dec = ConstrainedDecoder::new(&defs, vocab);
    dec.feed_bytes(b"[{\"name\":\"");
    assert_eq!(dec.logit_mask(2), vec![0, 0]);
}

#[test]
fn outside_names_and_keys_nothing_is_masked() {
    let defs = ToolDef::from_json("[{\"name\":\"ping\",\"parameters\":{\"to\":{}}}]");
    let vocab: Vec<(u32, Vec<u8>)> = (0..128u32).map(|i| (i, vec![i as u8])).collect();
    let mut dec = ConstrainedDecoder::new(&defs, vocab);
    assert!(dec.logit_mask(128).iter().all(|m| *m == 0));
    dec.feed_bytes(b"[{\"name\":\"ping\",\"arguments\":{\"to\":\"");
    assert!(dec.logit_mask(128).iter().all(|m| *m == 0));
}

#[test]
fn feeding_in_parts_is_feeding_at_once() {
    let text = br#"[{"name":"a","arguments":{"x":"1","y":[2,{"z":"\""}]}}]"#;
    let mut whole = JsonStateMachine::new();
    whole.feed(text);
    for cut in 0..=text.len() {
        let mut parts = JsonStateMachine::new();
        parts.feed(&text[..cut]);
        parts.feed(&text[cut..]);
        assert_eq!(parts.state, whole.state);
        assert_eq!(parts.current_function, whole.current_function);
        assert_eq!(parts.used_arg_keys, whole.used_arg_keys);
        assert_eq!(parts.nesting_depth, whole.nesting_depth);
    }
}

#[test]
fn names_are_put_in_snake_case() {
    assert_eq!(to_snake_case("getWeather"), "get_weather");
    assert_eq!(to_snake_case("get_weather"), "get_weather");
    let defs = parse_tools_json("[{\"name\":\"getWeather\"}]");
    assert_eq!(defs[0].name, "getWeather");
    assert_eq!(defs[0].snake_name, "get_weather");
}

#[test]
fn a_trie_follows_what_was_inserted() {
    let mut t = Trie::new();
    t.insert(b"ab");
    t.insert(b"ac");
    let a = t.advance(0, b"a").unwrap();
    assert!(!t.is_terminal(a));
    assert!(t.is_terminal(t.advance(a, b"b").unwrap()));
    assert!(t.advance(a, b"d").is_none());
    assert_eq!(t.child(0, b'a'), Some(a));
}

/// Write a span under the mask, with whatever allowed token a generator picks.
fn write_span(dec: &mut ConstrainedDecoder, vocab: &[Vec<u8>], seed: &mut u32) -> Vec<u8> {
    let mut out = Vec::new();
    while dec.state() != JsonState::Free {
        let mask = dec.logit_mask(vocab.len());
        let allowed: Vec<usize> = (0..mask.len()).filter(|i| mask[*i] == 0).collect();
        *seed = seed.wrapping_mul(1664525).wrapping_add(1013904223);
        let id = allowed[(*seed >> 8) as usize % allowed.len()];
        out.extend_from_slice(&vocab[id]);
        dec.update(id as u32);
        assert!(out.len() < 200);
    }
    out
}

#[test]
fn calls_written_under_the_mask_are_declared_ones() {
    let defs = ToolDef::from_json(
        "[{\"name\":\"getWeather\",\"parameters\":{\"city\":{},\"unit\":{},\"days\":{}}},\
         {\"name\":\"get_time\",\"parameters\":{\"zone\":{}}}]",
    );
    let mut vocab: Vec<Vec<u8>> = (0..=255u8).map(|b| vec![b]).collect();
    vocab.extend(["get", "_we", "time", "ther\"", "ci", "zone\"", "x"].map(|s| s.as_bytes().to_vec()));
    let pairs: Vec<(u32, Vec<u8>)> =
        vocab.iter().enumerate().map(|(i, t)| (i as u32, t.clone())).collect();
    let mut seed = 7u32;
    for _ in 0..50 {
        let mut dec = ConstrainedDecoder::new(&defs, pairs.clone()).with_unique_arg_keys();
        dec.feed_bytes(b"[{\"name\":\"");
        let name = write_span(&mut dec, &vocab, &mut seed);
        assert!(name == b"get_weather\"" || name == b"get_time\"", "{name:?}");
        dec.feed_bytes(b",\"arguments\":{\"");
        let mut keys: Vec<Vec<u8>> = Vec::new();
        let all: &[&[u8]] = if name == b"get_time\"" {
            &[b"zone\""]
        } else {
            &[b"city\"", b"unit\"", b"days\""]
        };
        for _ in 0..all.len() {
            let key = write_span(&mut dec, &vocab, &mut seed);
            assert!(all.contains(&&key[..]), "{key:?}");
            assert!(!keys.contains(&key), "{key:?} twice");
            keys.push(key);
            dec.feed_bytes(b":\"v\",\"");
        }
    }
}

#[test]
fn argument_keys_are_those_of_parameters_itself() {
    let nested = r#"{"name":"t","parameters":{"loc":{"type":"object","properties":{"lat":{"type":"number"}}}}}"#;
    assert_eq!(extract_param_keys(nested), ["loc"]);
    let schema = r#"{"name":"t","parameters":{"type":"object","properties":{"a":{"properties":{"x":{}}},"b":{"type":"string"}},"required":["a"]}}"#;
    assert_eq!(extract_param_keys(schema), ["a", "b"]);
    let elsewhere = r#"{"name":"t","meta":{"parameters":{"no":{}}},"parameters":{"yes":{}}}"#;
    assert_eq!(extract_param_keys(elsewhere), ["yes"]);
    assert!(extract_param_keys(r#"{"name":"t"}"#).is_empty());
}

#[test]
fn names_are_those_of_the_tool_itself() {
    let defs = ToolDef::from_json(
        r#"[{"meta":{"name":"inner"},"name":"outer","parameters":{"name":{"type":"string"}}},{"meta":{"name":"lost"}}]"#,
    );
    assert_eq!(defs.len(), 1);
    assert_eq!(defs[0].name, "outer");
    assert_eq!(defs[0].param_keys, ["name"]);
}

#[test]
fn tools_may_be_wrapped_as_functions() {
    let defs = ToolDef::from_json(
        r#"[{"type":"function","function":{"name":"getTime","parameters":{"type":"object","properties":{"zone":{"type":"string"}}}}}]"#,
    );
    assert_eq!(defs.len(), 1);
    assert_eq!(defs[0].name, "getTime");
    assert_eq!(defs[0].snake_name, "get_time");
    assert_eq!(defs[0].param_keys, ["zone"]);
}

#[test]
fn spaces_between_members_do_not_matter() {
    let defs = ToolDef::from_json("[ { \"name\" : \"t\",\n \"parameters\" : { \"k\" : { } } } ]");
    assert_eq!(defs.len(), 1);
    assert_eq!(defs[0].name, "t");
    assert_eq!(defs[0].param_keys, ["k"]);
}

#[test]
fn object_valued_keys_are_some_of_the_keys() {
    let obj = r#"{"type":"object","loc":{"type":"string"},"req":[{"k":{}}],"u":{}}"#;
    assert_eq!(json_top_level_keys(obj), ["type", "loc", "req", "u"]);
    assert_eq!(json_keys_with_object_values(obj), ["loc", "u"]);
}

#[test]
fn inserting_keeps_nodes_where_they_are() {
    let mut t = Trie::new();
    t.insert(b"get");
    let nodes: Vec<Option<usize>> =
        (0..=3).map(|n| t.advance(0, &b"get"[..n])).collect();
    t.insert(b"gone");
    t.insert(b"ge");
    assert_eq!((0..=3).map(|n| t.advance(0, &b"get"[..n])).collect::<Vec<_>>(), nodes);
    let count = t.len();
    t.insert(b"gone");
    assert_eq!(t.len(), count);
    for (w, word) in [("g", false), ("ge", true), ("get", true), ("gone", true), ("gon", false)] {
        assert_eq!(t.is_terminal(t.advance(0, w.as_bytes()).unwrap()), word, "{w}");
    }
}

#[test]
fn spans_and_keys_change_where_they_should() {
    let mut m = JsonStateMachine::new();
    let text: &[u8] = br#"[{"name":"f","arguments":{"a":"x","":1,"b":{"c":2}}},{"name":"g","#;
    let mut functions = 0;
    for &b in text {
        let before = m.current_function.clone();
        let was = m.state.clone();
        m.feed_byte(b);
        if m.state == JsonState::Free {
            assert!(m.constrained_buf.is_empty());
        }
        assert!(!m.constrained_buf.contains(&b'"'));
        if m.current_function != before {
            assert!(was == JsonState::InName && b == b'"');
            functions += 1;
        }
        assert!(m.used_arg_keys.iter().all(|k| !k.is_empty()));
    }
    assert_eq!(functions, 2);
    assert!(m.used_arg_keys.is_empty());
}
