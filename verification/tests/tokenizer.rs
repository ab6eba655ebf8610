use needle::sp_tokenizer::{
    piece_byte, SpTokenizer, TokenizerError, HDR_BYTES, TK_BYTE, TK_CONTROL, TK_NORMAL, TK_UNKNOWN,
    TK_USER_DEFINED,
};
use needle::stream::{incremental_piece, Stream};

fn blob(
    pieces: &[(&str, f32, u8)],
    add_dummy: bool,
    byte_fallback: bool,
    specials: (u32, u32, u32, u32),
) -> Vec<u8> {
    let mut out = Vec::new();
    out.extend_from_slice(&(pieces.len() as u32).to_le_bytes());
    for v in [specials.0, specials.1, specials.2, specials.3] {
        out.extend_from_slice(&v.to_le_bytes());
    }
    out.push(u8::from(add_dummy));
    out.push(u8::from(byte_fallback));
    out.extend_from_slice(&0u16.to_le_bytes());
    assert_eq!(out.len(), HDR_BYTES);
    for (surface, score, ty) in pieces {
        out.extend_from_slice(&score.to_le_bytes());
        out.push(*ty);
        let b = surface.as_bytes();
        out.extend_from_slice(&(b.len() as u16).to_le_bytes());
        out.extend_from_slice(b);
    }
    out
}
fn toy() -> SpTokenizer {
    let mut p: Vec<(&str, f32, u8)> = vec![
        ("<pad>", 0.0, TK_CONTROL),
        ("</s>", 0.0, TK_CONTROL),
        ("<s>", 0.0, TK_CONTROL),
        ("<unk>", 0.0, TK_UNKNOWN),
        ("<tool_call>", 0.0, TK_USER_DEFINED),
        ("<tool>", 0.0, TK_USER_DEFINED),
        ("\u{2581}", -1.0, TK_NORMAL),
        ("a", -2.0, TK_NORMAL),
        ("b", -3.0, TK_NORMAL),
        ("c", -4.0, TK_NORMAL),
        ("ab", -0.5, TK_NORMAL),
        ("abc", -0.25, TK_NORMAL),
        ("\u{2581}a", -0.75, TK_NORMAL),
    ];
    // Byte pieces for the whole range, so byte_fallback always resolves.
    let hex: Vec<String> = (0..256).map(|b| format!("<0x{b:02X}>")).collect();
    let leaked: Vec<&'static str> =
        hex.into_iter().map(|s| Box::leak(s.into_boxed_str()) as &'static str).collect();
    for s in &leaked {
        p.push((s, -50.0, TK_BYTE));
    }
    SpTokenizer::from_blob(&blob(&p, true, true, (0, 1, 2, 3))).unwrap()
}

#[test]
fn parses_header_and_pieces() {
    let t = toy();
    assert_eq!(t.pad_id, 0);
    assert_eq!(t.eos_id, 1);
    assert_eq!(t.bos_id, 2);
    assert_eq!(t.unk_id, 3);
    assert!(t.add_dummy_prefix);
    assert!(t.byte_fallback);
    assert_eq!(t.vocab_size(), 13 + 256);
    assert_eq!(t.piece(4), Some("<tool_call>"));
    assert_eq!(t.piece_type(4), Some(TK_USER_DEFINED));
    assert_eq!(t.id_of("abc"), Some(11));
}

#[test]
fn markers_are_longest_first() {
    let t = toy();
    // `<tool_call>` must be tried before `<tool>`, or "<tool_call>" would
    // tokenize as `<tool>` + "_call>".
    assert_eq!(t.markers[0].0, "<tool_call>");
    assert_eq!(t.encode("<tool_call>"), vec![6, 4]);
}

#[test]
fn dummy_prefix_and_space_escaping() {
    let t = toy();
    // "a" -> dummy prefix + "a" -> the merge "▁a" wins (-0.75 > -1, -2).
    assert_eq!(t.encode("a"), vec![12]);
    // "b" has no merge with the prefix, so both stand alone.
    assert_eq!(t.encode("b"), vec![6, 8]);
}

#[test]
fn greedy_merge_picks_highest_score() {
    let t = toy();
    // "abc": "abc" is not a *pair*, so merging is ab (-0.5) then ab+c,
    // which is the piece "abc" (-0.25) -> a single id.
    assert_eq!(t.encode("abc"), vec![6, 11]);
}

#[test]
fn byte_fallback_for_out_of_vocabulary() {
    let t = toy();
    // 'z' is not a piece; byte fallback emits its UTF-8 byte piece.
    let ids = t.encode("z");
    let z = t.id_of("<0x7A>").unwrap();
    assert_eq!(ids, vec![6, z]);
    // Multi-byte characters fall back per byte.
    let ids = t.encode("\u{20AC}"); // euro sign, 3 bytes
    assert_eq!(ids.len(), 4);
    assert_eq!(ids[1..], [t.id_of("<0xE2>").unwrap(), t.id_of("<0x82>").unwrap(), t.id_of("<0xAC>").unwrap()]);
}

#[test]
fn decode_round_trips_and_strips_dummy_prefix() {
    let t = toy();
    for s in ["a", "ab", "abc", "a b", "z", "\u{20AC}", "abc abc"] {
        assert_eq!(t.decode(&t.encode(s)), s, "round trip {s:?}");
    }
}

#[test]
fn decode_drops_control_and_unknown() {
    let t = toy();
    let ids = vec![t.bos_id, 6, 11, t.eos_id, t.unk_id];
    assert_eq!(t.decode(&ids), "abc");
}

#[test]
fn empty_input_yields_no_tokens() {
    assert!(toy().encode("").is_empty());
    assert_eq!(toy().decode(&[]), "");
}
#[test]
fn token_bytes_agree_with_single_token_decode() {
    let t = toy();
    let table = t.token_bytes();
    assert_eq!(table.len(), t.vocab_size());
    for id in 0..t.vocab_size() as u32 {
        let decoded = t.decode(&[id]);
        let from_table = String::from_utf8_lossy(&table[id as usize]).to_string();
        match t.piece_type(id) {
            Some(TK_CONTROL) | Some(TK_UNKNOWN) => {
                assert!(table[id as usize].is_empty(), "id {id} should contribute nothing");
            }
            Some(TK_BYTE) => {
                assert_eq!(table[id as usize].len(), 1, "id {id} is one raw byte");
            }
            _ => {
                // decode() strips a leading dummy-prefix space; the table
                // deliberately does not, so compare with that allowance.
                assert!(
                    from_table == decoded || from_table == format!(" {decoded}"),
                    "id {id}: table {from_table:?} vs decode {decoded:?}"
                );
            }
        }
    }
}

#[test]
fn rejects_malformed_blobs() {
    let good = blob(&[("a", 0.0, TK_NORMAL)], true, false, (0, 0, 0, 0));
    assert!(matches!(
        SpTokenizer::from_blob(&good[..10]),
        Err(TokenizerError::Truncated { .. })
    ));
    assert!(matches!(
        SpTokenizer::from_blob(&good[..good.len() - 1]),
        Err(TokenizerError::Truncated { .. })
    ));
    let empty = blob(&[], true, false, (0, 0, 0, 0));
    assert_eq!(SpTokenizer::from_blob(&empty).err(), Some(TokenizerError::Empty));

    // A special id past the end of the piece table.
    let bad_special = blob(&[("a", 0.0, TK_NORMAL)], true, false, (0, 9, 0, 0));
    assert_eq!(
        SpTokenizer::from_blob(&bad_special).err(),
        Some(TokenizerError::SpecialIdOutOfRange { name: "eos", id: 9, n_pieces: 1 })
    );

    // A byte piece that is not <0xNN>.
    let bad_byte = blob(&[("nope", 0.0, TK_BYTE)], true, false, (0, 0, 0, 0));
    assert_eq!(
        SpTokenizer::from_blob(&bad_byte).err(),
        Some(TokenizerError::MalformedBytePiece { piece: 0 })
    );

    // Non-UTF-8 surface bytes.
    let mut bad_utf8 = blob(&[("a", 0.0, TK_NORMAL)], true, false, (0, 0, 0, 0));
    let last = bad_utf8.len() - 1;
    bad_utf8[last] = 0xFF;
    assert_eq!(
        SpTokenizer::from_blob(&bad_utf8).err(),
        Some(TokenizerError::InvalidUtf8 { piece: 0 })
    );
}

#[test]
fn encoded_ids_are_in_the_table() {
    let t = toy();
    for s in ["abc", "<tool_call>a<tool>b", "\u{1F600} z", "a  b", "\u{2581}"] {
        assert!(t.encode(s).iter().all(|id| (*id as usize) < t.vocab_size()), "{s:?}");
    }
}

#[test]
fn markers_stand_for_themselves() {
    let t = toy();
    assert_eq!(t.encode("a<tool>b"), vec![12, 5, 8]);
    assert_eq!(t.decode(&[12, 5, 8]), "a<tool>b");
    assert!(!t.has_empty_marker());
}

fn byte_ids(t: &SpTokenizer, bytes: &[u8]) -> Vec<u32> {
    bytes.iter().map(|b| t.id_of(&format!("<0x{b:02X}>")).unwrap()).collect()
}

fn streamed(t: &SpTokenizer, ids: &[u32]) -> Vec<(u32, String)> {
    let mut s = Stream::new();
    let mut all = Vec::new();
    for n in 1..=ids.len() {
        all.extend(s.push(t, &ids[..n]).into_iter().map(|d| (d.id, d.piece)));
    }
    all.extend(s.close(t, ids).into_iter().map(|d| (d.id, d.piece)));
    all
}

#[test]
fn pieces_spell_what_they_add() {
    let t = toy();
    let ids = t.encode("abc \u{20AC}");
    let mut text = String::new();
    for n in 1..=ids.len() {
        text.push_str(&incremental_piece(&t, &ids[..n], n == ids.len()));
    }
    assert_eq!(text, "abc \u{20AC}");
}

#[test]
fn streams_hold_back_what_is_not_yet_a_character() {
    let t = toy();
    let ids = byte_ids(&t, "a\u{20AC}b".as_bytes());
    let pieces: Vec<String> = streamed(&t, &ids).into_iter().map(|d| d.1).collect();
    assert_eq!(pieces, ["a", "", "", "\u{20AC}", "b"]);

    let mut s = Stream::new();
    assert_eq!(s.push(&t, &ids[..1]).len(), 1);
    assert_eq!(s.push(&t, &ids[..2]).len(), 0);
    assert_eq!(s.push(&t, &ids[..3]).len(), 1);
    let last = s.close(&t, &ids[..3]).unwrap();
    assert_eq!((last.id, last.piece.as_str()), (ids[2], "\u{FFFD}"));
}

#[test]
fn streams_spell_any_bytes() {
    let t = toy();
    let mut seed: u64 = 7;
    let mut next = move || {
        seed = seed.wrapping_mul(6364136223846793005).wrapping_add(1442695040888963407);
        (seed >> 33) as usize
    };
    let pool: [u8; 16] = [
        0x41, 0x20, 0x80, 0xBF, 0xC2, 0xC0, 0xE2, 0x82, 0xAC, 0xED, 0xA0, 0xF0, 0x9F, 0x98, 0xF5,
        0xFF,
    ];
    for len in 0..200 {
        let bytes: Vec<u8> = (0..len % 12).map(|_| pool[next() % pool.len()]).collect();
        let ids = byte_ids(&t, &bytes);
        let text = String::from_utf8_lossy(&bytes).into_owned();
        let want = text.strip_prefix(' ').unwrap_or(&text);
        assert_eq!(t.decode(&ids), want, "{bytes:?}");
        let all = streamed(&t, &ids);
        assert_eq!(all.iter().map(|d| d.0).collect::<Vec<_>>(), ids);
        assert_eq!(all.iter().map(|d| d.1.as_str()).collect::<String>(), want, "{bytes:?}");
    }
}

#[test]
fn byte_pieces_have_their_form() {
    for bad in ["abc41", "<0x+1>", "<0x41", "<0x41>>", "[0x41>", "<0X41>", "<0x4G>", ""] {
        let b = blob(&[(bad, 0.0, TK_BYTE)], true, false, (0, 0, 0, 0));
        assert_eq!(
            SpTokenizer::from_blob(&b).err(),
            Some(TokenizerError::MalformedBytePiece { piece: 0 }),
            "{bad:?}"
        );
    }
    let good = blob(&[("<0x4a>", 0.0, TK_BYTE)], true, false, (0, 0, 0, 0));
    assert_eq!(SpTokenizer::from_blob(&good).unwrap().decode(&[0]), "J");
}

#[test]
fn byte_pieces_are_hexadecimal() {
    assert_eq!(piece_byte(b"<0x7A>"), Some(0x7A));
    assert_eq!(piece_byte(b"<0xfF>"), Some(0xFF));
    assert_eq!(piece_byte(b"<0xG0>"), None);
    assert_eq!(piece_byte(b"nope"), None);
}

#[test]
fn bytes_that_are_no_text_decode_to_replacements() {
    let t = toy();
    let id = t.id_of("<0xFF>").unwrap();
    assert_eq!(t.decode(&[id]), "\u{FFFD}");
}

#[test]
fn errors_have_messages() {
    assert!(TokenizerError::Empty.message().len() > 0);
    assert!(TokenizerError::Truncated { need: 31, got: 10 }.message().contains("31"));
    assert!(TokenizerError::SpecialIdOutOfRange { name: "eos", id: 9, n_pieces: 1 }
        .message()
        .contains("eos"));
}
