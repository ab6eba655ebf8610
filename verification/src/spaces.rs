//! The visible space that stands for a space inside pieces.

use crate::text::{lemma_encode_injective, slice_str, string_from_utf8};
use vstd::prelude::*;
use vstd::string::*;
use vstd::utf8::*;

verus! {

/// The visible space, U+2581.
pub const META_SPACE: &'static str = "\u{2581}";

/// The visible space as a character.
pub open spec fn meta_char() -> char {
    '\u{2581}'
}

/// The UTF-8 bytes of the visible space.
pub open spec fn meta_bytes() -> Seq<u8> {
    seq![0xE2u8, 0x96u8, 0x81u8]
}

/// Every space made visible.
pub open spec fn escape_chars(s: Seq<char>) -> Seq<char> {
    s.map_values(
        |c: char|
            if c == ' ' {
                meta_char()
            } else {
                c
            },
    )
}

/// Every visible space made a space.
pub open spec fn unescape_chars(s: Seq<char>) -> Seq<char> {
    s.map_values(
        |c: char|
            if c == meta_char() {
                ' '
            } else {
                c
            },
    )
}

/// Making spaces visible and back again gives back any text that held no
/// visible space itself.
pub proof fn law_unescape_undoes_escape(s: Seq<char>)
    requires
        !s.contains(meta_char()),
    ensures
        unescape_chars(escape_chars(s)) == s,
{
    assert forall|i: int| 0 <= i < s.len() implies unescape_chars(escape_chars(s))[i] == s[i] by {
        assert(s.contains(s[i]));
    }
    assert(unescape_chars(escape_chars(s)) =~= s);
}

spec fn escape_bytes(s: Seq<u8>) -> Seq<u8>
    decreases s.len(),
{
    if s.len() == 0 {
        Seq::empty()
    } else if s[0] == 0x20 {
        meta_bytes() + escape_bytes(s.skip(1))
    } else {
        seq![s[0]] + escape_bytes(s.skip(1))
    }
}

/// The text of `bytes` with every visible space made a space, byte by byte.
pub open spec fn unescape_bytes(s: Seq<u8>) -> Seq<u8>
    decreases s.len(),
{
    if s.len() == 0 {
        Seq::empty()
    } else if s.len() >= 3 && s[0] == 0xE2 && s[1] == 0x96 && s[2] == 0x81 {
        seq![0x20u8] + unescape_bytes(s.skip(3))
    } else {
        seq![s[0]] + unescape_bytes(s.skip(1))
    }
}

/// The encoding of the visible space.
pub proof fn lemma_meta_encoding()
    ensures
        encode_scalar(0x2581) == meta_bytes(),
        encode_utf8(seq![meta_char()]) == meta_bytes(),
        encode_scalar(0x20) == seq![0x20u8],
{
    let c: u32 = 0x2581;
    assert(leading_byte_width_3(c) == 0xE2u8 && second_last_continuation_byte(c) == 0x96u8
        && last_continuation_byte(c) == 0x81u8) by {
        assert(leading_byte_width_3(0x2581) == 0xE2u8) by (bit_vector);
        assert(second_last_continuation_byte(0x2581) == 0x96u8) by (bit_vector);
        assert(last_continuation_byte(0x2581) == 0x81u8) by (bit_vector);
    }
    assert(leading_byte_width_1(0x20) == 0x20u8) by (bit_vector);
    let s = seq![meta_char()];
    assert(s.drop_first().len() == 0);
    assert(encode_utf8(s.drop_first()) =~= Seq::<u8>::empty());
    assert(encode_utf8(s) =~= meta_bytes());
}

proof fn lemma_char_eq(a: char, b: char)
    requires
        a as u32 == b as u32,
    ensures
        a == b,
{
    char_u32_cast(a, a as u32);
    char_u32_cast(b, b as u32);
}

/// The bytes of the first character of a text.
proof fn lemma_first_char(cs: Seq<char>)
    requires
        cs.len() > 0,
    ensures
        ({
            let b = encode_utf8(cs);
            let n = encode_scalar(cs[0] as u32).len();
            &&& 1 <= n <= 4
            &&& n <= b.len()
            &&& b.take(n as int) == encode_scalar(cs[0] as u32)
            &&& b.skip(n as int) == encode_utf8(cs.drop_first())
            &&& n == 1 ==> b[0] < 0x80 && b[0] == cs[0] as u32
            &&& n == 2 ==> 0xC0 <= b[0] < 0xE0
            &&& n == 3 ==> 0xE0 <= b[0] < 0xF0
            &&& n == 4 ==> 0xF0 <= b[0]
            &&& forall|i: int| 1 <= i < n ==> 0x80 <= #[trigger] b[i] < 0xC0
        }),
{
    let b = encode_utf8(cs);
    encode_utf8_first_scalar(cs);
    let n = encode_scalar(cs[0] as u32).len() as int;
    assert(b.take(n) =~= encode_scalar(cs[0] as u32));
    assert(b.skip(n) =~= encode_utf8(cs.drop_first()));
    if n == 1 {
        let x = b[0];
        assert(x < 0x80 ==> x & 0x7F == x) by (bit_vector);
    }
}

proof fn lemma_escape_high(s: Seq<u8>, n: int)
    requires
        0 <= n <= s.len(),
        forall|i: int| 0 <= i < n ==> s[i] != 0x20,
    ensures
        escape_bytes(s) == s.take(n) + escape_bytes(s.skip(n)),
    decreases n,
{
    if n == 0 {
        assert(s.skip(0) =~= s);
        assert(s.take(0) + escape_bytes(s) =~= escape_bytes(s));
    } else {
        lemma_escape_high(s.skip(1), n - 1);
        assert(s.skip(1).skip(n - 1) =~= s.skip(n));
        assert(escape_bytes(s) =~= s.take(n) + escape_bytes(s.skip(n)));
    }
}

proof fn lemma_escape_encoding(cs: Seq<char>)
    ensures
        escape_bytes(encode_utf8(cs)) == encode_utf8(escape_chars(cs)),
    decreases cs.len(),
{
    if cs.len() > 0 {
        let rest = cs.drop_first();
        let b = encode_utf8(cs);
        lemma_escape_encoding(rest);
        lemma_first_char(cs);
        lemma_meta_encoding();
        assert(escape_chars(cs).drop_first() =~= escape_chars(rest));
        let n = encode_scalar(cs[0] as u32).len() as int;
        if cs[0] == ' ' {
            assert(b.skip(1) == encode_utf8(rest));
            assert(b[0] == 0x20);
        } else {
            assert forall|i: int| 0 <= i < n implies b[i] != 0x20 by {
                if i == 0 && n == 1 {
                    if cs[0] as u32 == 0x20 {
                        lemma_char_eq(cs[0], ' ');
                    }
                }
            }
            lemma_escape_high(b, n);
        }
    }
}

proof fn lemma_unescape_copy(s: Seq<u8>, n: int)
    requires
        1 <= n <= s.len(),
        !(s.len() >= 3 && s[0] == 0xE2 && s[1] == 0x96 && s[2] == 0x81),
        forall|i: int| 1 <= i < n ==> 0x80 <= #[trigger] s[i] < 0xC0,
    ensures
        unescape_bytes(s) == s.take(n) + unescape_bytes(s.skip(n)),
    decreases n,
{
    if n == 1 {
        assert(s.take(1) =~= seq![s[0]]);
    } else {
        let t = s.skip(1);
        assert(t[0] == s[1]);
        assert forall|i: int| 1 <= i < n - 1 implies 0x80 <= #[trigger] t[i] < 0xC0 by {
            assert(t[i] == s[i + 1]);
        }
        lemma_unescape_copy(t, n - 1);
        assert(t.skip(n - 1) =~= s.skip(n));
        assert(unescape_bytes(s) =~= s.take(n) + unescape_bytes(s.skip(n)));
    }
}

/// On the encoding of a text, replacing bytes is replacing characters.
pub proof fn lemma_unescape_encoding(cs: Seq<char>)
    ensures
        unescape_bytes(encode_utf8(cs)) == encode_utf8(unescape_chars(cs)),
    decreases cs.len(),
{
    if cs.len() > 0 {
        let rest = cs.drop_first();
        let b = encode_utf8(cs);
        lemma_unescape_encoding(rest);
        lemma_first_char(cs);
        lemma_meta_encoding();
        assert(unescape_chars(cs).drop_first() =~= unescape_chars(rest));
        let n = encode_scalar(cs[0] as u32).len() as int;
        if cs[0] == meta_char() {
            assert(b.take(3) == meta_bytes());
            assert(b[0] == b.take(3)[0] && b[1] == b.take(3)[1] && b[2] == b.take(3)[2]);
            assert(b.skip(3) == encode_utf8(rest));
        } else {
            if b.len() >= 3 && b[0] == 0xE2 && b[1] == 0x96 && b[2] == 0x81 {
                assert(n == 3);
                assert(b.take(3) =~= meta_bytes());
                encode_utf8_first_scalar(cs);
                encode_utf8_first_scalar(seq![meta_char()]);
                lemma_char_eq(cs[0], meta_char());
            }
            lemma_unescape_copy(b, n);
        }
    }
}

/// `text` with its spaces made visible, as UTF-8, behind `prefix`.
pub fn escape_spaces(text: &str, dummy_prefix: bool) -> (out: Vec<u8>)
    ensures
        out@ == encode_utf8(
            if dummy_prefix {
                seq![meta_char()] + escape_chars(text@)
            } else {
                escape_chars(text@)
            },
        ),
{
    let bytes = text.as_bytes();
    let mut out: Vec<u8> = Vec::new();
    if dummy_prefix {
        out.push(0xE2);
        out.push(0x96);
        out.push(0x81);
    }
    let ghost head = out@;
    proof {
        assert(bytes@.skip(0) =~= bytes@);
        lemma_escape_encoding(text@);
        lemma_meta_encoding();
        if dummy_prefix {
            let full = seq![meta_char()] + escape_chars(text@);
            assert(full.drop_first() =~= escape_chars(text@));
            assert(head =~= meta_bytes());
            assert(full[0] as u32 == 0x2581);
        } else {
            assert(head + escape_bytes(bytes@) =~= escape_bytes(bytes@));
        }
    }
    let mut i: usize = 0;
    while i < bytes.len()
        invariant
            i <= bytes@.len(),
            head + escape_bytes(bytes@) == out@ + escape_bytes(bytes@.skip(i as int)),
        decreases bytes@.len() - i,
    {
        let ghost before = out@;
        let ghost rest = escape_bytes(bytes@.skip(i + 1));
        proof {
            assert(bytes@.skip(i as int).skip(1) =~= bytes@.skip(i + 1));
        }
        if bytes[i] == 0x20 {
            out.push(0xE2);
            out.push(0x96);
            out.push(0x81);
            assert(before + (meta_bytes() + rest) =~= out@ + rest);
        } else {
            out.push(bytes[i]);
            assert(before + (seq![bytes@[i as int]] + rest) =~= out@ + rest);
        }
        i = i + 1;
    }
    proof {
        assert(out@ + escape_bytes(bytes@.skip(i as int)) =~= out@);
    }
    out
}

/// `bytes` with every visible space made a space.
pub fn unescape_spaces(bytes: &[u8]) -> (out: Vec<u8>)
    ensures
        out@ == unescape_bytes(bytes@),
{
    let mut out: Vec<u8> = Vec::new();
    let n: usize = bytes.len();
    let mut i: usize = 0;
    proof {
        assert(bytes@.skip(0) =~= bytes@);
        assert(out@ + unescape_bytes(bytes@) =~= unescape_bytes(bytes@));
    }
    while i < n
        invariant
            i <= n,
            n == bytes@.len(),
            unescape_bytes(bytes@) == out@ + unescape_bytes(bytes@.skip(i as int)),
        decreases n - i,
    {
        let ghost before = out@;
        let ghost here = bytes@.skip(i as int);
        if n - i >= 3 && bytes[i] == 0xE2 && bytes[i + 1] == 0x96 && bytes[i + 2] == 0x81 {
            out.push(0x20);
            proof {
                assert(here.skip(3) =~= bytes@.skip(i + 3));
                let rest = unescape_bytes(bytes@.skip(i + 3));
                assert(before + (seq![0x20u8] + rest) =~= out@ + rest);
            }
            i = i + 3;
        } else {
            out.push(bytes[i]);
            proof {
                assert(here.skip(1) =~= bytes@.skip(i + 1));
                let rest = unescape_bytes(bytes@.skip(i + 1));
                assert(before + (seq![bytes@[i as int]] + rest) =~= out@ + rest);
            }
            i = i + 1;
        }
    }
    proof {
        assert(out@ + unescape_bytes(bytes@.skip(i as int)) =~= out@);
    }
    out
}

/// `text` with every visible space made a space.
pub fn unescape_text(text: &str) -> (r: String)
    ensures
        r@ == unescape_chars(text@),
{
    let out = unescape_spaces(text.as_bytes());
    proof {
        lemma_unescape_encoding(text@);
        encode_utf8_valid_utf8(unescape_chars(text@));
    }
    match string_from_utf8(out) {
        Some(r) => {
            proof {
                lemma_encode_injective(r@, unescape_chars(text@));
            }
            r
        },
        None => String::new(),
    }
}

/// `text` without one leading space.
pub open spec fn strip_space(text: Seq<char>) -> Seq<char> {
    if text.len() > 0 && text[0] == ' ' {
        text.drop_first()
    } else {
        text
    }
}

/// `text` without one leading space.
pub fn strip_leading_space(text: String) -> (r: String)
    ensures
        r@ == strip_space(text@),
{
    let bytes = text.as_str().as_bytes();
    if bytes.len() > 0 && bytes[0] == 0x20 {
        proof {
            assert(text@.len() > 0);
            lemma_first_char(text@);
            encode_utf8_valid_utf8(text@);
            crate::text::lemma_ascii_boundary(bytes@, bytes@.len() as int);
            crate::text::lemma_after_ascii_boundary(bytes@, 0);
            lemma_char_eq(text@[0], ' ');
        }
        let r = slice_str(text.as_str(), 1, bytes.len()).to_owned();
        proof {
            assert(bytes@.subrange(1, bytes@.len() as int) =~= bytes@.skip(1));
            lemma_encode_injective(r@, text@.drop_first());
        }
        r
    } else {
        proof {
            if text@.len() > 0 && text@[0] == ' ' {
                lemma_first_char(text@);
                lemma_meta_encoding();
                assert(bytes@.take(1)[0] == 0x20);
            }
        }
        text
    }
}

} // verus!
