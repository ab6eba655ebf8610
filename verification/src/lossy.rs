//! Bytes read as text, with what is ill-formed replaced.
//!
//! The bytes are cut where a character can start: a well-formed character stands
//! for itself, and a broken one, with the continuation bytes behind it, for what
//! `utf8_lossy` names. So text that has been read once stays as it is when more
//! bytes follow, up to a broken character at the very end that they may complete.

use crate::text::{lemma_encode_injective, string_from_utf8, string_from_utf8_lossy, to_bytes, utf8_lossy};
use vstd::prelude::*;
use vstd::slice::slice_subrange;
use vstd::string::*;
use vstd::utf8::*;

verus! {

/// The first position at or behind `i` that holds no continuation byte.
pub open spec fn continued_to(bytes: Seq<u8>, i: int) -> int
    decreases bytes.len() - i,
{
    if 0 <= i < bytes.len() && is_continuation_byte(bytes[i]) {
        continued_to(bytes, i + 1)
    } else {
        i
    }
}

/// How many bytes belong together at the front: a well-formed character, or a
/// broken one with the continuation bytes behind it.
pub open spec fn front_len(bytes: Seq<u8>) -> int {
    if valid_first_scalar(bytes) {
        length_of_first_scalar(bytes)
    } else {
        continued_to(bytes, 1)
    }
}

/// What the bytes at the front read as.
pub open spec fn front_text(bytes: Seq<u8>) -> Seq<char> {
    if valid_first_scalar(bytes) {
        seq![decode_first_scalar(bytes) as char]
    } else {
        utf8_lossy(bytes.take(front_len(bytes)))
    }
}

/// What bytes read as: well-formed characters as they are, broken ones replaced.
pub open spec fn lossy_text(bytes: Seq<u8>) -> Seq<char>
    decreases bytes.len(),
{
    let n = front_len(bytes);
    if bytes.len() == 0 || n <= 0 || n > bytes.len() {
        Seq::empty()
    } else {
        front_text(bytes) + lossy_text(bytes.skip(n))
    }
}

/// How many bytes read the same whatever follows: all but a broken character at
/// the end.
pub open spec fn settled(bytes: Seq<u8>) -> int
    decreases bytes.len(),
{
    let n = front_len(bytes);
    if bytes.len() == 0 || n <= 0 || n > bytes.len() || (n == bytes.len() && !valid_first_scalar(
        bytes,
    )) {
        0
    } else {
        n + settled(bytes.skip(n))
    }
}

proof fn lemma_continued(bytes: Seq<u8>, i: int)
    requires
        0 <= i <= bytes.len(),
    ensures
        i <= continued_to(bytes, i) <= bytes.len(),
        continued_to(bytes, i) < bytes.len() ==> !is_continuation_byte(
            bytes[continued_to(bytes, i)],
        ),
        forall|j: int|
            i <= j < continued_to(bytes, i) ==> is_continuation_byte(#[trigger] bytes[j]),
    decreases bytes.len() - i,
{
    if i < bytes.len() {
        lemma_continued(bytes, i + 1);
    }
}

proof fn lemma_continued_is(bytes: Seq<u8>, i: int, n: int)
    requires
        0 <= i <= n <= bytes.len(),
        n < bytes.len() ==> !is_continuation_byte(bytes[n]),
        forall|j: int| i <= j < n ==> is_continuation_byte(#[trigger] bytes[j]),
    ensures
        continued_to(bytes, i) == n,
    decreases n - i,
{
    if i < n {
        assert(is_continuation_byte(bytes[i]));
        lemma_continued_is(bytes, i + 1, n);
    }
}

/// The front of a text is not empty and lies within it.
pub proof fn lemma_front(bytes: Seq<u8>)
    requires
        bytes.len() > 0,
    ensures
        1 <= front_len(bytes) <= bytes.len(),
{
    lemma_continued(bytes, 1);
}

/// The front stays as it is when bytes follow or are cut off behind it, unless it
/// is a broken character with nothing behind it.
proof fn lemma_front_stays(bytes: Seq<u8>, other: Seq<u8>)
    requires
        bytes.len() > 0,
        other.len() >= front_len(bytes),
        other.take(front_len(bytes)) == bytes.take(front_len(bytes)),
        !valid_first_scalar(bytes) ==> (other.len() == front_len(bytes) || (front_len(bytes)
            < bytes.len() && other[front_len(bytes)] == bytes[front_len(bytes)])),
    ensures
        valid_first_scalar(other) == valid_first_scalar(bytes),
        front_len(other) == front_len(bytes),
        front_text(other) == front_text(bytes),
{
    let n = front_len(bytes);
    lemma_front(bytes);
    lemma_continued(bytes, 1);
    assert forall|j: int| 0 <= j < n implies other[j] == bytes[j] by {
        assert(other.take(n)[j] == bytes.take(n)[j]);
    }
    if !valid_first_scalar(bytes) {
        lemma_continued_is(other, 1, n);
    }
}

/// Well-formed bytes read as their characters.
pub proof fn lemma_lossy_of_valid(bytes: Seq<u8>)
    requires
        valid_utf8(bytes),
    ensures
        lossy_text(bytes) == decode_utf8(bytes),
        settled(bytes) == bytes.len(),
    decreases bytes.len(),
{
    if bytes.len() > 0 {
        assert(bytes.skip(front_len(bytes)) =~= pop_first_scalar(bytes));
        lemma_lossy_of_valid(pop_first_scalar(bytes));
    }
}

/// The settled part lies within the bytes.
pub proof fn lemma_settled(bytes: Seq<u8>)
    ensures
        0 <= settled(bytes) <= bytes.len(),
    decreases bytes.len(),
{
    if bytes.len() > 0 {
        lemma_front(bytes);
        lemma_settled(bytes.skip(front_len(bytes)));
    }
}

/// What the settled part reads as.
pub open spec fn settled_text(bytes: Seq<u8>) -> Seq<char> {
    lossy_text(bytes.take(settled(bytes)))
}

/// `a` stands at the start of `b`.
pub open spec fn starts_with(b: Seq<char>, a: Seq<char>) -> bool {
    a.len() <= b.len() && b.take(a.len() as int) == a
}

proof fn lemma_starts_behind(head: Seq<char>, b: Seq<char>, a: Seq<char>)
    requires
        starts_with(b, a),
    ensures
        starts_with(head + b, head + a),
{
    assert((head + b).take((head + a).len() as int) =~= head + b.take(a.len() as int));
}

/// The settled part, front first.
proof fn lemma_settled_front(bytes: Seq<u8>)
    requires
        settled(bytes) > 0,
    ensures
        settled_text(bytes) == front_text(bytes) + settled_text(bytes.skip(front_len(bytes))),
{
    let n = front_len(bytes);
    let rest = bytes.skip(n);
    let part = bytes.take(settled(bytes));
    lemma_front(bytes);
    lemma_settled(rest);
    assert(part.take(n) =~= bytes.take(n));
    if part.len() > n {
        assert(part[n] == bytes[n]);
    }
    lemma_front_stays(bytes, part);
    assert(part.skip(n) =~= rest.take(settled(rest)));
}

/// Text once settled stays: it is the start of what any longer bytes read as, and
/// of what is settled of them.
pub proof fn law_settled_text_stays(bytes: Seq<u8>, more: Seq<u8>)
    ensures
        starts_with(lossy_text(bytes + more), settled_text(bytes)),
        starts_with(settled_text(bytes + more), settled_text(bytes)),
    decreases bytes.len(),
{
    let all = bytes + more;
    if settled(bytes) <= 0 {
        assert(bytes.take(settled(bytes)).len() == 0) by {
            lemma_settled(bytes);
        }
        assert(lossy_text(all).take(0) =~= Seq::<char>::empty());
        assert(settled_text(all).take(0) =~= Seq::<char>::empty());
    } else {
        let n = front_len(bytes);
        lemma_front(bytes);
        assert(all.take(n) =~= bytes.take(n));
        if n < bytes.len() {
            assert(all[n] == bytes[n]);
        }
        lemma_front_stays_in_longer(bytes, all);
        let rest = bytes.skip(n);
        assert(all.skip(n) =~= rest + more);
        law_settled_text_stays(rest, more);
        lemma_settled_front(bytes);
        lemma_settled(all.skip(n));
        lemma_settled_front(all);
        lemma_starts_behind(front_text(bytes), lossy_text(rest + more), settled_text(rest));
        lemma_starts_behind(front_text(bytes), settled_text(rest + more), settled_text(rest));
    }
}

proof fn lemma_front_stays_in_longer(bytes: Seq<u8>, all: Seq<u8>)
    requires
        bytes.len() > 0,
        all.len() >= bytes.len(),
        all.take(front_len(bytes)) == bytes.take(front_len(bytes)),
        valid_first_scalar(bytes) || (front_len(bytes) < bytes.len() && all[front_len(bytes)]
            == bytes[front_len(bytes)]),
    ensures
        valid_first_scalar(all) == valid_first_scalar(bytes),
        front_len(all) == front_len(bytes),
        front_text(all) == front_text(bytes),
{
    lemma_front(bytes);
    lemma_front_stays(bytes, all);
}

/// Settled text is the start of what the bytes read as.
pub proof fn lemma_settled_is_start(bytes: Seq<u8>)
    ensures
        starts_with(lossy_text(bytes), settled_text(bytes)),
{
    law_settled_text_stays(bytes, Seq::empty());
    assert(bytes + Seq::<u8>::empty() =~= bytes);
}

/// The character at `i`, if a well-formed one stands there, and how many bytes it
/// or the broken one there takes.
fn read_front(bytes: &[u8], i: usize) -> (r: (Option<String>, usize))
    requires
        i < bytes@.len(),
    ensures
        r.1 == front_len(bytes@.skip(i as int)),
        1 <= r.1 <= bytes@.len() - i,
        match r.0 {
            Some(c) => valid_first_scalar(bytes@.skip(i as int)) && c@ == front_text(
                bytes@.skip(i as int),
            ),
            None => !valid_first_scalar(bytes@.skip(i as int)),
        },
{
    let n: usize = bytes.len();
    let ghost rest = bytes@.skip(i as int);
    let b: u8 = bytes[i];
    let width: usize = if b < 0x80 {
        1
    } else if b < 0xC0 {
        0
    } else if b < 0xE0 {
        2
    } else if b < 0xF0 {
        3
    } else if b < 0xF8 {
        4
    } else {
        0
    };
    if width > 0 && width <= n - i {
        let part = to_bytes(slice_subrange(bytes, i, i + width));
        let ghost head = part@;
        proof {
            assert(head =~= rest.take(width as int));
            lemma_lone_scalar(rest, width as int);
        }
        match string_from_utf8(part) {
            Some(c) => {
                proof {
                    decode_utf8_encode_utf8(head);
                    lemma_encode_injective(c@, decode_utf8(head));
                }
                return (Some(c), width);
            },
            None => {},
        }
    }
    proof {
        lemma_front(rest);
        lemma_lone_scalar(rest, width as int);
    }
    let mut j: usize = i + 1;
    while j < n && bytes[j] >= 0x80 && bytes[j] <= 0xBF
        invariant
            i < j <= n,
            n == bytes@.len(),
            rest == bytes@.skip(i as int),
            continued_to(rest, 1) == continued_to(rest, j - i),
        decreases n - j,
    {
        j = j + 1;
    }
    (None, j - i)
}

/// A character by itself is well-formed exactly where it is at the front.
proof fn lemma_lone_scalar(rest: Seq<u8>, width: int)
    requires
        rest.len() > 0,
        width == if is_leading_byte_width_1(rest[0]) {
            1int
        } else if is_leading_byte_width_2(rest[0]) {
            2
        } else if is_leading_byte_width_3(rest[0]) {
            3
        } else if is_leading_byte_width_4(rest[0]) {
            4
        } else {
            0
        },
    ensures
        0 < width <= rest.len() ==> (valid_utf8(rest.take(width)) <==> valid_first_scalar(rest)),
        valid_first_scalar(rest) ==> 0 < width <= rest.len() && length_of_first_scalar(rest)
            == width && decode_utf8(rest.take(width)) == front_text(rest),
{
    if 0 < width <= rest.len() {
        let head = rest.take(width);
        assert(valid_first_scalar(head) == valid_first_scalar(rest));
        assert(valid_first_scalar(head) ==> pop_first_scalar(head) =~= Seq::<u8>::empty());
        reveal_with_fuel(valid_utf8, 2);
        reveal_with_fuel(decode_utf8, 2);
        if valid_first_scalar(rest) {
            assert(decode_utf8(head) =~= front_text(rest));
        }
    }
}

/// Read bytes as text. Some text comes of any bytes.
pub fn text_of_bytes(bytes: &[u8]) -> (s: String)
    ensures
        s@ == lossy_text(bytes@),
        bytes@.len() > 0 ==> s@.len() > 0,
{
    match string_from_utf8(to_bytes(bytes)) {
        Some(s) => {
            proof {
                decode_utf8_encode_utf8(bytes@);
                lemma_encode_injective(s@, decode_utf8(bytes@));
                lemma_lossy_of_valid(bytes@);
            }
            return s;
        },
        None => {},
    }
    let n: usize = bytes.len();
    let mut s = String::new();
    let mut i: usize = 0;
    proof {
        assert(bytes@.skip(0) =~= bytes@);
        assert(s@ + lossy_text(bytes@) =~= lossy_text(bytes@));
    }
    while i < n
        invariant
            i <= n,
            n == bytes@.len(),
            lossy_text(bytes@) == s@ + lossy_text(bytes@.skip(i as int)),
            i > 0 ==> s@.len() > 0,
        decreases n - i,
    {
        let ghost rest = bytes@.skip(i as int);
        let ghost before = s@;
        let (c, w) = read_front(bytes, i);
        match c {
            Some(c) => {
                s.append(c.as_str());
            },
            None => {
                let part = slice_subrange(bytes, i, i + w);
                assert(part@ =~= rest.take(w as int));
                let c = string_from_utf8_lossy(part);
                s.append(c.as_str());
            },
        }
        proof {
            assert(rest.skip(w as int) =~= bytes@.skip(i + w));
            assert(before + (front_text(rest) + lossy_text(rest.skip(w as int))) =~= s@
                + lossy_text(bytes@.skip(i + w)));
        }
        i = i + w;
    }
    proof {
        assert(bytes@.skip(i as int).len() == 0);
        assert(s@ + Seq::<char>::empty() =~= s@);
    }
    s
}

/// How many bytes read the same whatever follows.
pub fn settled_len(bytes: &[u8]) -> (r: usize)
    ensures
        r == settled(bytes@),
        r <= bytes@.len(),
{
    let n: usize = bytes.len();
    let mut i: usize = 0;
    assert(bytes@.skip(0) =~= bytes@);
    while i < n
        invariant
            i <= n,
            n == bytes@.len(),
            settled(bytes@) == i + settled(bytes@.skip(i as int)),
        decreases n - i,
    {
        let (c, w) = read_front(bytes, i);
        if c.is_none() && w == n - i {
            return i;
        }
        assert(bytes@.skip(i as int).skip(w as int) =~= bytes@.skip(i + w));
        i = i + w;
    }
    i
}

/// Well-formed text reads as itself.
pub proof fn law_well_formed_text_reads_as_itself(text: Seq<char>)
    ensures
        lossy_text(encode_utf8(text)) == text,
{
    encode_utf8_valid_utf8(text);
    lemma_lossy_of_valid(encode_utf8(text));
    encode_utf8_decode_utf8(text);
}

} // verus!
