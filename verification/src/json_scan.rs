//! Scanners over JSON text: matching brackets, field lookup, object keys.
//!
//! They look for exactly what a tool list needs and accept any text: on
//! malformed input each has a defined result instead of an error.

use crate::text::{bytes_eq, lemma_after_ascii_boundary, lemma_ascii_boundary, slice_str};
use vstd::prelude::*;
use vstd::slice::slice_subrange;
use vstd::string::*;
use vstd::utf8::*;

verus! {

/// ASCII whitespace: space, tab, line feed, form feed, carriage return.
pub open spec fn ascii_space(b: u8) -> bool {
    b == 0x20 || b == 0x09 || b == 0x0A || b == 0x0C || b == 0x0D
}

fn is_ascii_space(b: u8) -> (r: bool)
    ensures
        r == ascii_space(b),
{
    b == 0x20 || b == 0x09 || b == 0x0A || b == 0x0C || b == 0x0D
}

/// Where the string whose content starts at `i` closes: its first unescaped
/// `"`, or the end of the text.
pub open spec fn string_end(s: Seq<u8>, i: int, escaped: bool) -> int
    decreases s.len() - i,
{
    if i >= s.len() {
        s.len() as int
    } else if escaped {
        string_end(s, i + 1, false)
    } else if s[i] == 0x5C {
        string_end(s, i + 1, true)
    } else if s[i] == 0x22 {
        i
    } else {
        string_end(s, i + 1, false)
    }
}

/// A string ends at a `"` behind its start or at the end of the text.
pub proof fn lemma_string_end(s: Seq<u8>, i: int, escaped: bool)
    requires
        0 <= i <= s.len(),
    ensures
        i <= string_end(s, i, escaped) <= s.len(),
        string_end(s, i, escaped) < s.len() ==> s[string_end(s, i, escaped)] == 0x22,
    decreases s.len() - i,
{
    if i < s.len() {
        lemma_string_end(s, i + 1, false);
        lemma_string_end(s, i + 1, true);
    }
}

fn find_string_end(bytes: &[u8], from: usize) -> (r: usize)
    requires
        from <= bytes@.len(),
    ensures
        r == string_end(bytes@, from as int, false),
        from <= r <= bytes@.len(),
{
    let mut i: usize = from;
    let mut escape: bool = false;
    while i < bytes.len()
        invariant
            from <= i <= bytes@.len(),
            string_end(bytes@, from as int, false) == string_end(bytes@, i as int, escape),
        decreases bytes@.len() - i,
    {
        if escape {
            escape = false;
        } else if bytes[i] == 0x5C {
            escape = true;
        } else if bytes[i] == 0x22 {
            return i;
        }
        i = i + 1;
    }
    i
}

/// Where the bracket span that is `depth` levels deep at `i` closes. Brackets
/// inside strings do not count.
pub open spec fn closing_at(s: Seq<u8>, i: int, depth: int, open: u8, close: u8) -> Option<int>
    decreases s.len() - i,
{
    if i < 0 || i >= s.len() {
        None
    } else if s[i] == 0x22 {
        let e = string_end(s, i + 1, false);
        if e >= s.len() || e <= i {
            None
        } else {
            closing_at(s, e + 1, depth, open, close)
        }
    } else if s[i] == open {
        closing_at(s, i + 1, depth + 1, open, close)
    } else if s[i] == close {
        if depth <= 1 {
            Some(i)
        } else {
            closing_at(s, i + 1, depth - 1, open, close)
        }
    } else {
        closing_at(s, i + 1, depth, open, close)
    }
}

/// The delimiter that closes the span opened at `start`, or the last position
/// of the text where none does.
pub open spec fn matching_pos(s: Seq<u8>, start: int, open: u8, close: u8) -> int {
    match closing_at(s, start, 0, open, close) {
        Some(i) => i,
        None => if s.len() == 0 {
            0
        } else {
            s.len() - 1
        },
    }
}

/// A span closes at a closing delimiter at or behind the start.
pub proof fn lemma_closing_at(s: Seq<u8>, i: int, depth: int, open: u8, close: u8)
    requires
        0 <= i,
    ensures
        closing_at(s, i, depth, open, close) matches Some(j) ==> i <= j < s.len() && s[j] == close,
    decreases s.len() - i,
{
    if i < s.len() {
        if s[i] == 0x22 {
            lemma_string_end(s, i + 1, false);
            let e = string_end(s, i + 1, false);
            if e < s.len() {
                lemma_closing_at(s, e + 1, depth, open, close);
            }
        } else {
            lemma_closing_at(s, i + 1, depth + 1, open, close);
            lemma_closing_at(s, i + 1, depth - 1, open, close);
            lemma_closing_at(s, i + 1, depth, open, close);
        }
    }
}

/// Find the delimiter that closes the span opened at `start`.
pub fn json_find_matching(bytes: &[u8], start: usize, open: u8, close: u8) -> (r: usize)
    ensures
        r == matching_pos(bytes@, start as int, open, close),
{
    let mut depth: usize = 0;
    let mut i: usize = start;
    while i < bytes.len()
        invariant
            i <= bytes@.len() || i == start,
            depth <= i,
            closing_at(bytes@, start as int, 0, open, close) == closing_at(
                bytes@,
                i as int,
                depth as int,
                open,
                close,
            ),
        decreases bytes@.len() - i,
    {
        let b: u8 = bytes[i];
        if b == 0x22 {
            let e: usize = find_string_end(bytes, i + 1);
            if e >= bytes.len() {
                return bytes.len() - 1;
            }
            i = e + 1;
        } else if b == open {
            depth = depth + 1;
            i = i + 1;
        } else if b == close {
            depth = depth.saturating_sub(1);
            if depth == 0 {
                return i;
            }
            i = i + 1;
        } else {
            i = i + 1;
        }
    }
    bytes.len().saturating_sub(1)
}

/// The first position at or behind `i` that holds no comma and no whitespace.
pub open spec fn skip_separators(s: Seq<u8>, i: int) -> int
    decreases s.len() - i,
{
    if 0 <= i < s.len() && (s[i] == 0x2C || ascii_space(s[i])) {
        skip_separators(s, i + 1)
    } else {
        i
    }
}

fn after_separators(bytes: &[u8], from: usize) -> (r: usize)
    ensures
        r == skip_separators(bytes@, from as int),
        r >= from,
        r <= bytes@.len() || r == from,
{
    let mut i: usize = from;
    while i < bytes.len() && (bytes[i] == 0x2C || is_ascii_space(bytes[i]))
        invariant
            from <= i,
            i <= bytes@.len() || i == from,
            skip_separators(bytes@, from as int) == skip_separators(bytes@, i as int),
        decreases bytes@.len() - i,
    {
        i = i + 1;
    }
    i
}

/// Skipping never goes back.
proof fn lemma_skip_separators(s: Seq<u8>, i: int)
    ensures
        skip_separators(s, i) >= i,
    decreases s.len() - i,
{
    if 0 <= i < s.len() {
        lemma_skip_separators(s, i + 1);
    }
}

/// The first position at or behind `i` that holds no whitespace.
pub open spec fn skip_space(s: Seq<u8>, i: int) -> int
    decreases s.len() - i,
{
    if 0 <= i < s.len() && ascii_space(s[i]) {
        skip_space(s, i + 1)
    } else {
        i
    }
}

/// The first position at or behind `i` that holds `b`.
pub open spec fn next_byte(s: Seq<u8>, i: int, b: u8) -> int
    decreases s.len() - i,
{
    if 0 <= i < s.len() && s[i] != b {
        next_byte(s, i + 1, b)
    } else {
        i
    }
}

/// The first position at or behind `i` that ends a bare value.
pub open spec fn bare_value_end(s: Seq<u8>, i: int) -> int
    decreases s.len() - i,
{
    if 0 <= i < s.len() && s[i] != 0x2C && s[i] != 0x7D && s[i] != 0x5D {
        bare_value_end(s, i + 1)
    } else {
        i
    }
}

/// The position behind the value that starts at `i`.
pub open spec fn value_end(s: Seq<u8>, i: int) -> int {
    if i >= s.len() {
        i
    } else if s[i] == 0x7B {
        matching_pos(s, i, 0x7B, 0x7D) + 1
    } else if s[i] == 0x5B {
        matching_pos(s, i, 0x5B, 0x5D) + 1
    } else if s[i] == 0x22 {
        let e = string_end(s, i + 1, false);
        if e < s.len() {
            e + 1
        } else {
            e
        }
    } else {
        bare_value_end(s, i)
    }
}

proof fn lemma_bare_value_end(s: Seq<u8>, i: int)
    ensures
        bare_value_end(s, i) >= i,
        i <= s.len() ==> bare_value_end(s, i) <= s.len(),
    decreases s.len() - i,
{
    if 0 <= i < s.len() {
        lemma_bare_value_end(s, i + 1);
    }
}

/// A value ends behind its start, and within the text.
pub proof fn lemma_value_end(s: Seq<u8>, i: int)
    requires
        0 <= i,
    ensures
        value_end(s, i) >= i,
        i <= s.len() ==> value_end(s, i) <= s.len(),
{
    if i < s.len() {
        lemma_closing_at(s, i, 0, 0x7B, 0x7D);
        lemma_closing_at(s, i, 0, 0x5B, 0x5D);
        lemma_string_end(s, i + 1, false);
        lemma_bare_value_end(s, i);
    }
}

/// Skip over the JSON value that starts at `i`.
pub fn json_skip_value(bytes: &[u8], i: usize) -> (r: usize)
    ensures
        r == value_end(bytes@, i as int),
        r >= i,
        i <= bytes@.len() ==> r <= bytes@.len(),
{
    if i >= bytes.len() {
        return i;
    }
    proof {
        lemma_value_end(bytes@, i as int);
        lemma_closing_at(bytes@, i as int, 0, 0x7B, 0x7D);
        lemma_closing_at(bytes@, i as int, 0, 0x5B, 0x5D);
    }
    let b: u8 = bytes[i];
    if b == 0x7B {
        json_find_matching(bytes, i, 0x7B, 0x7D) + 1
    } else if b == 0x5B {
        json_find_matching(bytes, i, 0x5B, 0x5D) + 1
    } else if b == 0x22 {
        let e: usize = find_string_end(bytes, i + 1);
        if e < bytes.len() {
            e + 1
        } else {
            e
        }
    } else {
        let mut j: usize = i;
        while j < bytes.len() && bytes[j] != 0x2C && bytes[j] != 0x7D && bytes[j] != 0x5D
            invariant
                i <= j <= bytes@.len(),
                bare_value_end(bytes@, i as int) == bare_value_end(bytes@, j as int),
            decreases bytes@.len() - j,
        {
            j = j + 1;
        }
        j
    }
}

/// A member of an object: its key as it is written between the quotes, and where
/// its value starts, unless the text ends before.
#[verifier::ext_equal]
pub struct Member {
    pub key: Seq<u8>,
    pub value: Option<int>,
}

/// Where the value of the member starts whose key ends at `e`.
pub open spec fn value_start(s: Seq<u8>, e: int) -> int {
    skip_space(s, next_byte(s, e + 1, 0x3A) + 1)
}

/// The members of the object whose members start at `i`, in order.
pub open spec fn members(s: Seq<u8>, i: int) -> Seq<Member>
    decreases s.len() - i,
{
    let j = skip_separators(s, i);
    if i < 0 || j < i || j >= s.len() || s[j] == 0x7D {
        Seq::empty()
    } else if s[j] != 0x22 {
        members(s, j + 1)
    } else {
        let e = string_end(s, j + 1, false);
        let v = value_start(s, e);
        let next = value_end(s, v);
        let rest = if next <= i || next > s.len() {
            Seq::empty()
        } else {
            members(s, next)
        };
        let value = if v < s.len() {
            Some(v)
        } else {
            None
        };
        seq![Member { key: s.subrange(j + 1, e), value }] + rest
    }
}

/// The value of a member starts with the byte `b`.
pub open spec fn value_opens(s: Seq<u8>, m: Member, b: u8) -> bool {
    m.value matches Some(v) && s[v] == b
}

/// The value of a member is an object.
pub open spec fn holds_object(s: Seq<u8>, m: Member) -> bool {
    value_opens(s, m, 0x7B)
}

/// The members of an object text.
pub open spec fn top_members(s: Seq<u8>) -> Seq<Member> {
    members(s, members_start(s))
}

/// The keys of the members, in order. Empty keys are left out; with
/// `objects_only` so are the keys whose value is no object.
pub open spec fn keys_in(s: Seq<u8>, ms: Seq<Member>, objects_only: bool) -> Seq<Seq<u8>>
    decreases ms.len(),
{
    if ms.len() == 0 {
        Seq::empty()
    } else {
        let before = keys_in(s, ms.drop_last(), objects_only);
        let m = ms.last();
        if m.key.len() > 0 && (!objects_only || holds_object(s, m)) {
            before.push(m.key)
        } else {
            before
        }
    }
}

/// The keys of an object text.
pub open spec fn object_keys(s: Seq<u8>, objects_only: bool) -> Seq<Seq<u8>> {
    keys_in(s, top_members(s), objects_only)
}

/// The object-valued keys are the top-level keys of those members whose value is
/// an object, in the same order.
pub proof fn law_object_valued_keys_are_top_level_keys(s: Seq<u8>, ms: Seq<Member>)
    ensures
        keys_in(s, ms, true) == keys_in(s, ms.filter(|m: Member| holds_object(s, m)), false),
    decreases ms.len(),
{
    reveal(Seq::filter);
    if ms.len() > 0 {
        law_object_valued_keys_are_top_level_keys(s, ms.drop_last());
        let kept = ms.drop_last().filter(|m: Member| holds_object(s, m));
        assert(kept.push(ms.last()).drop_last() =~= kept);
    }
}

/// Every object-valued key of an object text is one of its top-level keys.
pub proof fn law_object_valued_keys_are_declared(s: Seq<u8>, ms: Seq<Member>, key: Seq<u8>)
    requires
        keys_in(s, ms, true).contains(key),
    ensures
        keys_in(s, ms, false).contains(key),
    decreases ms.len(),
{
    if ms.len() > 0 {
        let some = keys_in(s, ms.drop_last(), true);
        let all = keys_in(s, ms.drop_last(), false);
        let k = choose|k: int|
            0 <= k < keys_in(s, ms, true).len() && keys_in(s, ms, true)[k] == key;
        if k < some.len() {
            assert(some.contains(key));
            law_object_valued_keys_are_declared(s, ms.drop_last(), key);
            let j = choose|j: int| 0 <= j < all.len() && all[j] == key;
            assert(keys_in(s, ms, false)[j] == key);
        } else {
            assert(keys_in(s, ms, false)[all.len() as int] == key);
        }
    }
}

/// Where the members of an object text start.
pub open spec fn members_start(s: Seq<u8>) -> int {
    if s.len() > 0 && s[0] == 0x7B {
        1
    } else {
        0
    }
}

/// The byte encodings of a vector of strings.
pub open spec fn encodings(v: Seq<String>) -> Seq<Seq<u8>> {
    v.map_values(|s: String| encode_utf8(s@))
}

pub(crate) proof fn lemma_value_start(s: Seq<u8>, e: int)
    requires
        0 <= e <= s.len(),
    ensures
        ({
            let v = skip_space(s, next_byte(s, e + 1, 0x3A) + 1);
            v >= e + 2 && (e + 1 < s.len() ==> v <= s.len() + 1)
        }),
{
    lemma_next_byte(s, e + 1, 0x3A);
    lemma_skip_space(s, next_byte(s, e + 1, 0x3A) + 1);
}

proof fn lemma_next_byte(s: Seq<u8>, i: int, b: u8)
    ensures
        next_byte(s, i, b) >= i,
        i <= s.len() ==> next_byte(s, i, b) <= s.len(),
        i >= s.len() ==> next_byte(s, i, b) == i,
    decreases s.len() - i,
{
    if 0 <= i < s.len() {
        lemma_next_byte(s, i + 1, b);
    }
}

proof fn lemma_skip_space(s: Seq<u8>, i: int)
    ensures
        skip_space(s, i) >= i,
        i <= s.len() ==> skip_space(s, i) <= s.len(),
        i >= s.len() ==> skip_space(s, i) == i,
    decreases s.len() - i,
{
    if 0 <= i < s.len() {
        lemma_skip_space(s, i + 1);
    }
}

/// The member whose key ends at `e`: where its value starts, or `None` where
/// the text ends before.
fn find_value(bytes: &[u8], e: usize) -> (r: Option<usize>)
    requires
        e <= bytes@.len(),
    ensures
        ({
            let v = skip_space(bytes@, next_byte(bytes@, e + 1, 0x3A) + 1);
            match r {
                Some(p) => p == v && p < bytes@.len() && p > e,
                None => v >= bytes@.len(),
            }
        }),
{
    proof {
        lemma_value_start(bytes@, e as int);
        lemma_next_byte(bytes@, e + 1, 0x3A);
        lemma_skip_space(bytes@, next_byte(bytes@, e + 1, 0x3A) + 1);
    }
    if e >= bytes.len() || e + 1 >= bytes.len() {
        return None;
    }
    let mut c: usize = e + 1;
    while c < bytes.len() && bytes[c] != 0x3A
        invariant
            e + 1 <= c <= bytes@.len(),
            next_byte(bytes@, e + 1, 0x3A) == next_byte(bytes@, c as int, 0x3A),
        decreases bytes@.len() - c,
    {
        c = c + 1;
    }
    if c >= bytes.len() {
        return None;
    }
    let mut v: usize = c + 1;
    while v < bytes.len() && is_ascii_space(bytes[v])
        invariant
            c + 1 <= v <= bytes@.len(),
            skip_space(bytes@, c + 1) == skip_space(bytes@, v as int),
        decreases bytes@.len() - v,
    {
        v = v + 1;
    }
    if v >= bytes.len() {
        return None;
    }
    Some(v)
}

proof fn lemma_no_members_past_end(s: Seq<u8>, i: int)
    requires
        i >= s.len(),
    ensures
        members(s, i) == Seq::<Member>::empty(),
{
    lemma_skip_separators(s, i);
}

/// A member by its place in the text: its key and where its value starts.
#[derive(Debug, Clone, Copy, PartialEq, Eq)]
pub struct Span {
    pub start: usize,
    pub end: usize,
    pub value: Option<usize>,
}

/// The member that a span of a text is.
pub open spec fn member_at(s: Seq<u8>, p: Span) -> Member {
    Member {
        key: s.subrange(p.start as int, p.end as int),
        value: match p.value {
            Some(v) => Some(v as int),
            None => None,
        },
    }
}

/// The members that the spans of a text are.
pub open spec fn members_at(s: Seq<u8>, spans: Seq<Span>) -> Seq<Member> {
    spans.map_values(|p: Span| member_at(s, p))
}

/// The key stands between two quotes, or runs to the end of the text; the value
/// lies within the text.
pub open spec fn is_span(s: Seq<u8>, p: Span) -> bool {
    &&& 1 <= p.start <= p.end <= s.len()
    &&& s[p.start - 1] == 0x22
    &&& p.end < s.len() ==> s[p.end as int] == 0x22
    &&& p.value matches Some(v) ==> v < s.len()
}

/// Find the members of an object text.
pub fn json_members(bytes: &[u8]) -> (spans: Vec<Span>)
    ensures
        members_at(bytes@, spans@) == top_members(bytes@),
        forall|k: int| 0 <= k < spans@.len() ==> is_span(bytes@, #[trigger] spans@[k]),
{
    let ghost s = bytes@;
    let mut spans: Vec<Span> = Vec::new();
    let mut i: usize = 0;
    if i < bytes.len() && bytes[i] == 0x7B {
        i = i + 1;
    }
    proof {
        assert(members_at(s, spans@) + members(s, i as int) =~= members(s, i as int));
    }
    while i < bytes.len()
        invariant
            i <= bytes@.len(),
            s == bytes@,
            top_members(s) == members_at(s, spans@) + members(s, i as int),
            forall|k: int| 0 <= k < spans@.len() ==> is_span(s, #[trigger] spans@[k]),
        decreases bytes@.len() - i,
    {
        let j: usize = after_separators(bytes, i);
        if j >= bytes.len() || bytes[j] == 0x7D {
            assert(members_at(s, spans@) + Seq::<Member>::empty() =~= members_at(s, spans@));
            return spans;
        }
        if bytes[j] != 0x22 {
            i = j + 1;
            continue;
        }
        let e: usize = find_string_end(bytes, j + 1);
        let at: Option<usize> = find_value(bytes, e);
        let span = Span { start: j + 1, end: e, value: at };
        proof {
            lemma_string_end(s, j + 1, false);
            lemma_value_start(s, e as int);
            let v = value_start(s, e as int);
            lemma_value_end(s, v);
            if at is None {
                assert(value_end(s, v) == v);
                lemma_no_members_past_end(s, v);
            }
            let rest = if value_end(s, v) > s.len() {
                Seq::empty()
            } else {
                members(s, value_end(s, v))
            };
            let m = member_at(s, span);
            assert(members_at(s, spans@.push(span)) =~= members_at(s, spans@).push(m));
            assert(members_at(s, spans@) + (seq![m] + rest) =~= members_at(s, spans@).push(m)
                + rest);
        }
        spans.push(span);
        match at {
            Some(v) => {
                i = json_skip_value(bytes, v);
            },
            None => {
                assert(members_at(s, spans@) + Seq::<Member>::empty() =~= members_at(s, spans@));
                return spans;
            },
        }
    }
    proof {
        lemma_no_members_past_end(s, i as int);
        assert(members_at(s, spans@) + Seq::<Member>::empty() =~= members_at(s, spans@));
    }
    spans
}

fn keys_of(obj: &str, objects_only: bool) -> (keys: Vec<String>)
    ensures
        encodings(keys@) == object_keys(encode_utf8(obj@), objects_only),
{
    let bytes = obj.as_bytes();
    let ghost s = bytes@;
    let spans = json_members(bytes);
    let n: usize = spans.len();
    let ghost ms = members_at(s, spans@);
    let mut keys: Vec<String> = Vec::new();
    let mut k: usize = 0;
    proof {
        encode_utf8_valid_utf8(obj@);
        assert(encodings(keys@) =~= keys_in(s, ms.take(0), objects_only));
    }
    while k < n
        invariant
            k <= n,
            n == spans@.len(),
            s == bytes@,
            s == encode_utf8(obj@),
            valid_utf8(s),
            ms == members_at(s, spans@),
            forall|j: int| 0 <= j < spans@.len() ==> is_span(s, #[trigger] spans@[j]),
            encodings(keys@) == keys_in(s, ms.take(k as int), objects_only),
        decreases n - k,
    {
        let p: Span = spans[k];
        let wanted: bool = match p.value {
            Some(v) => !objects_only || bytes[v] == 0x7B,
            None => !objects_only,
        };
        proof {
            assert(is_span(s, spans@[k as int]));
            assert(ms.take(k + 1).drop_last() =~= ms.take(k as int));
            assert(ms.take(k + 1).last() == member_at(s, p));
        }
        if p.end > p.start && wanted {
            proof {
                lemma_after_ascii_boundary(s, p.start - 1);
                lemma_ascii_boundary(s, p.end as int);
            }
            let key = slice_str(obj, p.start, p.end).to_owned();
            proof {
                assert(encodings(keys@.push(key)) =~= encodings(keys@).push(encode_utf8(key@)));
            }
            keys.push(key);
        }
        k = k + 1;
    }
    assert(ms.take(n as int) =~= ms);
    keys
}

/// All top-level string keys of a JSON object `{...}`.
pub fn json_top_level_keys(obj: &str) -> (keys: Vec<String>)
    ensures
        encodings(keys@) == object_keys(encode_utf8(obj@), false),
{
    keys_of(obj, false)
}

/// The top-level keys of a JSON object whose values are objects.
pub fn json_keys_with_object_values(obj: &str) -> (keys: Vec<String>)
    ensures
        encodings(keys@) == object_keys(encode_utf8(obj@), true),
{
    keys_of(obj, true)
}

/// The first member at or behind `k` that has the key, and where `strings_only`
/// is set, a string as its value.
pub open spec fn member_named(
    s: Seq<u8>,
    ms: Seq<Member>,
    key: Seq<u8>,
    strings_only: bool,
    k: int,
) -> Option<Member>
    decreases ms.len() - k,
{
    if k < 0 || k >= ms.len() {
        None
    } else if ms[k].key == key && (!strings_only || value_opens(s, ms[k], 0x22)) {
        Some(ms[k])
    } else {
        member_named(s, ms, key, strings_only, k + 1)
    }
}

/// Find the first member that has the key.
fn find_member(bytes: &[u8], key: &[u8], strings_only: bool) -> (r: Option<Span>)
    ensures
        match r {
            Some(p) => is_span(bytes@, p) && member_named(
                bytes@,
                top_members(bytes@),
                key@,
                strings_only,
                0,
            ) == Some(member_at(bytes@, p)),
            None => member_named(bytes@, top_members(bytes@), key@, strings_only, 0) is None,
        },
{
    let ghost s = bytes@;
    let ghost ms = top_members(s);
    let spans = json_members(bytes);
    let n: usize = spans.len();
    assert(ms.len() == n);
    let mut k: usize = 0;
    while k < n
        invariant
            k <= n,
            n == spans@.len(),
            s == bytes@,
            ms == top_members(s),
            ms == members_at(s, spans@),
            forall|j: int| 0 <= j < spans@.len() ==> is_span(s, #[trigger] spans@[j]),
            member_named(s, ms, key@, strings_only, 0) == member_named(
                s,
                ms,
                key@,
                strings_only,
                k as int,
            ),
        decreases n - k,
    {
        let p: Span = spans[k];
        assert(is_span(s, spans@[k as int]));
        assert(ms[k as int] == member_at(s, p));
        let wanted: bool = match p.value {
            Some(v) => !strings_only || bytes[v] == 0x22,
            None => !strings_only,
        };
        if wanted && bytes_eq(slice_subrange(bytes, p.start, p.end), key) {
            return Some(p);
        }
        k = k + 1;
    }
    None
}

/// The value of the first top-level member that has the key and a string as its
/// value, as it is written between its quotes.
pub open spec fn string_value(obj: Seq<u8>, field: Seq<u8>) -> Option<Seq<u8>> {
    match member_named(obj, top_members(obj), field, true, 0) {
        Some(m) => {
            let start = m.value->0 + 1;
            let e = string_end(obj, start, false);
            if e < obj.len() {
                Some(obj.subrange(start, e))
            } else {
                None
            }
        },
        None => None,
    }
}

proof fn lemma_string_member(s: Seq<u8>, ms: Seq<Member>, key: Seq<u8>, k: int)
    ensures
        member_named(s, ms, key, true, k) matches Some(m) ==> value_opens(s, m, 0x22),
    decreases ms.len() - k,
{
    if 0 <= k < ms.len() {
        lemma_string_member(s, ms, key, k + 1);
    }
}

/// The value of a top-level string field: `"field":"value"` gives `value`.
pub fn json_extract_string(obj: &str, field: &str) -> (r: Option<String>)
    ensures
        match string_value(encode_utf8(obj@), encode_utf8(field@)) {
            Some(v) => r is Some && encode_utf8(r->0@) == v,
            None => r is None,
        },
{
    let bytes = obj.as_bytes();
    let n: usize = bytes.len();
    let ghost s = bytes@;
    proof {
        encode_utf8_valid_utf8(obj@);
        lemma_string_member(s, top_members(s), encode_utf8(field@), 0);
    }
    match find_member(bytes, field.as_bytes(), true) {
        Some(p) => match p.value {
            Some(v) => {
                let e: usize = find_string_end(bytes, v + 1);
                if e < bytes.len() {
                    proof {
                        lemma_after_ascii_boundary(s, v as int);
                        lemma_string_end(s, v + 1, false);
                        lemma_ascii_boundary(s, e as int);
                    }
                    Some(slice_str(obj, v + 1, e).to_owned())
                } else {
                    None
                }
            },
            None => None,
        },
        None => None,
    }
}

/// How many bytes the whitespace character at `i` takes, zero where there is
/// none. The characters are those with the Unicode property White_Space.
pub open spec fn white_len(s: Seq<u8>, i: int) -> int {
    if i < 0 || i >= s.len() {
        0
    } else if (0x09 <= s[i] <= 0x0D) || s[i] == 0x20 {
        1
    } else if i + 1 < s.len() && s[i] == 0xC2 && (s[i + 1] == 0x85 || s[i + 1] == 0xA0) {
        2
    } else if i + 2 < s.len() && ((s[i] == 0xE1 && s[i + 1] == 0x9A && s[i + 2] == 0x80) || (s[i]
        == 0xE2 && s[i + 1] == 0x80 && ((0x80 <= s[i + 2] <= 0x8A) || s[i + 2] == 0xA8 || s[i + 2]
        == 0xA9 || s[i + 2] == 0xAF)) || (s[i] == 0xE2 && s[i + 1] == 0x81 && s[i + 2] == 0x9F) || (
    s[i] == 0xE3 && s[i + 1] == 0x80 && s[i + 2] == 0x80)) {
        3
    } else {
        0
    }
}

/// The first position at or behind `i` that starts no whitespace character.
pub open spec fn skip_white(s: Seq<u8>, i: int) -> int
    decreases s.len() - i,
{
    if white_len(s, i) > 0 {
        skip_white(s, i + white_len(s, i))
    } else {
        i
    }
}

fn white_len_at(s: &[u8], i: usize) -> (r: usize)
    ensures
        r == white_len(s@, i as int),
        r <= 3,
        r > 0 ==> i + r <= s@.len(),
{
    if i >= s.len() {
        return 0;
    }
    let a: u8 = s[i];
    if (0x09 <= a && a <= 0x0D) || a == 0x20 {
        return 1;
    }
    if s.len() - i < 2 {
        return 0;
    }
    let b: u8 = s[i + 1];
    if a == 0xC2 && (b == 0x85 || b == 0xA0) {
        return 2;
    }
    if s.len() - i < 3 {
        return 0;
    }
    let c: u8 = s[i + 2];
    if (a == 0xE1 && b == 0x9A && c == 0x80) || (a == 0xE2 && b == 0x80 && ((0x80 <= c && c <= 0x8A)
        || c == 0xA8 || c == 0xA9 || c == 0xAF)) || (a == 0xE2 && b == 0x81 && c == 0x9F) || (a
        == 0xE3 && b == 0x80 && c == 0x80) {
        return 3;
    }
    0
}

/// The value of the first top-level member that has the key, where it is an
/// object.
pub open spec fn object_value(obj: Seq<u8>, field: Seq<u8>) -> Option<Seq<u8>> {
    match member_named(obj, top_members(obj), field, false, 0) {
        Some(m) => match m.value {
            Some(v) => {
                let start = skip_white(obj, v);
                if start < obj.len() && obj[start] == 0x7B {
                    let after = obj.subrange(start, obj.len() as int);
                    Some(after.subrange(0, matching_pos(after, 0, 0x7B, 0x7D) + 1))
                } else {
                    None
                }
            },
            None => None,
        },
        None => None,
    }
}

/// The value of a top-level object field: `"field":{...}` gives `{...}`.
pub fn json_extract_object(obj: &str, field: &str) -> (r: Option<String>)
    ensures
        match object_value(encode_utf8(obj@), encode_utf8(field@)) {
            Some(v) => r is Some && encode_utf8(r->0@) == v,
            None => r is None,
        },
{
    let bytes = obj.as_bytes();
    let n: usize = bytes.len();
    proof {
        encode_utf8_valid_utf8(obj@);
    }
    let value: Option<usize> = match find_member(bytes, field.as_bytes(), false) {
        Some(p) => p.value,
        None => {
            return None;
        },
    };
    let mut start: usize = match value {
        Some(v) => v,
        None => {
            return None;
        },
    };
    let mut w: usize = white_len_at(bytes, start);
    let ghost first = start as int;
    while w > 0
        invariant
            start <= bytes@.len(),
            bytes@.len() == n,
            w == white_len(bytes@, start as int),
            w > 0 ==> start + w <= bytes@.len(),
            skip_white(bytes@, first) == skip_white(bytes@, start as int),
        decreases bytes@.len() - start,
    {
        start = start + w;
        w = white_len_at(bytes, start);
    }
    if start >= bytes.len() || bytes[start] != 0x7B {
        return None;
    }
    proof {
        lemma_ascii_boundary(bytes@, start as int);
        lemma_ascii_boundary(bytes@, bytes@.len() as int);
    }
    let after = slice_str(obj, start, bytes.len());
    let end: usize = json_find_matching(after.as_bytes(), 0, 0x7B, 0x7D);
    proof {
        let a = encode_utf8(after@);
        encode_utf8_valid_utf8(after@);
        lemma_closing_at(a, 0, 0, 0x7B, 0x7D);
        if end + 1 < a.len() {
            lemma_after_ascii_boundary(a, end as int);
        }
        lemma_ascii_boundary(a, 0);
        lemma_ascii_boundary(a, a.len() as int);
    }
    Some(slice_str(after, 0, end + 1).to_owned())
}

} // verus!
