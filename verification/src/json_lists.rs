//! What is read of a JSON text that is put together from its parts: every object of a
//! list declares its tool, and every member of an object has its key and its value,
//! in order and however many there are.

use crate::json_scan::{ascii_space, bare_value_end, closing_at, keys_in, lemma_string_end, lemma_value_start, matching_pos, member_named, members, next_byte, object_value, skip_separators, skip_space, string_end, string_value, top_members, value_end, value_start, Member};
use crate::tools::{list_open, param_keys_of, snake_bytes, tool_of, tools_from, tools_of, ToolModel};
use vstd::prelude::*;
use vstd::utf8::*;

verus! {

proof fn lemma_string_end_local(a: Seq<u8>, mid: Seq<u8>, b: Seq<u8>, i: int, escaped: bool)
    requires
        0 <= i,
        string_end(mid, i, escaped) < mid.len(),
    ensures
        string_end(a + mid + b, a.len() + i, escaped) == a.len() + string_end(mid, i, escaped),
    decreases mid.len() - i,
{
    let s = a + mid + b;
    if i < mid.len() {
        assert(s[a.len() + i] == mid[i]);
        if escaped {
            lemma_string_end_local(a, mid, b, i + 1, false);
        } else if mid[i] == 0x5C {
            lemma_string_end_local(a, mid, b, i + 1, true);
        } else if mid[i] == 0x22 {
        } else {
            lemma_string_end_local(a, mid, b, i + 1, false);
        }
    }
}

/// Where a bracket closes does not depend on what stands before or behind the span.
proof fn lemma_closing_local(
    a: Seq<u8>,
    mid: Seq<u8>,
    b: Seq<u8>,
    i: int,
    depth: int,
    open: u8,
    close: u8,
)
    requires
        0 <= i,
        closing_at(mid, i, depth, open, close) is Some,
    ensures
        closing_at(a + mid + b, a.len() + i, depth, open, close) == Some(
            a.len() + closing_at(mid, i, depth, open, close)->0,
        ),
    decreases mid.len() - i,
{
    let s = a + mid + b;
    if i < mid.len() {
        assert(s[a.len() + i] == mid[i]);
        if mid[i] == 0x22 {
            let e = string_end(mid, i + 1, false);
            lemma_string_end(mid, i + 1, false);
            lemma_string_end_local(a, mid, b, i + 1, false);
            lemma_closing_local(a, mid, b, e + 1, depth, open, close);
        } else if mid[i] == open {
            lemma_closing_local(a, mid, b, i + 1, depth + 1, open, close);
        } else if mid[i] == close {
            if depth > 1 {
                lemma_closing_local(a, mid, b, i + 1, depth - 1, open, close);
            }
        } else {
            lemma_closing_local(a, mid, b, i + 1, depth, open, close);
        }
    }
}

/// `text` is a span in brackets: it opens with its first byte and closes with its
/// last.
pub open spec fn is_span_in(text: Seq<u8>, open: u8, close: u8) -> bool {
    &&& text.len() > 0
    &&& text[0] == open
    &&& closing_at(text, 0, 0, open, close) == Some(text.len() - 1)
}

/// Between two objects of a list stand neither an opening brace nor the end of the
/// list.
pub open spec fn is_gap(text: Seq<u8>) -> bool {
    forall|i: int| 0 <= i < text.len() ==> #[trigger] text[i] != 0x7B && text[i] != 0x5D
}

/// Objects one behind the other, each behind its gap.
pub open spec fn row_of_objects(gaps: Seq<Seq<u8>>, objs: Seq<Seq<u8>>) -> Seq<u8>
    decreases objs.len(),
{
    if objs.len() == 0 {
        Seq::empty()
    } else {
        gaps[0] + objs[0] + row_of_objects(gaps.skip(1), objs.skip(1))
    }
}

/// The tools that the objects declare, in order.
pub open spec fn tools_in(objs: Seq<Seq<u8>>) -> Seq<ToolModel>
    decreases objs.len(),
{
    if objs.len() == 0 {
        Seq::empty()
    } else {
        match tool_of(objs[0]) {
            Some(t) => seq![t] + tools_in(objs.skip(1)),
            None => tools_in(objs.skip(1)),
        }
    }
}

proof fn lemma_gap_is_skipped(s: Seq<u8>, i: int, j: int)
    requires
        0 <= i <= j <= s.len(),
        forall|k: int| i <= k < j ==> #[trigger] s[k] != 0x7B && s[k] != 0x5D,
    ensures
        tools_from(s, i) == tools_from(s, j),
    decreases j - i,
{
    if i < j {
        assert(s[i] != 0x7B);
        lemma_gap_is_skipped(s, i + 1, j);
    }
}

proof fn lemma_row_of_objects(
    a: Seq<u8>,
    gaps: Seq<Seq<u8>>,
    objs: Seq<Seq<u8>>,
    b: Seq<u8>,
)
    requires
        gaps.len() == objs.len(),
        forall|k: int| 0 <= k < gaps.len() ==> is_gap(#[trigger] gaps[k]),
        forall|k: int| 0 <= k < objs.len() ==> is_span_in(#[trigger] objs[k], 0x7B, 0x7D),
        b.len() > 0,
        b[0] == 0x5D,
    ensures
        tools_from(a + row_of_objects(gaps, objs) + b, a.len() as int) == tools_in(objs),
    decreases objs.len(),
{
    let s = a + row_of_objects(gaps, objs) + b;
    if objs.len() == 0 {
        assert(s[a.len() as int] == b[0]);
        assert(tools_from(s, a.len() as int) =~= Seq::<ToolModel>::empty());
    } else {
        let rest = row_of_objects(gaps.skip(1), objs.skip(1));
        let head = a + gaps[0];
        let obj = objs[0];
        let tail = rest + b;
        assert(s =~= head + obj + tail);
        assert(s =~= (head + obj) + rest + b);
        assert(is_gap(gaps[0]));
        assert(is_span_in(obj, 0x7B, 0x7D));
        assert forall|k: int| a.len() <= k < head.len() implies #[trigger] s[k] != 0x7B && s[k]
            != 0x5D by {
            assert(s[k] == gaps[0][k - a.len()]);
        }
        lemma_gap_is_skipped(s, a.len() as int, head.len() as int);
        let i = head.len() as int;
        assert(s[i] == obj[0]);
        lemma_closing_local(head, obj, tail, 0, 0, 0x7B, 0x7D);
        let e = matching_pos(s, i, 0x7B, 0x7D);
        assert(e == i + obj.len() - 1);
        assert(s.subrange(i, e + 1) =~= obj);
        assert forall|k: int| 0 <= k < gaps.skip(1).len() implies is_gap(
            #[trigger] gaps.skip(1)[k],
        ) by {
            assert(gaps.skip(1)[k] == gaps[k + 1]);
        }
        assert forall|k: int| 0 <= k < objs.skip(1).len() implies is_span_in(
            #[trigger] objs.skip(1)[k],
            0x7B,
            0x7D,
        ) by {
            assert(objs.skip(1)[k] == objs[k + 1]);
        }
        lemma_row_of_objects(head + obj, gaps.skip(1), objs.skip(1), b);
        assert((head + obj).len() == e + 1);
    }
}

/// Every object of a list declares its tool: in a list of any length, whatever stands
/// between the objects, the tools are those that the objects declare one by one, in
/// their order.
pub proof fn law_every_object_of_a_list_declares_its_tool(
    gaps: Seq<Seq<u8>>,
    objs: Seq<Seq<u8>>,
    b: Seq<u8>,
)
    requires
        gaps.len() == objs.len(),
        forall|k: int| 0 <= k < gaps.len() ==> is_gap(#[trigger] gaps[k]),
        forall|k: int| 0 <= k < objs.len() ==> is_span_in(#[trigger] objs[k], 0x7B, 0x7D),
        b.len() > 0,
        b[0] == 0x5D,
    ensures
        tools_of(seq![0x5Bu8] + row_of_objects(gaps, objs) + b) == tools_in(objs),
{
    let a = seq![0x5Bu8];
    let s = a + row_of_objects(gaps, objs) + b;
    assert(s[0] == 0x5B);
    assert(list_open(s, 0) == 0);
    lemma_row_of_objects(a, gaps, objs, b);
}

/// The text of a value: an object, an array, a string, or something bare that holds no
/// comma and no closing bracket.
pub open spec fn is_value(v: Seq<u8>) -> bool {
    &&& v.len() > 0
    &&& if v[0] == 0x7B {
        is_span_in(v, 0x7B, 0x7D)
    } else if v[0] == 0x5B {
        is_span_in(v, 0x5B, 0x5D)
    } else if v[0] == 0x22 {
        string_end(v, 1, false) == v.len() - 1
    } else {
        &&& !ascii_space(v[0])
        &&& forall|i: int|
            0 <= i < v.len() ==> #[trigger] v[i] != 0x2C && v[i] != 0x7D && v[i] != 0x5D
    }
}

/// The text of a key: it holds no quote but escaped ones.
pub open spec fn is_key(k: Seq<u8>) -> bool {
    string_end(k.push(0x22), 0, false) == k.len()
}

/// A member as it is written.
pub open spec fn member_text(key: Seq<u8>, value: Seq<u8>) -> Seq<u8> {
    seq![0x22u8] + key + seq![0x22u8, 0x3Au8] + value
}

/// Members one behind the other, with commas between them.
pub open spec fn row_of_members(keys: Seq<Seq<u8>>, values: Seq<Seq<u8>>) -> Seq<u8>
    decreases keys.len(),
{
    if keys.len() == 0 {
        Seq::empty()
    } else if keys.len() == 1 {
        member_text(keys[0], values[0])
    } else {
        member_text(keys[0], values[0]) + seq![0x2Cu8] + row_of_members(keys.skip(1), values.skip(1))
    }
}

proof fn lemma_bare_end(s: Seq<u8>, i: int, j: int)
    requires
        0 <= i <= j < s.len(),
        forall|k: int| i <= k < j ==> #[trigger] s[k] != 0x2C && s[k] != 0x7D && s[k] != 0x5D,
        s[j] == 0x2C || s[j] == 0x7D,
    ensures
        bare_value_end(s, i) == j,
    decreases j - i,
{
    if i < j {
        assert(s[i] != 0x2C);
        lemma_bare_end(s, i + 1, j);
    }
}

proof fn lemma_value_end(a: Seq<u8>, v: Seq<u8>, b: Seq<u8>)
    requires
        is_value(v),
        b.len() > 0,
        b[0] == 0x2C || b[0] == 0x7D,
    ensures
        value_end(a + v + b, a.len() as int) == a.len() + v.len(),
{
    let s = a + v + b;
    let i = a.len() as int;
    assert(s[i] == v[0]);
    if v[0] == 0x7B {
        lemma_closing_local(a, v, b, 0, 0, 0x7B, 0x7D);
    } else if v[0] == 0x5B {
        lemma_closing_local(a, v, b, 0, 0, 0x5B, 0x5D);
    } else if v[0] == 0x22 {
        lemma_string_end_local(a, v, b, 1, false);
    } else {
        assert forall|k: int| i <= k < i + v.len() implies #[trigger] s[k] != 0x2C && s[k] != 0x7D
            && s[k] != 0x5D by {
            assert(s[k] == v[k - i]);
        }
        assert(s[i + v.len()] == b[0]);
        lemma_bare_end(s, i, i + v.len());
    }
}

/// A member that stands at `i` is read with its key and its value, and reading goes on
/// behind it.
proof fn lemma_one_member(a: Seq<u8>, key: Seq<u8>, value: Seq<u8>, b: Seq<u8>)
    requires
        is_key(key),
        is_value(value),
        b.len() > 0,
        b[0] == 0x2C || b[0] == 0x7D,
    ensures
        ({
            let s = a + member_text(key, value) + b;
            let at = (a.len() + key.len() + 3) as int;
            members(s, a.len() as int) == seq![Member { key, value: Some(at) }] + members(
                s,
                at + value.len(),
            )
        }),
{
    let m = member_text(key, value);
    let s = a + m + b;
    let i = a.len() as int;
    let quoted = key.push(0x22);
    let head = a + seq![0x22u8];
    let tail = seq![0x3Au8] + value + b;
    assert(s =~= head + quoted + tail);
    assert(s[i] == 0x22);
    assert(skip_separators(s, i) == i);
    lemma_string_end_local(head, quoted, tail, 0, false);
    let e = string_end(s, i + 1, false);
    assert(e == i + 1 + key.len());
    assert(s[e + 1] == 0x3A);
    assert(next_byte(s, e + 1, 0x3A) == e + 1);
    let before = head + quoted + seq![0x3Au8];
    assert(s =~= before + value + b);
    let v = before.len() as int;
    assert(v == e + 2);
    assert(s[v] == value[0]);
    assert(!ascii_space(value[0]));
    assert(skip_space(s, v) == v);
    assert(value_start(s, e) == v);
    lemma_value_end(before, value, b);
    assert(s.subrange(i + 1, e) =~= key);
}

proof fn lemma_comma_is_skipped(s: Seq<u8>, i: int)
    requires
        0 <= i < s.len(),
        s[i] == 0x2C,
    ensures
        members(s, i) == members(s, i + 1),
{
    assert(skip_separators(s, i) == skip_separators(s, i + 1));
    lemma_separators_after(s, i + 1);
    let j = skip_separators(s, i);
    if j < s.len() && s[j] == 0x22 {
        let e = string_end(s, j + 1, false);
        lemma_string_end(s, j + 1, false);
        lemma_value_start(s, e);
        crate::json_scan::lemma_value_end(s, value_start(s, e));
    }
}

proof fn lemma_separators_after(s: Seq<u8>, i: int)
    requires
        0 <= i <= s.len(),
    ensures
        i <= skip_separators(s, i) <= s.len(),
    decreases s.len() - i,
{
    if i < s.len() {
        lemma_separators_after(s, i + 1);
    }
}

/// Every member of an object has its key and its value: in an object of any number of
/// members they are read one by one and in order, and a value is found where it
/// starts.
pub proof fn law_every_member_is_read(
    a: Seq<u8>,
    keys: Seq<Seq<u8>>,
    values: Seq<Seq<u8>>,
    b: Seq<u8>,
    k: int,
)
    requires
        keys.len() == values.len(),
        forall|i: int| 0 <= i < keys.len() ==> is_key(#[trigger] keys[i]),
        forall|i: int| 0 <= i < values.len() ==> is_value(#[trigger] values[i]),
        b.len() > 0,
        b[0] == 0x7D,
        0 <= k < keys.len(),
    ensures
        ({
            let s = a + row_of_members(keys, values) + b;
            let ms = members(s, a.len() as int);
            &&& ms.len() == keys.len()
            &&& ms[k].key == keys[k]
            &&& ms[k].value is Some
            &&& ms[k].value->0 + values[k].len() <= s.len()
            &&& s.subrange(ms[k].value->0, ms[k].value->0 + values[k].len()) == values[k]
        }),
    decreases keys.len(),
{
    let m = member_text(keys[0], values[0]);
    let s = a + row_of_members(keys, values) + b;
    let at = (a.len() + keys[0].len() + 3) as int;
    let next = at + values[0].len();
    if keys.len() == 1 {
        lemma_one_member(a, keys[0], values[0], b);
        assert(s[next] == b[0]);
        assert(members(s, next) =~= Seq::<Member>::empty());
    } else {
        let rest = row_of_members(keys.skip(1), values.skip(1));
        let comma = seq![0x2Cu8];
        let tail = comma + rest + b;
        assert(s =~= a + m + tail);
        lemma_one_member(a, keys[0], values[0], tail);
        assert(s[next] == 0x2C);
        lemma_comma_is_skipped(s, next);
        let front = a + m + comma;
        assert(front.len() == next + 1);
        assert(s =~= front + rest + b);
        assert forall|i: int| 0 <= i < keys.skip(1).len() implies is_key(
            #[trigger] keys.skip(1)[i],
        ) by {
            assert(keys.skip(1)[i] == keys[i + 1]);
        }
        assert forall|i: int| 0 <= i < values.skip(1).len() implies is_value(
            #[trigger] values.skip(1)[i],
        ) by {
            assert(values.skip(1)[i] == values[i + 1]);
        }
        let j = if k > 0 {
            k - 1
        } else {
            0
        };
        law_every_member_is_read(front, keys.skip(1), values.skip(1), b, j);
        assert(keys.skip(1)[j] == keys[j + 1]);
        assert(values.skip(1)[j] == values[j + 1]);
    }
    let ms = members(s, a.len() as int);
    if k == 0 {
        assert(ms[0].value == Some(at));
        assert(s.subrange(at, next) =~= values[0]);
    } else {
        assert(ms[k] == members(s, next)[k - 1]);
    }
}

/// Every key is listed, in order, where none is empty.
pub proof fn law_every_key_is_listed(s: Seq<u8>, ms: Seq<Member>)
    requires
        forall|i: int| 0 <= i < ms.len() ==> (#[trigger] ms[i]).key.len() > 0,
    ensures
        keys_in(s, ms, false).len() == ms.len(),
        forall|i: int| 0 <= i < ms.len() ==> keys_in(s, ms, false)[i] == (#[trigger] ms[i]).key,
    decreases ms.len(),
{
    if ms.len() > 0 {
        let rest = ms.drop_last();
        assert forall|i: int| 0 <= i < rest.len() implies (#[trigger] rest[i]).key.len() > 0 by {
            assert(rest[i] == ms[i]);
        }
        law_every_key_is_listed(s, rest);
        assert(ms[ms.len() - 1].key.len() > 0);
        assert forall|i: int| 0 <= i < ms.len() implies keys_in(s, ms, false)[i] == (
        #[trigger] ms[i]).key by {
            if i < rest.len() {
                assert(rest[i] == ms[i]);
            }
        }
    }
}

/// A member is found by its key: the first that has it, wherever it stands.
pub proof fn law_members_are_found_by_their_key(s: Seq<u8>, ms: Seq<Member>, key: Seq<u8>, k: int)
    requires
        0 <= k < ms.len(),
        ms[k].key == key,
        forall|i: int| 0 <= i < k ==> (#[trigger] ms[i]).key != key,
    ensures
        member_named(s, ms, key, false, 0) == Some(ms[k]),
{
    lemma_member_named(s, ms, key, false, k, 0);
}

proof fn lemma_member_named(
    s: Seq<u8>,
    ms: Seq<Member>,
    key: Seq<u8>,
    strings: bool,
    k: int,
    i: int,
)
    requires
        0 <= i <= k < ms.len(),
        ms[k].key == key,
        strings ==> opens_string(s, ms[k]),
        forall|i: int|
            0 <= i < k ==> (#[trigger] ms[i]).key != key || (strings && !opens_string(s, ms[i])),
    ensures
        member_named(s, ms, key, strings, i) == Some(ms[k]),
    decreases k - i,
{
    if i < k {
        assert(ms[i].key != key || (strings && !opens_string(s, ms[i])));
        lemma_member_named(s, ms, key, strings, k, i + 1);
    }
}

/// The value of the member starts with a quote.
pub open spec fn opens_string(s: Seq<u8>, m: Member) -> bool {
    m.value is Some && s[m.value->0] == 0x22
}

/// A string is found by its key: that of the first member that has the key and a string,
/// as it stands between its quotes.
pub proof fn law_strings_are_found_by_their_key(obj: Seq<u8>, key: Seq<u8>, k: int, e: int)
    requires
        ({
            let ms = top_members(obj);
            &&& 0 <= k < ms.len()
            &&& ms[k].key == key
            &&& opens_string(obj, ms[k])
            &&& e == string_end(obj, ms[k].value->0 + 1, false)
            &&& e < obj.len()
            &&& forall|i: int|
                0 <= i < k ==> (#[trigger] ms[i]).key != key || !opens_string(obj, ms[i])
        }),
    ensures
        string_value(obj, key) == Some(obj.subrange(top_members(obj)[k].value->0 + 1, e)),
{
    lemma_member_named(obj, top_members(obj), key, true, k, 0);
}

/// An object with a name declares its tool itself, and one without through its member
/// `function`. The name is put in snake case, and the argument keys are those of the
/// object that has the name.
pub proof fn law_tools_are_declared_where_their_name_stands(obj: Seq<u8>, f: Seq<u8>)
    ensures
        ({
            let (name, function) = (encode_utf8("name"@), encode_utf8("function"@));
            &&& string_value(obj, name) matches Some(n) ==> tool_of(obj) == Some(
                ToolModel { name: n, snake_name: snake_bytes(0, n), param_keys: param_keys_of(obj) },
            )
            &&& string_value(obj, name) is None && object_value(obj, function) == Some(f) ==> (
            string_value(f, name) matches Some(n) ==> tool_of(obj) == Some(
                ToolModel { name: n, snake_name: snake_bytes(0, n), param_keys: param_keys_of(f) },
            ))
            &&& string_value(obj, name) is None && object_value(obj, function) is None ==> tool_of(
                obj,
            ) is None
        }),
{
}

/// A string ends at its quote, and what stands behind a backslash does not end it.
pub proof fn law_strings_end_at_their_quote(s: Seq<u8>, i: int, e: int)
    requires
        0 <= i <= e < s.len(),
        forall|k: int| i <= k < e ==> #[trigger] s[k] != 0x22 && s[k] != 0x5C,
    ensures
        s[e] == 0x22 ==> string_end(s, i, false) == e,
        s[e] == 0x5C && e + 1 < s.len() ==> string_end(s, i, false) == string_end(s, e + 2, false),
    decreases e - i,
{
    if i < e {
        assert(s[i] != 0x22);
        law_strings_end_at_their_quote(s, i + 1, e);
    } else if s[e] == 0x5C && e + 1 < s.len() {
        assert(string_end(s, e, false) == string_end(s, e + 1, true));
        assert(string_end(s, e + 1, true) == string_end(s, e + 2, false));
    }
}

/// How many more brackets are opened than closed from `a` up to `b`.
pub open spec fn level(s: Seq<u8>, a: int, b: int, open: u8, close: u8) -> int
    decreases b - a,
{
    if b <= a {
        0
    } else {
        level(s, a, b - 1, open, close) + if s[b - 1] == open {
            1int
        } else if s[b - 1] == close {
            -1
        } else {
            0
        }
    }
}

/// A bracket is closed where as many are closed as were opened, for the first time.
pub proof fn law_brackets_close_where_they_balance(
    s: Seq<u8>,
    start: int,
    j: int,
    open: u8,
    close: u8,
)
    requires
        0 <= start < j < s.len(),
        s[start] == open,
        open != close && open != 0x22 && close != 0x22,
        forall|k: int| start <= k <= j ==> #[trigger] s[k] != 0x22,
        forall|k: int| start < k <= j ==> #[trigger] level(s, start, k, open, close) > 0,
        level(s, start, j + 1, open, close) == 0,
    ensures
        closing_at(s, start, 0, open, close) == Some(j),
        matching_pos(s, start, open, close) == j,
{
    assert(level(s, start, start, open, close) == 0);
    assert(level(s, start, start + 1, open, close) == 1);
    lemma_closes(s, start, start + 1, j, open, close);
}

proof fn lemma_closes(s: Seq<u8>, start: int, i: int, j: int, open: u8, close: u8)
    requires
        0 <= start < i <= j < s.len(),
        open != close && open != 0x22 && close != 0x22,
        forall|k: int| start <= k <= j ==> #[trigger] s[k] != 0x22,
        forall|k: int| start < k <= j ==> #[trigger] level(s, start, k, open, close) > 0,
        level(s, start, j + 1, open, close) == 0,
    ensures
        closing_at(s, i, level(s, start, i, open, close), open, close) == Some(j),
    decreases j - i,
{
    assert(s[i] != 0x22);
    assert(level(s, start, i, open, close) > 0);
    let next = level(s, start, i + 1, open, close);
    if i < j {
        assert(next > 0);
        lemma_closes(s, start, i + 1, j, open, close);
    }
}

/// The argument keys of a tool are those of its `properties`, where its `parameters`
/// have such an object, and otherwise the object-valued ones of the `parameters`
/// themselves; without `parameters` there are none.
pub proof fn law_argument_keys_are_those_of_the_properties(tool: Seq<u8>)
    ensures
        ({
            let params = object_value(tool, encode_utf8("parameters"@));
            let keys = param_keys_of(tool);
            &&& params is None ==> keys.len() == 0
            &&& params is Some ==> match object_value(params->0, encode_utf8("properties"@)) {
                Some(props) => keys == keys_in(props, top_members(props), false),
                None => keys == keys_in(params->0, top_members(params->0), true),
            }
        }),
{
}

} // verus!
