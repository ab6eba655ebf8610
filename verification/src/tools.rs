//! Tool definitions read from a JSON tool list.

use crate::json_scan::{encodings, json_extract_object, json_extract_string, json_find_matching, json_keys_with_object_values, json_top_level_keys, lemma_closing_at, matching_pos, object_keys, object_value, string_value};
use crate::text::{lemma_after_ascii_boundary, lemma_ascii_boundary, slice_str, string_from_utf8};
use vstd::prelude::*;
use vstd::string::*;
use vstd::utf8::*;

verus! {

/// One declared tool.
pub struct ToolDef {
    pub name: String,
    pub snake_name: String,
    pub param_keys: Vec<String>,
}

/// A tool by the bytes of its texts.
#[verifier::ext_equal]
pub struct ToolModel {
    pub name: Seq<u8>,
    pub snake_name: Seq<u8>,
    pub param_keys: Seq<Seq<u8>>,
}

impl View for ToolDef {
    type V = ToolModel;

    open spec fn view(&self) -> ToolModel {
        ToolModel {
            name: encode_utf8(self.name@),
            snake_name: encode_utf8(self.snake_name@),
            param_keys: encodings(self.param_keys@),
        }
    }
}

/// The views of a list of tools.
pub open spec fn tool_views(tools: Seq<ToolDef>) -> Seq<ToolModel> {
    tools.map_values(|t: ToolDef| t@)
}

/// An ASCII upper-case letter.
pub open spec fn is_upper(b: u8) -> bool {
    0x41 <= b <= 0x5A
}

/// An ASCII lower-case letter or digit.
pub open spec fn is_lower_or_digit(b: u8) -> bool {
    (0x61 <= b <= 0x7A) || (0x30 <= b <= 0x39)
}

/// What the byte `b` becomes in snake case behind the byte `prev`.
pub open spec fn snake_piece(prev: u8, b: u8) -> Seq<u8> {
    if is_upper(b) {
        if is_lower_or_digit(prev) {
            seq![0x5Fu8, (b + 0x20) as u8]
        } else {
            seq![(b + 0x20) as u8]
        }
    } else if b == 0x20 || b == 0x2D {
        seq![0x5Fu8]
    } else {
        seq![b]
    }
}

/// `s` in snake case, where it stands behind the byte `prev`: an upper-case
/// ASCII letter becomes lower case, with a `_` before it where a lower-case
/// letter or a digit precedes it; a space or a `-` becomes `_`.
pub open spec fn snake_bytes(prev: u8, s: Seq<u8>) -> Seq<u8>
    decreases s.len(),
{
    if s.len() == 0 {
        Seq::empty()
    } else {
        snake_piece(prev, s[0]) + snake_bytes(s[0], s.skip(1))
    }
}

proof fn lemma_snake_valid(prev: u8, s: Seq<u8>)
    requires
        valid_utf8(s),
    ensures
        valid_utf8(snake_bytes(prev, s)),
    decreases s.len(),
{
    if s.len() > 0 {
        let n = length_of_first_scalar(s);
        let rest = pop_first_scalar(s);
        if n == 1 {
            assert(rest =~= s.skip(1));
            lemma_snake_valid(s[0], rest);
            let piece = snake_piece(prev, s[0]);
            lemma_ascii_valid(piece);
            valid_utf8_concat(piece, snake_bytes(s[0], rest));
        } else {
            lemma_snake_valid(s[n - 1], rest);
            lemma_snake_high(prev, s, n);
            assert(s.skip(n) =~= rest);
            let head = s.take(n);
            assert(head =~= take_first_scalar(s));
            assert(valid_utf8(head)) by {
                lemma_boundary_after_first(s);
                valid_utf8_split(s, n);
                assert(s.subrange(0, n) =~= head);
            }
            valid_utf8_concat(head, snake_bytes(s[n - 1], rest));
        }
    }
}

proof fn lemma_boundary_after_first(s: Seq<u8>)
    requires
        valid_utf8(s),
        s.len() > 0,
    ensures
        is_char_boundary(s, length_of_first_scalar(s)),
{
    reveal_with_fuel(is_char_boundary, 2);
}

proof fn lemma_ascii_valid(s: Seq<u8>)
    requires
        forall|i: int| 0 <= i < s.len() ==> s[i] < 0x80,
    ensures
        valid_utf8(s),
    decreases s.len(),
{
    if s.len() > 0 {
        let rest = pop_first_scalar(s);
        assert(rest =~= s.skip(1));
        assert(s[0] < 0x80);
        lemma_ascii_valid(rest);
        let b = s[0];
        assert(b < 0x80 ==> b & 0x7F == b) by (bit_vector);
    }
}

proof fn lemma_snake_high(prev: u8, s: Seq<u8>, n: int)
    requires
        1 <= n <= s.len(),
        forall|i: int| 0 <= i < n ==> s[i] >= 0x80,
    ensures
        snake_bytes(prev, s) == s.take(n) + snake_bytes(s[n - 1], s.skip(n)),
    decreases n,
{
    if n == 1 {
        assert(s.take(1) =~= seq![s[0]]);
    } else {
        lemma_snake_high(s[0], s.skip(1), n - 1);
        assert(s.skip(1).skip(n - 1) =~= s.skip(n));
        assert(snake_bytes(prev, s) =~= s.take(n) + snake_bytes(s[n - 1], s.skip(n)));
    }
}

/// `name` in snake case. Text that has no upper-case ASCII letter, space or
/// `-` is returned as it is.
pub fn to_snake_case(name: &str) -> (r: String)
    ensures
        encode_utf8(r@) == snake_bytes(0, encode_utf8(name@)),
{
    let bytes = name.as_bytes();
    let ghost s = bytes@;
    let mut out: Vec<u8> = Vec::new();
    let mut prev: u8 = 0;
    let mut i: usize = 0;
    proof {
        assert(s.skip(0) =~= s);
        assert(out@ + snake_bytes(0, s) =~= snake_bytes(0, s));
    }
    while i < bytes.len()
        invariant
            i <= bytes@.len(),
            s == bytes@,
            snake_bytes(0, s) == out@ + snake_bytes(prev, s.skip(i as int)),
        decreases bytes@.len() - i,
    {
        let b: u8 = bytes[i];
        let ghost before = out@;
        if 0x41 <= b && b <= 0x5A {
            if (0x61 <= prev && prev <= 0x7A) || (0x30 <= prev && prev <= 0x39) {
                out.push(0x5F);
            }
            out.push(b + 0x20);
        } else if b == 0x20 || b == 0x2D {
            out.push(0x5F);
        } else {
            out.push(b);
        }
        proof {
            assert(s.skip(i as int).skip(1) =~= s.skip(i + 1));
            assert(out@ =~= before + snake_piece(prev, b));
            let rest = snake_bytes(b, s.skip(i + 1));
            assert(before + (snake_piece(prev, b) + rest) =~= out@ + rest);
        }
        prev = b;
        i = i + 1;
    }
    proof {
        assert(s.skip(i as int).len() == 0);
        assert(out@ + Seq::<u8>::empty() =~= out@);
        encode_utf8_valid_utf8(name@);
        lemma_snake_valid(0, s);
    }
    match string_from_utf8(out) {
        Some(r) => r,
        None => String::new(),
    }
}

/// A name that has nothing to convert is its own snake case.
pub proof fn law_snake_case_keeps_snake_names(prev: u8, s: Seq<u8>)
    requires
        forall|i: int| 0 <= i < s.len() ==> !is_upper(s[i]) && s[i] != 0x20 && s[i] != 0x2D,
    ensures
        snake_bytes(prev, s) == s,
    decreases s.len(),
{
    if s.len() > 0 {
        law_snake_case_keeps_snake_names(s[0], s.skip(1));
        assert(snake_bytes(prev, s) =~= s);
    } else {
        assert(snake_bytes(prev, s) =~= s);
    }
}

/// The argument keys of a tool: the keys of `parameters.properties` where
/// `parameters` has a member `properties` that is an object, and otherwise those
/// keys of `parameters` whose value is an object.
pub open spec fn param_keys_of(tool: Seq<u8>) -> Seq<Seq<u8>> {
    match object_value(tool, encode_utf8("parameters"@)) {
        Some(params) => match object_value(params, encode_utf8("properties"@)) {
            Some(props) => object_keys(props, false),
            None => object_keys(params, true),
        },
        None => Seq::empty(),
    }
}

/// The argument keys of a tool object.
pub fn extract_param_keys(tool_obj: &str) -> (keys: Vec<String>)
    ensures
        encodings(keys@) == param_keys_of(encode_utf8(tool_obj@)),
{
    let params = match json_extract_object(tool_obj, "parameters") {
        Some(p) => p,
        None => {
            let keys: Vec<String> = Vec::new();
            assert(encodings(keys@) =~= Seq::<Seq<u8>>::empty());
            return keys;
        },
    };
    match json_extract_object(params.as_str(), "properties") {
        Some(props) => json_top_level_keys(props.as_str()),
        None => json_keys_with_object_values(params.as_str()),
    }
}

/// The tool that an object with a name declares.
pub open spec fn named_tool(obj: Seq<u8>) -> Option<ToolModel> {
    match string_value(obj, encode_utf8("name"@)) {
        Some(name) => Some(
            ToolModel {
                name,
                snake_name: snake_bytes(0, name),
                param_keys: param_keys_of(obj),
            },
        ),
        None => None,
    }
}

/// The tool that an object text declares: itself where it has a name, or else
/// through its member `function`, as in `{"type":"function","function":{...}}`.
/// One without a name declares none.
pub open spec fn tool_of(obj: Seq<u8>) -> Option<ToolModel> {
    match named_tool(obj) {
        Some(t) => Some(t),
        None => match object_value(obj, encode_utf8("function"@)) {
            Some(f) => named_tool(f),
            None => None,
        },
    }
}

fn read_named_tool(obj: &str) -> (r: Option<ToolDef>)
    ensures
        match named_tool(encode_utf8(obj@)) {
            Some(t) => r is Some && r->0@ == t,
            None => r is None,
        },
{
    match json_extract_string(obj, "name") {
        Some(name) => {
            let snake_name = to_snake_case(name.as_str());
            let param_keys = extract_param_keys(obj);
            Some(ToolDef { name, snake_name, param_keys })
        },
        None => None,
    }
}

/// Read one tool object.
pub fn parse_single_tool(obj: &str) -> (r: Option<ToolDef>)
    ensures
        match tool_of(encode_utf8(obj@)) {
            Some(t) => r is Some && r->0@ == t,
            None => r is None,
        },
{
    match read_named_tool(obj) {
        Some(t) => Some(t),
        None => match json_extract_object(obj, "function") {
            Some(f) => read_named_tool(f.as_str()),
            None => None,
        },
    }
}

/// The first `[` or `{` at or behind `i`.
pub open spec fn list_open(s: Seq<u8>, i: int) -> int
    decreases s.len() - i,
{
    if 0 <= i < s.len() && s[i] != 0x5B && s[i] != 0x7B {
        list_open(s, i + 1)
    } else {
        i
    }
}

/// The tools that the objects from position `i` on declare, in order, up to
/// the first `]` between two objects.
pub open spec fn tools_from(s: Seq<u8>, i: int) -> Seq<ToolModel>
    decreases s.len() - i,
{
    if i < 0 || i >= s.len() || s[i] == 0x5D {
        Seq::empty()
    } else if s[i] != 0x7B {
        tools_from(s, i + 1)
    } else {
        let e = matching_pos(s, i, 0x7B, 0x7D);
        if e < i || e >= s.len() {
            Seq::empty()
        } else {
            match tool_of(s.subrange(i, e + 1)) {
                Some(t) => seq![t] + tools_from(s, e + 1),
                None => tools_from(s, e + 1),
            }
        }
    }
}

/// The tools of a tool list, or of a bare tool object.
pub open spec fn tools_of(s: Seq<u8>) -> Seq<ToolModel> {
    let i = list_open(s, 0);
    if i < s.len() && s[i] == 0x5B {
        tools_from(s, i + 1)
    } else {
        tools_from(s, i)
    }
}

/// Read a JSON tool list. Objects without a name are passed over.
pub fn parse_tools_json(json: &str) -> (tools: Vec<ToolDef>)
    ensures
        tool_views(tools@) == tools_of(encode_utf8(json@)),
{
    let bytes = json.as_bytes();
    let ghost s = bytes@;
    let mut tools: Vec<ToolDef> = Vec::new();
    let mut i: usize = 0;
    proof {
        encode_utf8_valid_utf8(json@);
        assert(tool_views(tools@) =~= Seq::<ToolModel>::empty());
    }
    while i < bytes.len() && bytes[i] != 0x5B && bytes[i] != 0x7B
        invariant
            i <= bytes@.len(),
            s == bytes@,
            list_open(s, 0) == list_open(s, i as int),
        decreases bytes@.len() - i,
    {
        i = i + 1;
    }
    if i >= bytes.len() {
        return tools;
    }
    if bytes[i] == 0x5B {
        i = i + 1;
    }
    proof {
        assert(tool_views(tools@) + tools_from(s, i as int) =~= tools_from(s, i as int));
    }
    while i < bytes.len() && bytes[i] != 0x5D
        invariant
            i <= bytes@.len(),
            s == bytes@,
            s == encode_utf8(json@),
            valid_utf8(s),
            tools_of(s) == tool_views(tools@) + tools_from(s, i as int),
        decreases bytes@.len() - i,
    {
        if bytes[i] != 0x7B {
            i = i + 1;
            continue;
        }
        let obj_end: usize = json_find_matching(bytes, i, 0x7B, 0x7D);
        proof {
            lemma_closing_at(s, i as int, 0, 0x7B, 0x7D);
            lemma_ascii_boundary(s, i as int);
            if obj_end + 1 < s.len() {
                lemma_after_ascii_boundary(s, obj_end as int);
            }
            lemma_ascii_boundary(s, s.len() as int);
        }
        let obj_str = slice_str(json, i, obj_end + 1);
        match parse_single_tool(obj_str) {
            Some(tool) => {
                proof {
                    let rest = tools_from(s, obj_end + 1);
                    assert(tool_views(tools@.push(tool)) =~= tool_views(tools@).push(tool@));
                    assert(tool_views(tools@) + (seq![tool@] + rest) =~= tool_views(tools@).push(
                        tool@,
                    ) + rest);
                }
                tools.push(tool);
            },
            None => {},
        }
        i = obj_end + 1;
    }
    proof {
        assert(tools_from(s, i as int) =~= Seq::<ToolModel>::empty());
        assert(tool_views(tools@) + Seq::<ToolModel>::empty() =~= tool_views(tools@));
    }
    tools
}

impl ToolDef {
    /// Read a JSON tool list.
    pub fn from_json(json: &str) -> (tools: Vec<ToolDef>)
        ensures
            tool_views(tools@) == tools_of(encode_utf8(json@)),
    {
        parse_tools_json(json)
    }
}

/// Names are put in snake case byte by byte, each in view of the byte before it: a
/// name in two parts is one part behind the other.
pub proof fn law_snake_case_goes_byte_by_byte(prev: u8, a: Seq<u8>, b: Seq<u8>)
    ensures
        snake_bytes(prev, a + b) == snake_bytes(prev, a) + snake_bytes(
            if a.len() == 0 {
                prev
            } else {
                a.last()
            },
            b,
        ),
    decreases a.len(),
{
    if a.len() == 0 {
        assert(a + b =~= b);
        assert(snake_bytes(prev, a) + snake_bytes(prev, b) =~= snake_bytes(prev, b));
    } else {
        law_snake_case_goes_byte_by_byte(a[0], a.skip(1), b);
        assert((a + b).skip(1) =~= a.skip(1) + b);
        assert((a + b)[0] == a[0]);
        let last = if a.skip(1).len() == 0 {
            a[0]
        } else {
            a.skip(1).last()
        };
        assert(last == a.last());
        assert(snake_piece(prev, a[0]) + (snake_bytes(a[0], a.skip(1)) + snake_bytes(last, b))
            =~= (snake_piece(prev, a[0]) + snake_bytes(a[0], a.skip(1))) + snake_bytes(last, b));
    }
}

/// A single byte in snake case: `A` to `Z` become `a` to `z`, behind a `_` where `a` to
/// `z` or a digit stands before; a space and a `-` become `_`; all else stays.
pub proof fn law_snake_case_of_a_byte(prev: u8, b: u8)
    ensures
        0x41 <= b <= 0x5A && ((0x61 <= prev <= 0x7A) || (0x30 <= prev <= 0x39)) ==> snake_bytes(
            prev,
            seq![b],
        ) == seq![0x5Fu8, (b + 32) as u8],
        0x41 <= b <= 0x5A && !((0x61 <= prev <= 0x7A) || (0x30 <= prev <= 0x39)) ==> snake_bytes(
            prev,
            seq![b],
        ) == seq![(b + 32) as u8],
        b == 0x20 || b == 0x2D ==> snake_bytes(prev, seq![b]) == seq![0x5Fu8],
        !(0x41 <= b <= 0x5A) && b != 0x20 && b != 0x2D ==> snake_bytes(prev, seq![b]) == seq![b],
{
    let one = seq![b];
    assert(one.skip(1) =~= Seq::<u8>::empty());
    assert(snake_bytes(b, one.skip(1)) =~= Seq::<u8>::empty());
    assert(snake_bytes(prev, one) =~= snake_piece(prev, b));
}

/// The name of a tool is put in snake case as a whole, from its first byte.
pub proof fn law_tools_go_by_their_snake_names(obj: Seq<u8>)
    ensures
        named_tool(obj) matches Some(t) ==> t.snake_name == snake_bytes(0, t.name),
{
}

} // verus!
