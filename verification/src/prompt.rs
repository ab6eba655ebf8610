//! The chat prompt: its markers, the compaction of tool schemas, and what is
//! cut out of a reply.

use crate::text::{chars_of, find_chars, first_occurrence, lemma_first_occurrence, occurs_at, string_of};
use vstd::prelude::*;
use vstd::string::*;

verus! {

pub const IM_START: &'static str = "<|im_start|>";

pub const IM_END: &'static str = "<|im_end|>";

pub const TOOLS_START: &'static str = "<tools>";

pub const TOOLS_END: &'static str = "</tools>";

pub const TOOL_CALL_START: &'static str = "<tool_call>";

pub const TOOL_CALL_END: &'static str = "</tool_call>";

pub const THINK_START: &'static str = "<think>";

pub const THINK_END: &'static str = "</think>";

/// A character that carries no meaning between JSON tokens.
pub open spec fn is_blank_char(c: char) -> bool {
    c == ' ' || c == '\t' || c == '\n' || c == '\r'
}

/// Where the reader of a JSON text stands.
pub enum Reading {
    /// Between string literals.
    Plain,
    /// In a string literal.
    Quoted,
    /// In a string literal, right behind a backslash.
    Escaped,
}

/// Where the reader stands after one more character.
pub open spec fn read_char(r: Reading, c: char) -> Reading {
    match r {
        Reading::Plain => if c == '"' {
            Reading::Quoted
        } else {
            Reading::Plain
        },
        Reading::Quoted => if c == '\\' {
            Reading::Escaped
        } else if c == '"' {
            Reading::Plain
        } else {
            Reading::Quoted
        },
        Reading::Escaped => Reading::Quoted,
    }
}

/// Where the reader stands after a text.
pub open spec fn read_chars(r: Reading, s: Seq<char>) -> Reading
    decreases s.len(),
{
    if s.len() == 0 {
        r
    } else {
        read_chars(read_char(r, s[0]), s.skip(1))
    }
}

/// The text without the blanks that stand outside string literals.
pub open spec fn compacted(r: Reading, s: Seq<char>) -> Seq<char>
    decreases s.len(),
{
    if s.len() == 0 {
        Seq::empty()
    } else {
        let rest = compacted(read_char(r, s[0]), s.skip(1));
        if r == Reading::Plain && is_blank_char(s[0]) {
            rest
        } else {
            seq![s[0]] + rest
        }
    }
}

/// Strip the blanks of a JSON text that stand outside its string literals.
///
/// The text is not parsed: whatever is not such a blank is kept as it is.
pub fn compact_json(s: &str) -> (r: String)
    ensures
        r@ == compacted(Reading::Plain, s@),
{
    let mut out: String = String::new();
    let mut in_string: bool = false;
    let mut escaped: bool = false;
    let ghost mut at = Reading::Plain;
    proof {
        assert(s@.skip(0) =~= s@);
        assert(Seq::<char>::empty() + compacted(Reading::Plain, s@) =~= compacted(
            Reading::Plain,
            s@,
        ));
    }
    for c in it: s.chars()
        invariant
            it.seq() == s@,
            at == if !in_string {
                Reading::Plain
            } else if escaped {
                Reading::Escaped
            } else {
                Reading::Quoted
            },
            escaped ==> in_string,
            compacted(Reading::Plain, s@) == out@ + compacted(at, s@.skip(it.index() as int)),
    {
        let ghost rest = s@.skip(it.index() as int);
        let ghost before = out@;
        proof {
            assert(rest[0] == c);
            assert(rest.skip(1) =~= s@.skip(it.index() as int + 1));
        }
        if in_string {
            out.push(c);
            if escaped {
                escaped = false;
            } else if c == '\\' {
                escaped = true;
            } else if c == '"' {
                in_string = false;
            }
        } else if c == '"' {
            in_string = true;
            out.push(c);
        } else if c == ' ' || c == '\t' || c == '\n' || c == '\r' {
        } else {
            out.push(c);
        }
        proof {
            let next = read_char(at, c);
            let tail = compacted(next, rest.skip(1));
            assert(before + (seq![c] + tail) =~= before.push(c) + tail);
            at = next;
        }
    }
    proof {
        assert(s@.skip(s@.len() as int).len() == 0);
        assert(out@ + Seq::<char>::empty() =~= out@);
    }
    out
}

/// The chat prompt for a query: an optional system turn, the user turn with the
/// compacted tools, and the opening of the reply.
pub open spec fn prompt_text(query: Seq<char>, tools: Seq<char>, system: Option<Seq<char>>) -> Seq<
    char,
> {
    (match system {
        Some(s) => IM_START@ + "system\n"@ + s + IM_END@ + "\n"@,
        None => Seq::empty(),
    }) + (IM_START@ + "user\n"@ + TOOLS_START@ + compacted(Reading::Plain, tools) + TOOLS_END@
        + "\n"@ + query + IM_END@ + "\n"@) + (IM_START@ + "assistant\n"@)
}

/// Assemble the chat prompt.
pub fn build_prompt(query: &str, tools_json: &str, system: Option<&str>) -> (p: String)
    ensures
        p@ == prompt_text(
            query@,
            tools_json@,
            match system {
                Some(s) => Some(s@),
                None => None,
            },
        ),
{
    let tools = compact_json(tools_json);
    let mut p: String = String::new();
    match system {
        Some(s) => {
            p.append(IM_START);
            p.append("system\n");
            p.append(s);
            p.append(IM_END);
            p.append("\n");
        },
        None => {},
    }
    p.append(IM_START);
    p.append("user\n");
    p.append(TOOLS_START);
    p.append(tools.as_str());
    p.append(TOOLS_END);
    p.append("\n");
    p.append(query);
    p.append(IM_END);
    p.append("\n");
    p.append(IM_START);
    p.append("assistant\n");
    proof {
        assert(p@ =~= prompt_text(
            query@,
            tools_json@,
            match system {
                Some(s) => Some(s@),
                None => None,
            },
        ));
    }
    p
}

/// Compacting goes part by part.
proof fn lemma_compacted_concat(r: Reading, a: Seq<char>, b: Seq<char>)
    ensures
        compacted(r, a + b) == compacted(r, a) + compacted(read_chars(r, a), b),
        read_chars(r, a + b) == read_chars(read_chars(r, a), b),
    decreases a.len(),
{
    if a.len() == 0 {
        assert(a + b =~= b);
        assert(compacted(r, a) + compacted(r, b) =~= compacted(r, b));
    } else {
        let next = read_char(r, a[0]);
        lemma_compacted_concat(next, a.skip(1), b);
        assert((a + b).skip(1) =~= a.skip(1) + b);
        assert((a + b)[0] == a[0]);
        assert(compacted(r, a + b) =~= compacted(r, a) + compacted(read_chars(r, a), b));
    }
}

proof fn lemma_blanks_vanish(w: Seq<char>)
    requires
        forall|i: int| 0 <= i < w.len() ==> is_blank_char(#[trigger] w[i]),
    ensures
        compacted(Reading::Plain, w) == Seq::<char>::empty(),
        read_chars(Reading::Plain, w) == Reading::Plain,
    decreases w.len(),
{
    if w.len() > 0 {
        assert(is_blank_char(w[0]));
        assert forall|i: int| 0 <= i < w.skip(1).len() implies is_blank_char(
            #[trigger] w.skip(1)[i],
        ) by {
            assert(w.skip(1)[i] == w[i + 1]);
        }
        lemma_blanks_vanish(w.skip(1));
    }
}

/// Compacting a compacted text changes nothing.
pub proof fn law_compacting_twice_is_compacting_once(r: Reading, s: Seq<char>)
    ensures
        compacted(r, compacted(r, s)) == compacted(r, s),
    decreases s.len(),
{
    if s.len() > 0 {
        let next = read_char(r, s[0]);
        let rest = compacted(next, s.skip(1));
        law_compacting_twice_is_compacting_once(next, s.skip(1));
        if !(r == Reading::Plain && is_blank_char(s[0])) {
            let out = seq![s[0]] + rest;
            assert(out.skip(1) =~= rest);
        }
    }
}

/// A text whose blanks all stand in string literals is returned unchanged.
pub proof fn law_compact_text_is_kept(r: Reading, s: Seq<char>)
    requires
        forall|i: int|
            0 <= i < s.len() && is_blank_char(#[trigger] s[i]) ==> read_chars(r, s.take(i))
                != Reading::Plain,
    ensures
        compacted(r, s) == s,
    decreases s.len(),
{
    if s.len() > 0 {
        let next = read_char(r, s[0]);
        let rest = s.skip(1);
        assert forall|i: int| 0 <= i < rest.len() && is_blank_char(#[trigger] rest[i]) implies (
        read_chars(next, rest.take(i)) != Reading::Plain) by {
            assert(s[i + 1] == rest[i]);
            assert(s.take(i + 1).skip(1) =~= rest.take(i));
            assert(s.take(i + 1)[0] == s[0]);
        }
        law_compact_text_is_kept(next, rest);
        assert(s.take(0).len() == 0);
        assert(seq![s[0]] + rest =~= s);
    }
}

/// Blanks between JSON tokens do not change the prompt: a schema gives the same
/// prompt however it is laid out.
pub proof fn law_prompt_ignores_schema_layout(
    query: Seq<char>,
    a: Seq<char>,
    blanks: Seq<char>,
    b: Seq<char>,
    system: Option<Seq<char>>,
)
    requires
        read_chars(Reading::Plain, a) == Reading::Plain,
        forall|i: int| 0 <= i < blanks.len() ==> is_blank_char(#[trigger] blanks[i]),
    ensures
        compacted(Reading::Plain, a + blanks + b) == compacted(Reading::Plain, a + b),
        prompt_text(query, a + blanks + b, system) == prompt_text(query, a + b, system),
{
    lemma_compacted_concat(Reading::Plain, a + blanks, b);
    lemma_compacted_concat(Reading::Plain, a, blanks);
    lemma_compacted_concat(Reading::Plain, a, b);
    lemma_blanks_vanish(blanks);
    assert(compacted(Reading::Plain, a) + Seq::<char>::empty() =~= compacted(Reading::Plain, a));
}

/// What stands behind the first `open`, up to the next `close` or to the end.
/// `None` where there is no `open`.
pub open spec fn between(text: Seq<char>, open: Seq<char>, close: Seq<char>) -> Option<Seq<char>> {
    match first_occurrence(text, open, 0) {
        None => None,
        Some(i) => {
            let rest = text.skip(i + open.len());
            match first_occurrence(rest, close, 0) {
                Some(j) => Some(rest.take(j)),
                None => Some(rest),
            }
        },
    }
}

/// Cut out what stands behind the first `open`, up to the next `close` or, where
/// it was never written, to the end.
pub fn extract_between(text: &str, open: &str, close: &str) -> (r: Option<String>)
    ensures
        match between(text@, open@, close@) {
            Some(t) => r is Some && r->0@ == t,
            None => r is None,
        },
{
    let chars = chars_of(text);
    let total: usize = chars.len();
    let open_chars = chars_of(open);
    let close_chars = chars_of(close);
    proof {
        lemma_first_occurrence(text@, open@, 0);
    }
    let start: usize = match find_chars(&chars, &open_chars, 0) {
        Some(i) => i + open_chars.len(),
        None => return None,
    };
    proof {
        lemma_occurrence_behind(text@, close@, start as int, 0);
        lemma_first_occurrence(text@, close@, start as int);
        let rest = text@.skip(start as int);
        assert(text@.subrange(start as int, text@.len() as int) =~= rest);
    }
    let end: usize = match find_chars(&chars, &close_chars, start) {
        Some(j) => j,
        None => total,
    };
    let r = string_of(&chars, start, end);
    proof {
        let rest = text@.skip(start as int);
        assert(r@ =~= rest.take(end - start));
    }
    Some(r)
}

/// Searching behind `start` is searching the rest.
proof fn lemma_occurrence_behind<T>(hay: Seq<T>, needle: Seq<T>, start: int, from: int)
    requires
        0 <= start <= hay.len(),
        0 <= from,
    ensures
        first_occurrence(hay, needle, start + from) == match first_occurrence(
            hay.skip(start),
            needle,
            from,
        ) {
            Some(j) => Some(start + j),
            None => None,
        },
    decreases hay.len() + 1 - from,
{
    let rest = hay.skip(start);
    if from + needle.len() <= rest.len() {
        assert(rest.subrange(from, from + needle.len()) =~= hay.subrange(
            start + from,
            start + from + needle.len(),
        ));
        if !occurs_at(rest, needle, from) {
            lemma_occurrence_behind(hay, needle, start, from + 1);
        }
    }
}

/// Schemas are compacted character by character, each in view of whether it stands in
/// a string: a schema in two parts is one part behind the other.
pub proof fn law_compacting_goes_by_characters(r: Reading, a: Seq<char>, b: Seq<char>)
    ensures
        compacted(r, a + b) == compacted(r, a) + compacted(read_chars(r, a), b),
    decreases a.len(),
{
    if a.len() == 0 {
        assert(a + b =~= b);
        assert(compacted(r, a) + compacted(r, b) =~= compacted(r, b));
    } else {
        let next = read_char(r, a[0]);
        law_compacting_goes_by_characters(next, a.skip(1), b);
        assert((a + b).skip(1) =~= a.skip(1) + b);
        assert((a + b)[0] == a[0]);
        assert(seq![a[0]] + (compacted(next, a.skip(1)) + compacted(read_chars(r, a), b)) =~= (
        seq![a[0]] + compacted(next, a.skip(1))) + compacted(read_chars(r, a), b));
    }
}

/// Of a single character, outside of strings the four blanks go and all else stays;
/// inside of strings everything stays.
pub proof fn law_compacting_drops_blanks_between_tokens(r: Reading, c: char)
    ensures
        r == Reading::Plain && (c == ' ' || c == '\t' || c == '\n' || c == '\r') ==> compacted(
            r,
            seq![c],
        ) == Seq::<char>::empty(),
        r != Reading::Plain || !(c == ' ' || c == '\t' || c == '\n' || c == '\r') ==> compacted(
            r,
            seq![c],
        ) == seq![c],
{
    let one = seq![c];
    assert(one.skip(1) =~= Seq::<char>::empty());
    let rest = compacted(read_char(r, c), one.skip(1));
    assert(rest =~= Seq::<char>::empty());
    assert(seq![c] + rest =~= seq![c]);
}

/// The text is `a`, the first opening marker, `mid`, the next closing marker and `b`.
pub open spec fn encloses(
    text: Seq<char>,
    a: Seq<char>,
    open: Seq<char>,
    mid: Seq<char>,
    close: Seq<char>,
    b: Seq<char>,
) -> bool {
    &&& text == a + open + mid + close + b
    &&& forall|i: int| 0 <= i < a.len() ==> !occurs_at(text, open, i)
    &&& forall|i: int| 0 <= i < mid.len() ==> !occurs_at(mid + close + b, close, i)
}

/// What stands between two markers is taken out as it is: behind the first opening
/// marker, up to the next closing one.
pub proof fn law_what_stands_between_is_taken_out(
    text: Seq<char>,
    a: Seq<char>,
    open: Seq<char>,
    mid: Seq<char>,
    close: Seq<char>,
    b: Seq<char>,
)
    requires
        encloses(text, a, open, mid, close, b),
    ensures
        between(text, open, close) == Some(mid),
{
    let rest = mid + close + b;
    lemma_first_occurrence(text, open, 0);
    let i = a.len() as int;
    assert(text.subrange(i, i + open.len()) =~= open);
    assert(occurs_at(text, open, i));
    assert(first_occurrence(text, open, 0) == Some(i));
    assert(text.skip(i + open.len()) =~= rest);
    lemma_first_occurrence(rest, close, 0);
    let j = mid.len() as int;
    assert(rest.subrange(j, j + close.len()) =~= close);
    assert(occurs_at(rest, close, j));
    assert(first_occurrence(rest, close, 0) == Some(j));
    assert(rest.take(j) =~= mid);
}

/// Without a closing marker everything behind the opening one is taken out, and without
/// an opening one nothing.
pub proof fn law_an_open_end_is_taken_out(
    a: Seq<char>,
    open: Seq<char>,
    rest: Seq<char>,
    close: Seq<char>,
)
    requires
        open.len() > 0,
        forall|i: int| 0 <= i < a.len() ==> !occurs_at(a + open + rest, open, i),
        forall|i: int| 0 <= i <= rest.len() ==> !occurs_at(rest, close, i),
    ensures
        between(a + open + rest, open, close) == Some(rest),
        (forall|i: int| 0 <= i <= rest.len() ==> !occurs_at(rest, open, i)) ==> between(
            rest,
            open,
            close,
        ) is None,
{
    let text = a + open + rest;
    lemma_first_occurrence(text, open, 0);
    let i = a.len() as int;
    assert(text.subrange(i, i + open.len()) =~= open);
    assert(occurs_at(text, open, i));
    assert(first_occurrence(text, open, 0) == Some(i));
    assert(text.skip(i + open.len()) =~= rest);
    lemma_first_occurrence(rest, close, 0);
    lemma_first_occurrence(rest, open, 0);
}

} // verus!
