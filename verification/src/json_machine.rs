//! A byte-level state machine over compact tool-call JSON.
//!
//! The expected output has the form
//! `[{"name":"tool_name","arguments":{"key1":value1,...}}]` without spaces.
//! Two kinds of span are of interest: the tool name behind `"name":"`, outside
//! an arguments object, and an argument key behind `{"` or `,"` at the depth of
//! the arguments object. Either span ends at the next `"`.

use crate::lossy::{lemma_front, lossy_text, text_of_bytes};
use crate::text::{ends_with, has_suffix};
use vstd::prelude::*;
use vstd::string::*;
use vstd::utf8::*;

verus! {

/// Where the machine stands.
#[derive(Debug, Clone, Copy, PartialEq, Eq, Structural)]
pub enum JsonState {
    Free,
    InName,
    InArgKey,
}

/// How many bytes of recent output the trigger patterns can reach back.
pub const TAIL_LEN: usize = 13;

/// `"name":"`, which opens a tool name.
pub open spec fn name_trigger() -> Seq<u8> {
    encode_utf8("\"name\":\""@)
}

/// `"arguments":{`, which opens an arguments object.
pub open spec fn args_trigger() -> Seq<u8> {
    encode_utf8("\"arguments\":{"@)
}

/// The mathematical state of the machine.
#[verifier::ext_equal]
pub struct JsonModel {
    pub state: JsonState,
    pub current_function: Seq<char>,
    pub constrained_buf: Seq<u8>,
    pub used_arg_keys: Seq<Seq<char>>,
    pub in_arguments: bool,
    pub arguments_depth: int,
    pub nesting_depth: int,
    pub in_string: bool,
    pub prev_char_escape: bool,
    pub tail: Seq<u8>,
}

/// The last `keep` elements of `s`, or all of it where it is shorter.
pub open spec fn last_bytes(s: Seq<u8>, keep: int) -> Seq<u8> {
    if s.len() <= keep {
        s
    } else {
        s.subrange(s.len() - keep, s.len() as int)
    }
}

/// `{"` or `,"` ends the output.
pub open spec fn at_key_start(tail: Seq<u8>) -> bool {
    &&& tail.len() >= 2
    &&& tail[tail.len() - 2] == 0x7B || tail[tail.len() - 2] == 0x2C
    &&& tail[tail.len() - 1] == 0x22
}

/// The byte before the last one is `:`.
pub open spec fn behind_colon(tail: Seq<u8>) -> bool {
    tail.len() >= 2 && tail[tail.len() - 2] == 0x3A
}

/// Depth one level further in; the counter stops at its limit.
pub open spec fn deeper(depth: int) -> int {
    if depth < usize::MAX {
        depth + 1
    } else {
        depth
    }
}

/// Depth one level further out, never below zero.
pub open spec fn shallower(depth: int) -> int {
    if depth > 0 {
        depth - 1
    } else {
        0
    }
}

/// The keys written so far, with one more. A key is kept once; an empty key is
/// not recorded.
pub open spec fn with_key(used: Seq<Seq<char>>, key: Seq<u8>) -> Seq<Seq<char>> {
    if key.len() > 0 && !used.contains(lossy_text(key)) {
        used.push(lossy_text(key))
    } else {
        used
    }
}

/// One byte inside a value string: only an unescaped `"` leaves it.
pub open spec fn string_step(m: JsonModel, b: u8) -> JsonModel {
    if m.prev_char_escape {
        JsonModel { prev_char_escape: false, ..m }
    } else if b == 0x5C {
        JsonModel { prev_char_escape: true, ..m }
    } else if b == 0x22 {
        JsonModel { in_string: false, ..m }
    } else {
        m
    }
}

/// One byte that closes a bracket.
pub open spec fn close_step(m: JsonModel, b: u8) -> JsonModel {
    let depth = shallower(m.nesting_depth);
    JsonModel {
        nesting_depth: depth,
        in_arguments: m.in_arguments && !(b == 0x7D && depth < m.arguments_depth),
        ..m
    }
}

/// Which span, if any, the output in `m.tail` has just opened.
pub open spec fn open_step(m: JsonModel, b: u8) -> JsonModel {
    if !m.in_arguments && has_suffix(m.tail, name_trigger()) {
        JsonModel {
            state: JsonState::InName,
            constrained_buf: Seq::empty(),
            used_arg_keys: Seq::empty(),
            ..m
        }
    } else if has_suffix(m.tail, args_trigger()) {
        JsonModel { in_arguments: true, arguments_depth: m.nesting_depth, ..m }
    } else if m.in_arguments && m.nesting_depth == m.arguments_depth && at_key_start(m.tail) {
        JsonModel { state: JsonState::InArgKey, constrained_buf: Seq::empty(), ..m }
    } else if b == 0x22 && behind_colon(m.tail) {
        JsonModel { in_string: true, ..m }
    } else {
        m
    }
}

/// One byte of output, with a memory of `keep` bytes of output outside the
/// constrained spans.
pub open spec fn step_keeping(m: JsonModel, b: u8, keep: int) -> JsonModel {
    match m.state {
        JsonState::InName => if b == 0x22 {
            JsonModel {
                state: JsonState::Free,
                current_function: lossy_text(m.constrained_buf),
                constrained_buf: Seq::empty(),
                ..m
            }
        } else {
            JsonModel { constrained_buf: m.constrained_buf.push(b), ..m }
        },
        JsonState::InArgKey => if b == 0x22 {
            JsonModel {
                state: JsonState::Free,
                used_arg_keys: with_key(m.used_arg_keys, m.constrained_buf),
                constrained_buf: Seq::empty(),
                ..m
            }
        } else {
            JsonModel { constrained_buf: m.constrained_buf.push(b), ..m }
        },
        JsonState::Free => {
            let n = JsonModel { tail: last_bytes(m.tail.push(b), keep), ..m };
            if n.in_string {
                string_step(n, b)
            } else if b == 0x7D || b == 0x5D {
                close_step(n, b)
            } else if b == 0x7B || b == 0x5B {
                open_step(JsonModel { nesting_depth: deeper(n.nesting_depth), ..n }, b)
            } else {
                open_step(n, b)
            }
        },
    }
}

/// One byte of output.
pub open spec fn json_step(m: JsonModel, b: u8) -> JsonModel {
    step_keeping(m, b, TAIL_LEN as int)
}

/// A run of output bytes, with a memory of `keep` bytes.
pub open spec fn feed_keeping(m: JsonModel, text: Seq<u8>, keep: int) -> JsonModel
    decreases text.len(),
{
    if text.len() == 0 {
        m
    } else {
        step_keeping(feed_keeping(m, text.drop_last(), keep), text.last(), keep)
    }
}

/// A run of output bytes.
pub open spec fn json_feed(m: JsonModel, text: Seq<u8>) -> JsonModel {
    feed_keeping(m, text, TAIL_LEN as int)
}

/// The state before any output.
pub open spec fn json_start() -> JsonModel {
    JsonModel {
        state: JsonState::Free,
        current_function: Seq::empty(),
        constrained_buf: Seq::empty(),
        used_arg_keys: Seq::empty(),
        in_arguments: false,
        arguments_depth: 0,
        nesting_depth: 0,
        in_string: false,
        prev_char_escape: false,
        tail: Seq::empty(),
    }
}

/// The views of a vector of strings.
pub open spec fn views(v: Seq<String>) -> Seq<Seq<char>> {
    v.map_values(|s: String| s@)
}

/// Tracks the position in compact tool-call JSON.
///
/// `in_string` follows value strings only, those opened by `:"`; key strings
/// are not tracked.
pub struct JsonStateMachine {
    pub state: JsonState,
    /// Tool name captured when a name span closed.
    pub current_function: String,
    /// Bytes of the constrained span that is open.
    pub constrained_buf: Vec<u8>,
    /// Argument keys already written in the current call.
    pub used_arg_keys: Vec<String>,
    /// Inside an arguments object.
    pub in_arguments: bool,
    /// Bracket depth of that object.
    pub arguments_depth: usize,
    /// Current bracket depth.
    pub nesting_depth: usize,
    /// Inside a value string.
    pub in_string: bool,
    /// The last byte of that string was an unescaped backslash.
    pub prev_char_escape: bool,
    /// The last `TAIL_LEN` bytes of output outside the constrained spans.
    pub tail: Vec<u8>,
}

impl View for JsonStateMachine {
    type V = JsonModel;

    open spec fn view(&self) -> JsonModel {
        JsonModel {
            state: self.state,
            current_function: self.current_function@,
            constrained_buf: self.constrained_buf@,
            used_arg_keys: views(self.used_arg_keys@),
            in_arguments: self.in_arguments,
            arguments_depth: self.arguments_depth as int,
            nesting_depth: self.nesting_depth as int,
            in_string: self.in_string,
            prev_char_escape: self.prev_char_escape,
            tail: self.tail@,
        }
    }
}

/// No recorded key is empty.
pub open spec fn no_empty_key(m: JsonModel) -> bool {
    forall|i: int| 0 <= i < m.used_arg_keys.len() ==> (#[trigger] m.used_arg_keys[i]).len() > 0
}

/// Whether `key` is among `keys`.
pub fn contains_string(keys: &Vec<String>, key: &String) -> (r: bool)
    ensures
        r == views(keys@).contains(key@),
{
    let mut i: usize = 0;
    while i < keys.len()
        invariant
            i <= keys.len(),
            forall|j: int| 0 <= j < i ==> (#[trigger] keys@[j])@ != key@,
        decreases keys.len() - i,
    {
        if keys[i] == *key {
            assert(views(keys@)[i as int] == key@);
            return true;
        }
        i = i + 1;
    }
    proof {
        if views(keys@).contains(key@) {
            let j = choose|j: int| 0 <= j < views(keys@).len() && views(keys@)[j] == key@;
            assert(keys@[j]@ == key@);
        }
    }
    false
}

impl JsonStateMachine {
    /// The machine before any output.
    pub fn new() -> (sm: Self)
        ensures
            sm@ == json_start(),
    {
        let sm = JsonStateMachine {
            state: JsonState::Free,
            current_function: String::new(),
            constrained_buf: Vec::new(),
            used_arg_keys: Vec::new(),
            in_arguments: false,
            arguments_depth: 0,
            nesting_depth: 0,
            in_string: false,
            prev_char_escape: false,
            tail: Vec::new(),
        };
        assert(sm@ =~= json_start());
        sm
    }

    /// Feed one decoded byte of output. No empty key is ever recorded.
    pub fn feed_byte(&mut self, b: u8)
        ensures
            final(self)@ == json_step(old(self)@, b),
            no_empty_key(old(self)@) ==> no_empty_key(final(self)@),
    {
        let ghost start = self@;
        match self.state {
            JsonState::InName => {
                if b == 0x22 {
                    self.current_function = text_of_bytes(self.constrained_buf.as_slice());
                    self.constrained_buf.clear();
                    self.state = JsonState::Free;
                } else {
                    self.constrained_buf.push(b);
                }
                return;
            },
            JsonState::InArgKey => {
                if b == 0x22 {
                    if self.constrained_buf.len() > 0 {
                        let key = text_of_bytes(self.constrained_buf.as_slice());
                        if !contains_string(&self.used_arg_keys, &key) {
                            let ghost keys = self.used_arg_keys@;
                            self.used_arg_keys.push(key);
                            assert(views(keys.push(key)) =~= views(keys).push(key@));
                        }
                    }
                    self.constrained_buf.clear();
                    self.state = JsonState::Free;
                } else {
                    self.constrained_buf.push(b);
                }
                return;
            },
            JsonState::Free => {},
        }
        self.push_tail(b);
        if self.in_string {
            if self.prev_char_escape {
                self.prev_char_escape = false;
                return;
            }
            if b == 0x5C {
                self.prev_char_escape = true;
                return;
            }
            if b == 0x22 {
                self.in_string = false;
            }
            return;
        }
        if b == 0x7B || b == 0x5B {
            self.nesting_depth = self.nesting_depth.saturating_add(1);
        } else if b == 0x7D || b == 0x5D {
            self.nesting_depth = self.nesting_depth.saturating_sub(1);
            if b == 0x7D && self.in_arguments && self.nesting_depth < self.arguments_depth {
                self.in_arguments = false;
            }
            return;
        }
        if !self.in_arguments && ends_with(self.tail.as_slice(), "\"name\":\"".as_bytes()) {
            self.state = JsonState::InName;
            self.constrained_buf.clear();
            self.used_arg_keys.clear();
            assert(views(self.used_arg_keys@) =~= Seq::<Seq<char>>::empty());
            return;
        }
        if ends_with(self.tail.as_slice(), "\"arguments\":{".as_bytes()) {
            self.in_arguments = true;
            self.arguments_depth = self.nesting_depth;
            return;
        }
        if self.in_arguments && self.nesting_depth == self.arguments_depth
            && self.at_arg_key_start() {
            self.state = JsonState::InArgKey;
            self.constrained_buf.clear();
            return;
        }
        if b == 0x22 && self.is_value_quote() {
            self.in_string = true;
        }
    }

    /// Feed a run of output bytes. No empty key is ever recorded.
    pub fn feed(&mut self, text: &[u8])
        ensures
            final(self)@ == json_feed(old(self)@, text@),
            no_empty_key(old(self)@) ==> no_empty_key(final(self)@),
    {
        let mut i: usize = 0;
        while i < text.len()
            invariant
                i <= text.len(),
                self@ == json_feed(old(self)@, text@.take(i as int)),
                no_empty_key(old(self)@) ==> no_empty_key(self@),
            decreases text.len() - i,
        {
            proof {
                assert(text@.take(i + 1).drop_last() =~= text@.take(i as int));
                assert(text@.take(i + 1).last() == text@[i as int]);
            }
            self.feed_byte(text[i]);
            i = i + 1;
        }
        proof {
            assert(text@.take(text@.len() as int) =~= text@);
        }
    }

    fn push_tail(&mut self, b: u8)
        ensures
            final(self)@ == (JsonModel {
                tail: last_bytes(old(self)@.tail.push(b), TAIL_LEN as int),
                ..old(self)@
            }),
    {
        self.tail.push(b);
        if self.tail.len() > TAIL_LEN {
            let cut: usize = self.tail.len() - TAIL_LEN;
            let rest = self.tail.split_off(cut);
            self.tail = rest;
        }
    }

    fn at_arg_key_start(&self) -> (r: bool)
        ensures
            r == at_key_start(self@.tail),
    {
        let n: usize = self.tail.len();
        if n < 2 {
            return false;
        }
        (self.tail[n - 2] == 0x7B || self.tail[n - 2] == 0x2C) && self.tail[n - 1] == 0x22
    }

    fn is_value_quote(&self) -> (r: bool)
        ensures
            r == behind_colon(self@.tail),
    {
        let n: usize = self.tail.len();
        n >= 2 && self.tail[n - 2] == 0x3A
    }
}

impl Default for JsonStateMachine {
    fn default() -> (sm: Self)
        ensures
            sm@ == json_start(),
    {
        JsonStateMachine::new()
    }
}

/// Feeding two runs one behind the other is feeding their concatenation, so it
/// does not matter how output is cut into tokens.
pub proof fn law_feed_concat(m: JsonModel, a: Seq<u8>, b: Seq<u8>)
    ensures
        json_feed(m, a + b) == json_feed(json_feed(m, a), b),
    decreases b.len(),
{
    if b.len() == 0 {
        assert(a + b =~= a);
    } else {
        law_feed_concat(m, a, b.drop_last());
        assert((a + b).drop_last() =~= a + b.drop_last());
    }
}

/// The state but for the remembered output.
pub open spec fn without_tail(m: JsonModel) -> JsonModel {
    JsonModel { tail: Seq::empty(), ..m }
}

proof fn lemma_triggers()
    ensures
        name_trigger().len() == 8,
        args_trigger().len() == 13,
{
    reveal_strlit("\"name\":\"");
    reveal_strlit("\"arguments\":{");
    is_ascii_chars_encode_utf8("\"name\":\""@);
    is_ascii_chars_encode_utf8("\"arguments\":{"@);
}

proof fn lemma_suffix_of_last(s: Seq<u8>, pat: Seq<u8>, keep: int)
    requires
        pat.len() <= keep,
    ensures
        has_suffix(last_bytes(s, keep), pat) == has_suffix(s, pat),
{
    let t = last_bytes(s, keep);
    if pat.len() <= s.len() {
        assert(t.subrange(t.len() - pat.len(), t.len() as int) =~= s.subrange(
            s.len() - pat.len(),
            s.len() as int,
        ));
    }
}

/// Remembering the last `TAIL_LEN` bytes is as good as remembering any larger
/// part of the output, all of it included: whatever the text, the machine ends
/// in the same state.
pub proof fn law_short_tail_suffices(text: Seq<u8>, keep: int)
    requires
        keep >= TAIL_LEN,
    ensures
        without_tail(feed_keeping(json_start(), text, keep)) == without_tail(
            json_feed(json_start(), text),
        ),
        json_feed(json_start(), text).tail == last_bytes(
            feed_keeping(json_start(), text, keep).tail,
            TAIL_LEN as int,
        ),
    decreases text.len(),
{
    if text.len() > 0 {
        law_short_tail_suffices(text.drop_last(), keep);
        let b = text.last();
        let short = json_feed(json_start(), text.drop_last());
        let long = feed_keeping(json_start(), text.drop_last(), keep);
        let st = last_bytes(short.tail.push(b), TAIL_LEN as int);
        let lt = last_bytes(long.tail.push(b), keep);
        assert(st =~= last_bytes(lt, TAIL_LEN as int));
        lemma_triggers();
        lemma_suffix_of_last(lt, name_trigger(), TAIL_LEN as int);
        lemma_suffix_of_last(lt, args_trigger(), TAIL_LEN as int);
        assert(at_key_start(st) == at_key_start(lt));
        assert(behind_colon(st) == behind_colon(lt));
    }
}

/// The recorded argument keys never repeat, and the remembered output never
/// outgrows `TAIL_LEN`.
pub proof fn law_used_keys_distinct(text: Seq<u8>)
    ensures
        json_feed(json_start(), text).used_arg_keys.no_duplicates(),
        json_feed(json_start(), text).tail.len() <= TAIL_LEN,
    decreases text.len(),
{
    if text.len() > 0 {
        law_used_keys_distinct(text.drop_last());
    }
}

/// A byte that opens a tool name starts the new call with no key recorded.
pub proof fn law_new_call_clears_used_keys(m: JsonModel, b: u8)
    requires
        m.state != JsonState::InName,
        json_step(m, b).state == JsonState::InName,
    ensures
        json_step(m, b).used_arg_keys.len() == 0,
        json_step(m, b).constrained_buf.len() == 0,
{
}

/// Between spans nothing is kept of one, and an open span never holds a `"`.
pub proof fn law_open_spans_hold_no_quote(text: Seq<u8>)
    ensures
        ({
            let m = json_feed(json_start(), text);
            &&& m.state == JsonState::Free ==> m.constrained_buf.len() == 0
            &&& forall|i: int|
                0 <= i < m.constrained_buf.len() ==> #[trigger] m.constrained_buf[i] != 0x22
        }),
    decreases text.len(),
{
    if text.len() > 0 {
        law_open_spans_hold_no_quote(text.drop_last());
    }
}

/// The current function changes only with the `"` that closes a name, and becomes
/// that name.
pub proof fn law_function_changes_as_a_name_closes(m: JsonModel, b: u8)
    ensures
        json_step(m, b).current_function != m.current_function ==> m.state == JsonState::InName
            && b == 0x22 && json_step(m, b).state == JsonState::Free && json_step(
            m,
            b,
        ).current_function == lossy_text(m.constrained_buf),
{
}

/// The recorded keys change only with the `"` that closes a key, which may add
/// that one, and where a name opens, which forgets them all.
pub proof fn law_keys_change_as_a_key_closes(m: JsonModel, b: u8)
    ensures
        json_step(m, b).used_arg_keys != m.used_arg_keys ==> {
            ||| {
                &&& m.state == JsonState::InArgKey
                &&& b == 0x22
                &&& m.constrained_buf.len() > 0
                &&& json_step(m, b).used_arg_keys == m.used_arg_keys.push(
                    lossy_text(m.constrained_buf),
                )
            }
            ||| {
                &&& m.state == JsonState::Free
                &&& json_step(m, b).state == JsonState::InName
                &&& json_step(m, b).used_arg_keys.len() == 0
            }
        },
{
}

/// `key` is what some bytes read as that were written as a key. They are not
/// empty, and where they begin with a well-formed character neither is the key.
pub open spec fn is_written_key(key: Seq<char>) -> bool {
    exists|bytes: Seq<u8>|
        #![trigger lossy_text(bytes)]
        key == lossy_text(bytes) && bytes.len() > 0 && (valid_first_scalar(bytes) ==> key.len() > 0)
}

/// Every recorded key was written: none was recorded of an empty one.
pub proof fn law_recorded_keys_were_written(text: Seq<u8>, i: int)
    requires
        0 <= i < json_feed(json_start(), text).used_arg_keys.len(),
    ensures
        is_written_key(json_feed(json_start(), text).used_arg_keys[i]),
    decreases text.len(),
{
    if text.len() > 0 {
        let m = json_feed(json_start(), text.drop_last());
        let b = text.last();
        law_keys_change_as_a_key_closes(m, b);
        if i < m.used_arg_keys.len() {
            law_recorded_keys_were_written(text.drop_last(), i);
        } else {
            let key = m.constrained_buf;
            lemma_front(key);
            assert(valid_first_scalar(key) ==> lossy_text(key).len() > 0);
            assert(is_written_key(lossy_text(key)));
        }
    }
}

/// A value string opens only at a `"` directly behind a `:`.
pub proof fn law_only_value_strings_are_tracked(m: JsonModel, b: u8)
    requires
        !m.in_string,
        json_step(m, b).in_string,
    ensures
        b == 0x22,
        m.tail.len() >= 1,
        m.tail.last() == 0x3A,
{
}

/// A span takes whatever bytes come until its `"`, and closing it keeps what
/// was between: the name as it stands, the key added once.
pub proof fn law_span_captures(m: JsonModel, word: Seq<u8>)
    requires
        m.state != JsonState::Free,
        m.constrained_buf.len() == 0,
        forall|i: int| 0 <= i < word.len() ==> word[i] != 0x22,
    ensures
        json_feed(m, word.push(0x22)).state == JsonState::Free,
        m.state == JsonState::InName ==> json_feed(m, word.push(0x22)).current_function
            == lossy_text(word),
        m.state == JsonState::InArgKey ==> json_feed(m, word.push(0x22)).used_arg_keys == with_key(
            m.used_arg_keys,
            word,
        ),
{
    lemma_inside_span(m, word);
    assert(word.push(0x22).drop_last() =~= word);
}

/// Inside a span, bytes other than `"` are kept as they come.
pub proof fn lemma_inside_span(m: JsonModel, word: Seq<u8>)
    requires
        m.state != JsonState::Free,
        m.constrained_buf.len() == 0,
        forall|i: int| 0 <= i < word.len() ==> word[i] != 0x22,
    ensures
        json_feed(m, word) == (JsonModel { constrained_buf: word, ..m }),
    decreases word.len(),
{
    if word.len() == 0 {
        assert(m.constrained_buf =~= word);
    } else {
        lemma_inside_span(m, word.drop_last());
        assert(word.drop_last().push(word.last()) =~= word);
    }
}

/// How many more brackets a text opens than it closes.
pub open spec fn balance(text: Seq<u8>) -> int
    decreases text.len(),
{
    if text.len() == 0 {
        0
    } else {
        balance(text.drop_last()) + if text.last() == 0x7B || text.last() == 0x5B {
            1int
        } else if text.last() == 0x7D || text.last() == 0x5D {
            -1
        } else {
            0
        }
    }
}

proof fn lemma_trigger_bytes()
    ensures
        name_trigger() == seq![0x22u8, 0x6E, 0x61, 0x6D, 0x65, 0x22, 0x3A, 0x22],
        args_trigger() == seq![
            0x22u8,
            0x61,
            0x72,
            0x67,
            0x75,
            0x6D,
            0x65,
            0x6E,
            0x74,
            0x73,
            0x22,
            0x3A,
            0x7B,
        ],
{
    reveal_strlit("\"name\":\"");
    reveal_strlit("\"arguments\":{");
    is_ascii_chars_encode_utf8("\"name\":\""@);
    is_ascii_chars_encode_utf8("\"arguments\":{"@);
    assert(name_trigger() =~= seq![0x22u8, 0x6E, 0x61, 0x6D, 0x65, 0x22, 0x3A, 0x22]);
    assert(args_trigger() =~= seq![
        0x22u8,
        0x61,
        0x72,
        0x67,
        0x75,
        0x6D,
        0x65,
        0x6E,
        0x74,
        0x73,
        0x22,
        0x3A,
        0x7B,
    ]);
}

/// What ends with an opening has its last byte.
proof fn lemma_openings_end(tail: Seq<u8>)
    ensures
        has_suffix(tail, name_trigger()) ==> tail.len() >= 8 && tail.last() == 0x22 && tail[tail.len()
            - 2] == 0x3A,
        has_suffix(tail, args_trigger()) ==> tail.len() >= 13 && tail.last() == 0x7B,
{
    lemma_trigger_bytes();
    if has_suffix(tail, name_trigger()) {
        let t = tail.subrange(tail.len() - 8, tail.len() as int);
        assert(t[7] == tail.last() && t[6] == tail[tail.len() - 2]);
    }
    if has_suffix(tail, args_trigger()) {
        let t = tail.subrange(tail.len() - 13, tail.len() as int);
        assert(t[12] == tail.last());
    }
}

/// A text without quotes moves the depth by the brackets that it opens and closes, and
/// opens no span.
pub proof fn law_depth_follows_the_brackets(m: JsonModel, text: Seq<u8>)
    requires
        m.state == JsonState::Free,
        !m.in_string,
        forall|i: int| 0 <= i < text.len() ==> #[trigger] text[i] != 0x22,
        forall|k: int|
            0 <= k <= text.len() ==> 0 <= m.nesting_depth + #[trigger] balance(text.take(k))
                <= usize::MAX,
    ensures
        ({
            let e = json_feed(m, text);
            &&& e.state == JsonState::Free
            &&& !e.in_string
            &&& e.nesting_depth == m.nesting_depth + balance(text)
            &&& e.current_function == m.current_function
            &&& e.used_arg_keys == m.used_arg_keys
        }),
    decreases text.len(),
{
    if text.len() > 0 {
        let rest = text.drop_last();
        let b = text.last();
        assert forall|i: int| 0 <= i < rest.len() implies #[trigger] rest[i] != 0x22 by {
            assert(rest[i] == text[i]);
        }
        assert forall|k: int| 0 <= k <= rest.len() implies 0 <= m.nesting_depth
            + #[trigger] balance(rest.take(k)) <= usize::MAX by {
            assert(rest.take(k) =~= text.take(k));
        }
        assert(text.take(rest.len() as int) =~= rest);
        assert(text.take(text.len() as int) =~= text);
        law_depth_follows_the_brackets(m, rest);
        let e = json_feed(m, rest);
        assert(text[text.len() - 1] != 0x22);
        let tail = last_bytes(e.tail.push(b), TAIL_LEN as int);
        assert(tail.last() == b);
        lemma_openings_end(tail);
    }
}

/// A name opens with its member name and the quote of its value, outside of arguments.
/// Arguments open with theirs and a brace, at the depth inside of it.
pub proof fn law_openings_are_read(m: JsonModel, b: u8)
    requires
        m.state == JsonState::Free,
        !m.in_string,
        m.nesting_depth < usize::MAX,
    ensures
        ({
            let written = m.tail.push(b);
            let e = json_step(m, b);
            &&& !m.in_arguments && written.len() >= 8 && written.skip(written.len() - 8) == seq![
                0x22u8,
                0x6E,
                0x61,
                0x6D,
                0x65,
                0x22,
                0x3A,
                0x22,
            ] ==> e.state == JsonState::InName && e.constrained_buf.len() == 0
                && e.used_arg_keys.len() == 0
            &&& written.len() >= 13 && written.skip(written.len() - 13) == seq![
                0x22u8,
                0x61,
                0x72,
                0x67,
                0x75,
                0x6D,
                0x65,
                0x6E,
                0x74,
                0x73,
                0x22,
                0x3A,
                0x7B,
            ] ==> e.in_arguments && e.state == JsonState::Free && e.nesting_depth == m.nesting_depth
                + 1 && e.arguments_depth == e.nesting_depth
        }),
{
    lemma_trigger_bytes();
    let written = m.tail.push(b);
    let tail = last_bytes(written, 13);
    lemma_openings_end(tail);
    if written.len() >= 8 {
        let t = written.skip(written.len() - 8);
        assert(t =~= tail.subrange(tail.len() - 8, tail.len() as int));
        assert(t[7] == b);
    }
    if written.len() >= 13 {
        let t = written.skip(written.len() - 13);
        assert(t =~= tail.subrange(tail.len() - 13, tail.len() as int));
        assert(t[12] == b);
    }
}

/// In arguments, a quote opens a key where it stands directly behind the brace of the
/// arguments or behind a comma at their depth, and nowhere else.
pub proof fn law_keys_open_at_the_depth_of_the_arguments(m: JsonModel)
    requires
        m.state == JsonState::Free,
        !m.in_string,
        m.in_arguments,
        m.tail.len() > 0,
    ensures
        ({
            let e = json_step(m, 0x22);
            &&& e.state != JsonState::InName
            &&& e.state == JsonState::InArgKey <==> m.nesting_depth == m.arguments_depth && (
            m.tail.last() == 0x7B || m.tail.last() == 0x2C)
            &&& e.state == JsonState::InArgKey ==> e.constrained_buf.len() == 0
            &&& e.in_string <==> m.tail.last() == 0x3A
            &&& e.in_arguments && e.nesting_depth == m.nesting_depth && e.arguments_depth
                == m.arguments_depth
        }),
{
    let written = m.tail.push(0x22);
    let tail = last_bytes(written, TAIL_LEN as int);
    assert(tail.last() == 0x22);
    assert(tail[tail.len() - 2] == m.tail.last());
    lemma_openings_end(tail);
}

/// Arguments end with the brace that they opened with: one that closes something
/// further in leaves them open.
pub proof fn law_arguments_end_with_their_brace(m: JsonModel)
    requires
        m.state == JsonState::Free,
        !m.in_string,
        m.in_arguments,
        0 < m.arguments_depth <= m.nesting_depth,
    ensures
        ({
            let e = json_step(m, 0x7D);
            &&& e.nesting_depth == m.nesting_depth - 1
            &&& e.state == JsonState::Free
            &&& e.in_arguments <==> m.arguments_depth < m.nesting_depth
        }),
{
}

/// In a value string nothing counts but its closing quote, which no backslash stands
/// before.
pub proof fn law_value_strings_are_skipped(m: JsonModel, text: Seq<u8>, c: u8)
    requires
        m.state == JsonState::Free,
        m.in_string,
        !m.prev_char_escape,
        forall|i: int|
            0 <= i < text.len() ==> #[trigger] text[i] != 0x22 && text[i] != 0x5C,
    ensures
        ({
            let e = json_feed(m, text);
            &&& without_tail(e) == without_tail(m)
            &&& without_tail(json_step(e, 0x22)) == without_tail(
                JsonModel { in_string: false, ..m },
            )
            &&& without_tail(json_step(json_step(e, 0x5C), c)) == without_tail(m)
        }),
    decreases text.len(),
{
    if text.len() > 0 {
        let rest = text.drop_last();
        assert forall|i: int| 0 <= i < rest.len() implies #[trigger] rest[i] != 0x22 && rest[i]
            != 0x5C by {
            assert(rest[i] == text[i]);
        }
        law_value_strings_are_skipped(m, rest, c);
        assert(text[text.len() - 1] != 0x22);
    }
}

} // verus!
