//! What the language bindings decide: the last error, the strings and options
//! that cross the boundary.

use crate::batch::DEFAULT_CHUNK;
use crate::bits::{f32_greater, f32_gt};
use crate::engine::{GenerateOptions, DEFAULT_MAX_NEW_TOKENS};
use crate::numerals::{decimal, push_size};
use crate::text::chars_of;
use vstd::prelude::*;
use vstd::string::*;

verus! {

/// The text holds a null character, which a C string cannot.
pub open spec fn has_nul(s: Seq<char>) -> bool {
    exists|i: int| 0 <= i < s.len() && #[trigger] s[i] == '\0'
}

/// Whether the text holds a null character.
pub fn contains_nul(s: &str) -> (r: bool)
    ensures
        r == has_nul(s@),
{
    let chars = chars_of(s);
    let mut i: usize = 0;
    while i < chars.len()
        invariant
            i <= chars@.len(),
            chars@ == s@,
            forall|j: int| 0 <= j < i ==> #[trigger] s@[j] != '\0',
        decreases chars@.len() - i,
    {
        if chars[i] == '\0' {
            assert(s@[i as int] == '\0');
            return true;
        }
        i = i + 1;
    }
    false
}

/// What is kept of an error message: all of it, if C can take it.
pub open spec fn kept_message(msg: Seq<char>) -> Seq<char> {
    if has_nul(msg) {
        "(error message contained null byte)"@
    } else {
        msg
    }
}

/// The message of the last failed call, if it failed.
pub struct LastError {
    pub message: Option<String>,
}

/// The message as mathematics.
pub open spec fn message_of(e: LastError) -> Option<Seq<char>> {
    match e.message {
        Some(m) => Some(m@),
        None => None,
    }
}

impl LastError {
    /// No call has failed.
    pub fn new() -> (e: LastError)
        ensures
            message_of(e) is None,
    {
        LastError { message: None }
    }

    /// Keep a message.
    pub fn set_last_error(&mut self, msg: &str)
        ensures
            message_of(*final(self)) == Some(kept_message(msg@)),
    {
        if contains_nul(msg) {
            self.message = Some("(error message contained null byte)".to_owned());
        } else {
            self.message = Some(msg.to_owned());
        }
    }

    /// Forget the message.
    pub fn clear_last_error(&mut self)
        ensures
            message_of(*final(self)) is None,
    {
        self.message = None;
    }

    /// Let a result cross the boundary, if it can.
    pub fn out_string(&mut self, s: String) -> (r: Option<String>)
        ensures
            has_nul(s@) ==> r is None && message_of(*final(self)) == Some(
                "result contained a null byte"@,
            ),
            !has_nul(s@) ==> r == Some(s) && *final(self) == *old(self),
    {
        if contains_nul(s.as_str()) {
            self.message = Some("result contained a null byte".to_owned());
            None
        } else {
            Some(s)
        }
    }

    /// Whether a buffer of `dim` cells takes an embedding of `need`.
    pub fn embedding_fits(&mut self, need: usize, dim: usize) -> (r: bool)
        ensures
            r == (need <= dim),
            r ==> *final(self) == *old(self),
            !r ==> message_of(*final(self)) == Some(
                "out too small: need "@ + decimal(need as nat) + ", got "@ + decimal(dim as nat),
            ),
    {
        if dim < need {
            let mut m: String = String::new();
            m.append("out too small: need ");
            push_size(&mut m, need);
            m.append(", got ");
            push_size(&mut m, dim);
            assert(m@ =~= "out too small: need "@ + decimal(need as nat) + ", got "@ + decimal(
                dim as nat,
            ));
            self.message = Some(m);
            return false;
        }
        true
    }

    /// Report a description that is missing or not text.
    pub fn bad_description(&mut self, i: usize)
        ensures
            message_of(*final(self)) == Some(
                "description "@ + decimal(i as nat) + " is null or not UTF-8"@,
            ),
    {
        let mut m: String = String::new();
        m.append("description ");
        push_size(&mut m, i);
        m.append(" is null or not UTF-8");
        assert(m@ =~= "description "@ + decimal(i as nat) + " is null or not UTF-8"@);
        self.message = Some(m);
    }
}

/// A fixed text holds no null character.
proof fn lemma_fixed_text_is_plain()
    ensures
        !has_nul("(error message contained null byte)"@),
{
    reveal_strlit("(error message contained null byte)");
}

/// A kept message can always be handed to C.
pub proof fn law_kept_messages_fit_c(msg: Seq<char>)
    ensures
        !has_nul(kept_message(msg)),
{
    lemma_fixed_text_is_plain();
}

/// Settings that come from a binding: no limit means the default one, and a
/// temperature that is not above zero means greedy.
pub fn binding_options(max_new_tokens: usize, temperature: u32, seed: u64, constrain: bool) -> (g:
    GenerateOptions)
    ensures
        g.max_new_tokens == if max_new_tokens == 0 {
            DEFAULT_MAX_NEW_TOKENS
        } else {
            max_new_tokens
        },
        g.temperature == if f32_greater(temperature, 0) {
            temperature
        } else {
            0
        },
        g.seed == seed,
        g.system is None,
        g.prefill_chunk == DEFAULT_CHUNK,
        g.constrain == constrain,
{
    GenerateOptions {
        max_new_tokens: if max_new_tokens == 0 {
            DEFAULT_MAX_NEW_TOKENS
        } else {
            max_new_tokens
        },
        temperature: if f32_gt(temperature, 0) {
            temperature
        } else {
            0
        },
        seed,
        system: None,
        prefill_chunk: DEFAULT_CHUNK,
        constrain,
    }
}

} // verus!
