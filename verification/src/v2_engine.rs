//! A loaded model with its tokenizer and heads, and what it needs to start a
//! run.

use crate::bundle::{head_position, is_load_of, V2Bundle, V2LoadError};
use crate::cact::{cact_fault, Cact, HEAD_CONTRASTIVE};
use crate::engine::{clipped, encode_with_bos, opened_ids, prompt_ids, prompt_room, session_start, GenerateOptions, Session};
use crate::loading::is_loadable;
use crate::model::{ring_width, V2Model};
use crate::prompt::prompt_text;
use crate::sp_tokenizer::{markers_not_empty, SpTokenizer};
use crate::state::{is_blank, is_sized, state_fits, V2State};
use vstd::prelude::*;
use vstd::string::*;

verus! {

/// A loaded model with its tokenizer and heads.
pub struct V2Engine {
    pub bundle: V2Bundle,
}

/// A text, where there is one.
pub open spec fn text_of(s: Option<String>) -> Option<Seq<char>> {
    match s {
        Some(t) => Some(t@),
        None => None,
    }
}

impl V2Engine {
    /// Well-formedness: the bundle is.
    pub open spec fn wf(&self) -> bool {
        self.bundle.wf()
    }

    /// Text can be turned into tokens: there is a tokenizer, and its markers are
    /// not empty.
    pub open spec fn can_encode(&self) -> bool {
        self.bundle.tokenizer is Some && markers_not_empty(self.bundle.tokenizer->0@)
    }

    /// Load a container from its bytes.
    pub fn from_bytes(bytes: Vec<u8>) -> (r: Result<V2Engine, V2LoadError>)
        requires
            bytes@.len() <= isize::MAX,
            is_loadable(bytes@),
        ensures
            r is Ok ==> r->Ok_0.wf(),
            ({
                let b = match r {
                    Ok(e) => Ok::<V2Bundle, V2LoadError>(e.bundle),
                    Err(e) => Err(e),
                };
                match cact_fault(bytes@) {
                    Some(e) => r is Err && r->Err_0 == V2LoadError::Cact(e),
                    None => exists|c: Cact|
                        #[trigger] c.wf() && c.raw@ == bytes@ && is_load_of(b, c),
                }
            }),
    {
        match V2Bundle::from_bytes(bytes) {
            Ok(bundle) => Ok(V2Engine { bundle }),
            Err(e) => Err(e),
        }
    }

    /// The model.
    pub fn model(&self) -> (m: &V2Model)
        ensures
            *m == self.bundle.model,
    {
        &self.bundle.model
    }

    /// The bundle.
    pub fn bundle(&self) -> (b: &V2Bundle)
        ensures
            *b == self.bundle,
    {
        &self.bundle
    }

    /// The embedded tokenizer, where there is one.
    pub fn tokenizer(&self) -> (t: Option<&SpTokenizer>)
        ensures
            match self.bundle.tokenizer {
                Some(k) => t is Some && *t->0 == k,
                None => t is None,
            },
    {
        match &self.bundle.tokenizer {
            Some(t) => Some(t),
            None => None,
        }
    }

    /// Whether text can be turned into tokens.
    pub fn encodes(&self) -> (r: bool)
        requires
            self.wf(),
        ensures
            r == self.can_encode(),
    {
        match &self.bundle.tokenizer {
            Some(t) => !t.has_empty_marker(),
            None => false,
        }
    }

    /// Assemble the chat prompt.
    pub fn build_prompt(query: &str, tools_json: &str, system: Option<&str>) -> (p: String)
        ensures
            p@ == prompt_text(
                query@,
                tools_json@,
                match system {
                    Some(s) => Some(s@),
                    None => None,
                },
            ),
    {
        crate::prompt::build_prompt(query, tools_json, system)
    }

    /// What a run needs: the prompt ids to feed, and the session that decides
    /// what follows.
    pub fn prepare(&self, query: &str, tools_json: &str, opts: &GenerateOptions) -> (r: (
        Vec<u32>,
        Session,
    ))
        requires
            self.wf(),
            self.can_encode(),
        ensures
            r.0@ == clipped(
                opened_ids(
                    self.bundle.tokenizer->0@,
                    prompt_text(query@, tools_json@, text_of(opts.system)),
                ),
                prompt_room(self.bundle.model.cfg.max_seq_len as int, opts.max_new_tokens as int),
            ),
            r.0@.len() > 0,
            r.1.wf(),
            r.1@ == session_start(
                self.bundle.tokenizer->0@,
                tools_json@,
                opts.max_new_tokens as int,
                opts.constrain,
            ),
    {
        let tok = self.bundle.tokenizer.as_ref().unwrap();
        let system: Option<&str> = match &opts.system {
            Some(s) => Some(s.as_str()),
            None => None,
        };
        let prompt = V2Engine::build_prompt(query, tools_json, system);
        let ids = prompt_ids(
            tok,
            prompt.as_str(),
            self.bundle.model.cfg.max_seq_len,
            opts.max_new_tokens,
        );
        let session = Session::start(tok, tools_json, opts.max_new_tokens, opts.constrain);
        (ids, session)
    }

    /// The ids of a text behind the opening token, cut to the longest sequence.
    /// `None` without a tokenizer.
    pub fn encode_with_bos(&self, text: &str) -> (r: Option<Vec<u32>>)
        requires
            self.wf(),
            self.bundle.tokenizer is Some ==> self.can_encode(),
        ensures
            match self.bundle.tokenizer {
                Some(t) => r is Some && r->0@ == clipped(
                    opened_ids(t@, text@),
                    self.bundle.model.cfg.max_seq_len as int,
                ),
                None => r is None,
            },
    {
        match &self.bundle.tokenizer {
            Some(t) => Some(encode_with_bos(t, text, self.bundle.model.cfg.max_seq_len)),
            None => None,
        }
    }

    /// A blank state for generation.
    pub fn new_state<T: Copy>(&self, zero: T) -> (s: V2State<T>)
        requires
            self.wf(),
            state_fits(self.bundle.model.cfg, ring_width(self.bundle.model.cfg)),
        ensures
            s.wf(),
            is_blank(s),
            is_sized(s, self.bundle.model.cfg, ring_width(self.bundle.model.cfg)),
            s.kv_window == self.bundle.model.cfg.kv_window,
            s.zero == zero,
    {
        self.bundle.model.make_state(zero)
    }

    /// A blank state for the heads, which attend to the whole sequence. `None`
    /// without a head.
    pub fn new_head_state<T: Copy>(&self, zero: T) -> (r: Option<V2State<T>>)
        requires
            self.wf(),
            state_fits(self.bundle.model.cfg, self.bundle.model.cfg.max_seq_len as int),
        ensures
            self.bundle.heads@.len() == 0 ==> r is None,
            self.bundle.heads@.len() > 0 ==> {
                &&& r is Some
                &&& r->0.wf()
                &&& is_blank(r->0)
                &&& is_sized(
                    r->0,
                    self.bundle.model.cfg,
                    self.bundle.model.cfg.max_seq_len as int,
                )
                &&& r->0.kv_window == 0
                &&& r->0.zero == zero
            },
    {
        if self.bundle.heads.len() == 0 {
            return None;
        }
        Some(self.bundle.model.make_state_full_causal(zero))
    }

    /// Width of the contrastive embedding, zero without such a head.
    pub fn contrastive_dim(&self) -> (n: usize)
        ensures
            n == match head_position(self.bundle.heads@, HEAD_CONTRASTIVE, 0) {
                Some(k) => self.bundle.heads@[k].out_dim,
                None => 0,
            },
    {
        match self.bundle.contrastive_head() {
            Some(h) => h.out_dim,
            None => 0,
        }
    }

    /// The text that the confidence head judges: the prompt and the reply to it.
    pub fn judged_text(query: &str, tools_json: &str, completion: &str) -> (r: String)
        ensures
            r@ == prompt_text(query@, tools_json@, None) + completion@,
    {
        let mut text = V2Engine::build_prompt(query, tools_json, None);
        text.append(completion);
        text
    }
}

} // verus!
