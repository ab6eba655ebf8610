//! Grammar-constrained decoding: which tokens may follow, given the output so
//! far and the declared tools.

pub use crate::json_machine::{JsonState, JsonStateMachine};
pub use crate::tools::{parse_tools_json, ToolDef};
pub use crate::trie::{check_token_valid, Trie};

use crate::json_machine::{contains_string, json_feed, json_start, no_empty_key, views, JsonModel};
use crate::json_scan::encodings;
use crate::text::lemma_encode_injective;
use crate::tools::{tool_views, ToolModel};
use crate::trie::{is_live_prefix, lemma_quote_pos, quote_pos, token_fits};
use crate::word_map::lemma_set_of_push;
use vstd::prelude::*;
use vstd::string::*;
use vstd::utf8::*;

verus! {

/// Bias of an allowed token: the bits of the 32-bit float 0.
pub const ALLOWED: u32 = 0;

/// Bias of a forbidden token: the bits of the 32-bit float -1e9.
pub const FORBIDDEN: u32 = 0xCE6E_6B28;

/// A bias for every token that forbids none.
pub open spec fn free_mask(vocab_size: nat) -> Seq<u32> {
    Seq::new(vocab_size, |id: int| ALLOWED)
}

/// Token `id` has a text that may follow `prefix` in a span over `words`.
pub open spec fn id_fits(
    words: Set<Seq<u8>>,
    prefix: Seq<u8>,
    texts: Seq<Seq<u8>>,
    id: int,
) -> bool {
    0 <= id < texts.len() && token_fits(words, prefix, texts[id])
}

/// Some token may follow `prefix`.
pub open spec fn some_id_fits(
    words: Set<Seq<u8>>,
    prefix: Seq<u8>,
    texts: Seq<Seq<u8>>,
    vocab_size: nat,
) -> bool {
    exists|id: int| 0 <= id < vocab_size && #[trigger] id_fits(words, prefix, texts, id)
}

/// The bias that forbids the tokens that may not follow `prefix`. Where none
/// may, none is forbidden.
pub open spec fn fitting_mask(
    words: Set<Seq<u8>>,
    prefix: Seq<u8>,
    texts: Seq<Seq<u8>>,
    vocab_size: nat,
) -> Seq<u32> {
    if some_id_fits(words, prefix, texts, vocab_size) {
        Seq::new(
            vocab_size,
            |id: int|
                if id_fits(words, prefix, texts, id) {
                    ALLOWED
                } else {
                    FORBIDDEN
                },
        )
    } else {
        free_mask(vocab_size)
    }
}

/// The bias inside a span over `words` of which `prefix` is written. A prefix
/// that no word begins with forbids nothing.
pub open spec fn span_mask(
    words: Set<Seq<u8>>,
    prefix: Seq<u8>,
    texts: Seq<Seq<u8>>,
    vocab_size: nat,
) -> Seq<u32> {
    if is_live_prefix(words, prefix) {
        fitting_mask(words, prefix, texts, vocab_size)
    } else {
        free_mask(vocab_size)
    }
}

/// The byte texts of a token table.
pub open spec fn byte_views(v: Seq<Vec<u8>>) -> Seq<Seq<u8>> {
    v.map_values(|t: Vec<u8>| t@)
}

fn filled(value: u32, n: usize) -> (v: Vec<u32>)
    ensures
        v@ == Seq::new(n as nat, |id: int| value),
{
    let mut v: Vec<u32> = Vec::new();
    let mut i: usize = 0;
    while i < n
        invariant
            i <= n,
            v@ == Seq::new(i as nat, |id: int| value),
        decreases n - i,
    {
        v.push(value);
        i = i + 1;
        assert(v@ =~= Seq::new(i as nat, |id: int| value));
    }
    v
}

/// Bias for the tokens that may follow the bytes that lead to `node`.
fn build_mask_from_trie(
    trie: &Trie,
    node: usize,
    token_texts: &Vec<Vec<u8>>,
    vocab_size: usize,
) -> (mask: Vec<u32>)
    requires
        trie.wf(),
        node < trie.node_count(),
    ensures
        mask@ == fitting_mask(
            trie@,
            trie.path(node as int),
            byte_views(token_texts@),
            vocab_size as nat,
        ),
{
    let ghost words = trie@;
    let ghost prefix = trie.path(node as int);
    let ghost texts = byte_views(token_texts@);
    let mut mask: Vec<u32> = Vec::new();
    let mut any_allowed: bool = false;
    let mut id: usize = 0;
    while id < vocab_size
        invariant
            id <= vocab_size,
            trie.wf(),
            node < trie.node_count(),
            words == trie@,
            prefix == trie.path(node as int),
            texts == byte_views(token_texts@),
            mask@.len() == id,
            forall|j: int|
                0 <= j < id ==> #[trigger] mask@[j] == if id_fits(words, prefix, texts, j) {
                    ALLOWED
                } else {
                    FORBIDDEN
                },
            any_allowed == exists|j: int| 0 <= j < id && #[trigger] id_fits(words, prefix, texts, j),
        decreases vocab_size - id,
    {
        let fits: bool = id < token_texts.len() && check_token_valid(
            token_texts[id].as_slice(),
            trie,
            node,
        );
        assert(fits == id_fits(words, prefix, texts, id as int));
        if fits {
            mask.push(ALLOWED);
            any_allowed = true;
        } else {
            mask.push(FORBIDDEN);
        }
        id = id + 1;
    }
    if !any_allowed {
        return filled(ALLOWED, vocab_size);
    }
    assert(mask@ =~= fitting_mask(words, prefix, texts, vocab_size as nat));
    mask
}

/// The keys that each declared name takes. Where a name is declared twice the
/// later declaration counts.
pub open spec fn declared_keys(tools: Seq<ToolModel>) -> Map<Seq<u8>, Seq<Seq<u8>>>
    decreases tools.len(),
{
    if tools.len() == 0 {
        Map::empty()
    } else {
        declared_keys(tools.drop_last()).insert(tools.last().snake_name, tools.last().param_keys)
    }
}

/// The declared names.
pub open spec fn declared_names(tools: Seq<ToolModel>) -> Set<Seq<u8>>
    decreases tools.len(),
{
    if tools.len() == 0 {
        Set::empty()
    } else {
        declared_names(tools.drop_last()).insert(tools.last().snake_name)
    }
}

/// A token table as pairs of id and text.
pub open spec fn pair_views(v: Seq<(u32, Vec<u8>)>) -> Seq<(u32, Seq<u8>)> {
    v.map_values(|p: (u32, Vec<u8>)| (p.0, p.1@))
}

/// One more than the largest id, and at least one.
pub open spec fn table_len(pairs: Seq<(u32, Seq<u8>)>) -> nat
    decreases pairs.len(),
{
    if pairs.len() == 0 {
        1
    } else {
        let n = table_len(pairs.drop_last());
        if pairs.last().0 + 1 > n {
            (pairs.last().0 + 1) as nat
        } else {
            n
        }
    }
}

/// The text of an id: that of its last pair, and empty where it has none.
pub open spec fn text_of_id(pairs: Seq<(u32, Seq<u8>)>, id: int) -> Seq<u8>
    decreases pairs.len(),
{
    if pairs.len() == 0 {
        Seq::empty()
    } else if pairs.last().0 == id {
        pairs.last().1
    } else {
        text_of_id(pairs.drop_last(), id)
    }
}

/// The texts by id.
pub open spec fn text_table(pairs: Seq<(u32, Seq<u8>)>) -> Seq<Seq<u8>> {
    Seq::new(table_len(pairs), |id: int| text_of_id(pairs, id))
}

/// The mathematical state of the decoder.
#[verifier::ext_equal]
pub struct DecoderModel {
    pub names: Set<Seq<u8>>,
    pub declared: Map<Seq<u8>, Seq<Seq<u8>>>,
    pub sm: JsonModel,
    pub token_texts: Seq<Seq<u8>>,
    pub unique_arg_keys: bool,
}

/// `keys` without those already written.
pub open spec fn unused_words(keys: Seq<Seq<u8>>, used: Seq<Seq<char>>) -> Set<Seq<u8>> {
    Set::new(|w: Seq<u8>| keys.contains(w) && !is_used(used, w))
}

/// `word` spells a key already written.
pub open spec fn is_used(used: Seq<Seq<char>>, word: Seq<u8>) -> bool {
    exists|i: int| 0 <= i < used.len() && encode_utf8(#[trigger] used[i]) == word
}

/// Some key is not written yet.
pub open spec fn some_unused(keys: Seq<Seq<u8>>, used: Seq<Seq<char>>) -> bool {
    exists|i: int| 0 <= i < keys.len() && !is_used(used, #[trigger] keys[i])
}

/// The words an argument key may spell: the declared keys of the current tool,
/// less those already written where keys must not repeat and one is left.
/// `None` for a tool that is not declared.
pub open spec fn key_words(d: DecoderModel) -> Option<Set<Seq<u8>>> {
    let tool = encode_utf8(d.sm.current_function);
    if d.declared.contains_key(tool) {
        let keys = d.declared[tool];
        if d.unique_arg_keys && some_unused(keys, d.sm.used_arg_keys) {
            Some(unused_words(keys, d.sm.used_arg_keys))
        } else {
            Some(keys.to_set())
        }
    } else {
        None
    }
}

/// The bias for the next token.
pub open spec fn next_token_mask(d: DecoderModel, vocab_size: nat) -> Seq<u32> {
    match d.sm.state {
        JsonState::Free => free_mask(vocab_size),
        JsonState::InName => span_mask(
            d.names,
            d.sm.constrained_buf,
            d.token_texts,
            vocab_size,
        ),
        JsonState::InArgKey => match key_words(d) {
            Some(words) => span_mask(words, d.sm.constrained_buf, d.token_texts, vocab_size),
            None => free_mask(vocab_size),
        },
    }
}

/// The argument keys of one tool name.
struct ToolKeys {
    name: String,
    keys: Vec<String>,
    trie: Trie,
}

impl ToolKeys {
    spec fn wf(&self) -> bool {
        &&& self.trie.wf()
        &&& self.trie@ == encodings(self.keys@).to_set()
    }
}

/// Restricts the tool names and argument keys of a payload to the declared
/// ones.
pub struct ConstrainedDecoder {
    name_trie: Trie,
    tools: Vec<ToolKeys>,
    sm: JsonStateMachine,
    token_texts: Vec<Vec<u8>>,
    unique_arg_keys: bool,
}

spec fn tool_map(tools: Seq<ToolKeys>) -> Map<Seq<u8>, Seq<Seq<u8>>> {
    Map::new(
        |n: Seq<u8>| exists|i: int| 0 <= i < tools.len() && encode_utf8(#[trigger] tools[i].name@) == n,
        |n: Seq<u8>|
            encodings(
                tools[choose|i: int|
                    0 <= i < tools.len() && encode_utf8(#[trigger] tools[i].name@) == n].keys@,
            ),
    )
}

spec fn tools_wf(tools: Seq<ToolKeys>) -> bool {
    &&& forall|i: int| 0 <= i < tools.len() ==> (#[trigger] tools[i]).wf()
    &&& forall|i: int, j: int|
        0 <= i < tools.len() && 0 <= j < tools.len() && #[trigger] tools[i].name@
            == #[trigger] tools[j].name@ ==> i == j
}

proof fn lemma_tool_map(tools: Seq<ToolKeys>, k: int)
    requires
        tools_wf(tools),
        0 <= k < tools.len(),
    ensures
        tool_map(tools).contains_key(encode_utf8(tools[k].name@)),
        tool_map(tools)[encode_utf8(tools[k].name@)] == encodings(tools[k].keys@),
{
    let n = encode_utf8(tools[k].name@);
    let i = choose|i: int| 0 <= i < tools.len() && encode_utf8(#[trigger] tools[i].name@) == n;
    lemma_encode_injective(tools[i].name@, tools[k].name@);
}

proof fn lemma_tool_map_absent(tools: Seq<ToolKeys>, name: Seq<char>)
    requires
        forall|i: int| 0 <= i < tools.len() ==> (#[trigger] tools[i]).name@ != name,
    ensures
        !tool_map(tools).contains_key(encode_utf8(name)),
{
    if tool_map(tools).contains_key(encode_utf8(name)) {
        let i = choose|i: int|
            0 <= i < tools.len() && encode_utf8(#[trigger] tools[i].name@) == encode_utf8(name);
        lemma_encode_injective(tools[i].name@, name);
    }
}

/// Replacing the entry of a name, or adding one, updates the map there.
proof fn lemma_tool_map_insert(before: Seq<ToolKeys>, after: Seq<ToolKeys>, k: int)
    requires
        tools_wf(before),
        tools_wf(after),
        0 <= k < after.len(),
        k < before.len() ==> after == before.update(k, after[k]) && after[k].name@
            == before[k].name@,
        k >= before.len() ==> k == before.len() && after == before.push(after[k]),
    ensures
        tool_map(after) == tool_map(before).insert(
            encode_utf8(after[k].name@),
            encodings(after[k].keys@),
        ),
{
    let key = encode_utf8(after[k].name@);
    let target = tool_map(before).insert(key, encodings(after[k].keys@));
    lemma_tool_map(after, k);
    assert forall|n: Seq<u8>| tool_map(after).contains_key(n) == target.contains_key(n) by {
        if tool_map(after).contains_key(n) && n != key {
            let i = choose|i: int| 0 <= i < after.len() && encode_utf8(#[trigger] after[i].name@) == n;
            assert(i != k);
            assert(before[i] == after[i]);
            assert(encode_utf8(before[i].name@) == n);
        }
        if tool_map(before).contains_key(n) && n != key {
            let i = choose|i: int| 0 <= i < before.len() && encode_utf8(#[trigger] before[i].name@) == n;
            assert(i != k);
            assert(before[i] == after[i]);
            assert(encode_utf8(after[i].name@) == n);
        }
    }
    assert forall|n: Seq<u8>| tool_map(after).contains_key(n) implies #[trigger] tool_map(after)[n]
        == target[n] by {
        if n != key {
            let i = choose|i: int| 0 <= i < after.len() && encode_utf8(#[trigger] after[i].name@) == n;
            assert(i != k);
            lemma_tool_map(after, i);
            assert(before[i] == after[i]);
            lemma_tool_map(before, i);
        }
    }
    assert(tool_map(after) =~= target);
}

fn key_trie(keys: &Vec<String>) -> (t: Trie)
    ensures
        t.wf(),
        t@ == encodings(keys@).to_set(),
{
    let mut t = Trie::new();
    let mut i: usize = 0;
    proof {
        assert(encodings(keys@).take(0).to_set() =~= Set::<Seq<u8>>::empty());
    }
    while i < keys.len()
        invariant
            i <= keys.len(),
            t.wf(),
            t@ == encodings(keys@).take(i as int).to_set(),
        decreases keys.len() - i,
    {
        t.insert(keys[i].as_str().as_bytes());
        proof {
            let e = encodings(keys@);
            assert(e.take(i + 1) =~= e.take(i as int).push(e[i as int]));
            lemma_set_of_push(e.take(i as int), e[i as int]);
        }
        i = i + 1;
    }
    proof {
        assert(encodings(keys@).take(keys@.len() as int) =~= encodings(keys@));
    }
    t
}

fn clone_strings(v: &Vec<String>) -> (r: Vec<String>)
    ensures
        encodings(r@) == encodings(v@),
{
    let mut r: Vec<String> = Vec::new();
    let mut i: usize = 0;
    while i < v.len()
        invariant
            i <= v.len(),
            encodings(r@) == encodings(v@).take(i as int),
        decreases v.len() - i,
    {
        let s = v[i].clone();
        proof {
            assert(encodings(r@.push(s)) =~= encodings(r@).push(encode_utf8(s@)));
            assert(encodings(v@).take(i + 1) =~= encodings(v@).take(i as int).push(
                encodings(v@)[i as int],
            ));
        }
        r.push(s);
        i = i + 1;
    }
    proof {
        assert(encodings(v@).take(v@.len() as int) =~= encodings(v@));
    }
    r
}

fn find_tool(tools: &Vec<ToolKeys>, name: &String) -> (r: Option<usize>)
    requires
        tools_wf(tools@),
    ensures
        match r {
            Some(i) => i < tools@.len() && tools@[i as int].name@ == name@,
            None => forall|i: int| 0 <= i < tools@.len() ==> (#[trigger] tools@[i]).name@ != name@,
        },
{
    let mut i: usize = 0;
    while i < tools.len()
        invariant
            i <= tools.len(),
            forall|j: int| 0 <= j < i ==> (#[trigger] tools@[j]).name@ != name@,
        decreases tools.len() - i,
    {
        if tools[i].name == *name {
            return Some(i);
        }
        i = i + 1;
    }
    None
}

fn table_from_pairs(pairs: Vec<(u32, Vec<u8>)>) -> (t: Vec<Vec<u8>>)
    requires
        table_len(pair_views(pairs@)) <= usize::MAX,
    ensures
        byte_views(t@) == text_table(pair_views(pairs@)),
{
    let ghost all = pair_views(pairs@);
    let mut n: usize = 1;
    let mut i: usize = 0;
    while i < pairs.len()
        invariant
            i <= pairs.len(),
            all == pair_views(pairs@),
            table_len(all) <= usize::MAX,
            n == table_len(all.take(i as int)),
            n >= 1,
        decreases pairs.len() - i,
    {
        proof {
            assert(all.take(i + 1).drop_last() =~= all.take(i as int));
            assert(all.take(i + 1).last() == all[i as int]);
            lemma_table_len_grows(all, i + 1);
        }
        let id: usize = pairs[i].0 as usize;
        if id >= n {
            n = id + 1;
        }
        i = i + 1;
    }
    proof {
        assert(all.take(pairs@.len() as int) =~= all);
    }
    let mut t: Vec<Vec<u8>> = Vec::new();
    let mut k: usize = 0;
    while k < n
        invariant
            k <= n,
            t@.len() == k,
            forall|j: int| 0 <= j < k ==> (#[trigger] t@[j])@ == Seq::<u8>::empty(),
        decreases n - k,
    {
        t.push(Vec::new());
        k = k + 1;
    }
    i = 0;
    while i < pairs.len()
        invariant
            i <= pairs.len(),
            all == pair_views(pairs@),
            n == table_len(all),
            t@.len() == n,
            forall|j: int| 0 <= j < n ==> (#[trigger] t@[j])@ == text_of_id(all.take(i as int), j),
        decreases pairs.len() - i,
    {
        proof {
            assert(all.take(i + 1).drop_last() =~= all.take(i as int));
            assert(all.take(i + 1).last() == all[i as int]);
            lemma_id_in_table(all, i as int);
        }
        let id: usize = pairs[i].0 as usize;
        let text = crate::text::to_bytes(pairs[i].1.as_slice());
        t.set(id, text);
        i = i + 1;
    }
    proof {
        assert(all.take(pairs@.len() as int) =~= all);
        assert(byte_views(t@) =~= text_table(all));
    }
    t
}

proof fn lemma_table_len_grows(pairs: Seq<(u32, Seq<u8>)>, i: int)
    requires
        0 <= i <= pairs.len(),
    ensures
        table_len(pairs.take(i)) <= table_len(pairs),
    decreases pairs.len() - i,
{
    if i == pairs.len() {
        assert(pairs.take(i) =~= pairs);
    } else {
        lemma_table_len_grows(pairs, i + 1);
        assert(pairs.take(i + 1).drop_last() =~= pairs.take(i));
    }
}

proof fn lemma_id_in_table(pairs: Seq<(u32, Seq<u8>)>, i: int)
    requires
        0 <= i < pairs.len(),
    ensures
        pairs[i].0 < table_len(pairs),
{
    lemma_table_len_grows(pairs, i + 1);
    assert(pairs.take(i + 1).last() == pairs[i]);
}

impl View for ConstrainedDecoder {
    type V = DecoderModel;

    closed spec fn view(&self) -> DecoderModel {
        DecoderModel {
            names: self.name_trie@,
            declared: tool_map(self.tools@),
            sm: self.sm@,
            token_texts: byte_views(self.token_texts@),
            unique_arg_keys: self.unique_arg_keys,
        }
    }
}

impl ConstrainedDecoder {
    /// Well-formedness: the tries are, and no tool name has two entries.
    pub closed spec fn wf(&self) -> bool {
        &&& self.name_trie.wf()
        &&& tools_wf(self.tools@)
        &&& no_empty_key(self.sm@)
    }

    /// A decoder for the declared tools over a token table, before any output.
    pub fn new(tool_defs: &[ToolDef], token_bytes: Vec<(u32, Vec<u8>)>) -> (d: Self)
        requires
            table_len(pair_views(token_bytes@)) <= usize::MAX,
        ensures
            d.wf(),
            d@ == (DecoderModel {
                names: declared_names(tool_views(tool_defs@)),
                declared: declared_keys(tool_views(tool_defs@)),
                sm: json_start(),
                token_texts: text_table(pair_views(token_bytes@)),
                unique_arg_keys: false,
            }),
    {
        let mut name_trie = Trie::new();
        let mut tools: Vec<ToolKeys> = Vec::new();
        let ghost defs = tool_views(tool_defs@);
        let mut i: usize = 0;
        proof {
            assert(tool_map(tools@) =~= Map::<Seq<u8>, Seq<Seq<u8>>>::empty());
        }
        while i < tool_defs.len()
            invariant
                i <= tool_defs@.len(),
                defs == tool_views(tool_defs@),
                name_trie.wf(),
                tools_wf(tools@),
                name_trie@ == declared_names(defs.take(i as int)),
                tool_map(tools@) == declared_keys(defs.take(i as int)),
            decreases tool_defs@.len() - i,
        {
            let tool: &ToolDef = &tool_defs[i];
            name_trie.insert(tool.snake_name.as_str().as_bytes());
            let keys = clone_strings(&tool.param_keys);
            let trie = key_trie(&keys);
            let name = tool.snake_name.clone();
            let ghost before = tools@;
            let ghost at: int;
            match find_tool(&tools, &name) {
                Some(k) => {
                    tools.set(k, ToolKeys { name, keys, trie });
                    proof {
                        at = k as int;
                    }
                },
                None => {
                    tools.push(ToolKeys { name, keys, trie });
                    proof {
                        at = before.len() as int;
                    }
                },
            }
            proof {
                assert(defs.take(i + 1).drop_last() =~= defs.take(i as int));
                assert(defs.take(i + 1).last() == tool@);
                assert(tools_wf(tools@));
                lemma_tool_map_insert(before, tools@, at);
            }
            i = i + 1;
        }
        proof {
            assert(defs.take(tool_defs@.len() as int) =~= defs);
        }
        let token_texts = table_from_pairs(token_bytes);
        ConstrainedDecoder {
            name_trie,
            tools,
            sm: JsonStateMachine::new(),
            token_texts,
            unique_arg_keys: false,
        }
    }

    /// Forbid repeating an argument key within one tool call.
    pub fn with_unique_arg_keys(self) -> (d: Self)
        requires
            self.wf(),
        ensures
            d.wf(),
            d@ == (DecoderModel { unique_arg_keys: true, ..self@ }),
    {
        ConstrainedDecoder {
            name_trie: self.name_trie,
            tools: self.tools,
            sm: self.sm,
            token_texts: self.token_texts,
            unique_arg_keys: true,
        }
    }

    /// The declared keys of the current tool that are not written yet, if any
    /// is left.
    fn remaining_key_trie(&self) -> (r: Option<Trie>)
        requires
            self.wf(),
        ensures
            ({
                let tool = encode_utf8(self@.sm.current_function);
                let used = self@.sm.used_arg_keys;
                match r {
                    Some(t) => t.wf() && self@.declared.contains_key(tool) && some_unused(
                        self@.declared[tool],
                        used,
                    ) && t@ == unused_words(self@.declared[tool], used),
                    None => !self@.declared.contains_key(tool) || !some_unused(
                        self@.declared[tool],
                        used,
                    ),
                }
            }),
    {
        let k: usize = match find_tool(&self.tools, &self.sm.current_function) {
            Some(k) => k,
            None => {
                proof {
                    lemma_tool_map_absent(self.tools@, self.sm.current_function@);
                }
                return None;
            },
        };
        let declared = &self.tools[k].keys;
        let ghost keys = encodings(declared@);
        let ghost used = views(self.sm.used_arg_keys@);
        proof {
            lemma_tool_map(self.tools@, k as int);
        }
        let mut trie = Trie::new();
        let mut any: bool = false;
        let mut i: usize = 0;
        proof {
            assert(unused_words(keys.take(0), used) =~= Set::<Seq<u8>>::empty());
        }
        while i < declared.len()
            invariant
                i <= declared@.len(),
                keys == encodings(declared@),
                used == views(self.sm.used_arg_keys@),
                trie.wf(),
                trie@ == unused_words(keys.take(i as int), used),
                any == some_unused(keys.take(i as int), used),
            decreases declared@.len() - i,
        {
            let present: bool = contains_string(&self.sm.used_arg_keys, &declared[i]);
            proof {
                lemma_is_used(used, declared@[i as int]@);
                lemma_unused_push(keys.take(i as int), used, keys[i as int]);
                assert(keys.take(i + 1) =~= keys.take(i as int).push(keys[i as int]));
            }
            if !present {
                trie.insert(declared[i].as_str().as_bytes());
                any = true;
            }
            i = i + 1;
        }
        proof {
            assert(keys.take(declared@.len() as int) =~= keys);
        }
        if any {
            Some(trie)
        } else {
            None
        }
    }

    /// Advance the state machine by the text of `token_id`. An id outside the
    /// table changes nothing.
    pub fn update(&mut self, token_id: u32)
        requires
            old(self).wf(),
        ensures
            final(self).wf(),
            final(self)@ == (DecoderModel {
                sm: if token_id < old(self)@.token_texts.len() {
                    json_feed(old(self)@.sm, old(self)@.token_texts[token_id as int])
                } else {
                    old(self)@.sm
                },
                ..old(self)@
            }),
    {
        let id: usize = token_id as usize;
        if id < self.token_texts.len() {
            let text = crate::text::to_bytes(self.token_texts[id].as_slice());
            self.sm.feed(text.as_slice());
        }
    }

    /// Feed raw output bytes into the state machine.
    pub fn feed_bytes(&mut self, bytes: &[u8])
        requires
            old(self).wf(),
        ensures
            final(self).wf(),
            final(self)@ == (DecoderModel {
                sm: json_feed(old(self)@.sm, bytes@),
                ..old(self)@
            }),
    {
        self.sm.feed(bytes);
    }

    /// The argument keys already written in the current call, none of them empty.
    pub fn used_keys(&self) -> (r: &[String])
        requires
            self.wf(),
        ensures
            views(r@) == self@.sm.used_arg_keys,
            forall|i: int| 0 <= i < r@.len() ==> (#[trigger] r@[i])@.len() > 0,
    {
        proof {
            assert forall|i: int|
                0 <= i < self.sm.used_arg_keys@.len() implies (#[trigger] self.sm.used_arg_keys@[i])@.len()
                > 0 by {
                assert(self.sm@.used_arg_keys[i] == self.sm.used_arg_keys@[i]@);
            }
        }
        self.sm.used_arg_keys.as_slice()
    }

    /// The state machine's state.
    pub fn state(&self) -> (r: JsonState)
        ensures
            r == self@.sm.state,
    {
        self.sm.state
    }

    fn mask_in(&self, trie: &Trie, vocab_size: usize) -> (mask: Vec<u32>)
        requires
            trie.wf(),
        ensures
            mask@ == span_mask(
                trie@,
                self@.sm.constrained_buf,
                self@.token_texts,
                vocab_size as nat,
            ),
    {
        proof {
            trie.lemma_root_node();
            assert(trie.path(0) + self.sm.constrained_buf@ =~= self.sm.constrained_buf@);
        }
        match trie.advance(0, self.sm.constrained_buf.as_slice()) {
            Some(node) => {
                proof {
                    assert(trie.path(node as int) =~= self.sm.constrained_buf@);
                }
                build_mask_from_trie(trie, node, &self.token_texts, vocab_size)
            },
            None => filled(ALLOWED, vocab_size),
        }
    }

    /// The additive bias for the next token, as the bits of 32-bit floats:
    /// zero outside the constrained spans; inside them zero for a token that
    /// may follow and -1e9 for one that may not.
    pub fn logit_mask(&self, vocab_size: usize) -> (mask: Vec<u32>)
        requires
            self.wf(),
        ensures
            mask@ == next_token_mask(self@, vocab_size as nat),
    {
        match self.sm.state {
            JsonState::Free => filled(ALLOWED, vocab_size),
            JsonState::InName => self.mask_in(&self.name_trie, vocab_size),
            JsonState::InArgKey => {
                if self.unique_arg_keys {
                    match self.remaining_key_trie() {
                        Some(t) => {
                            return self.mask_in(&t, vocab_size);
                        },
                        None => {},
                    }
                }
                match find_tool(&self.tools, &self.sm.current_function) {
                    Some(k) => {
                        proof {
                            lemma_tool_map(self.tools@, k as int);
                            assert(self.tools@[k as int].wf());
                        }
                        self.mask_in(&self.tools[k].trie, vocab_size)
                    },
                    None => {
                        proof {
                            lemma_tool_map_absent(self.tools@, self.sm.current_function@);
                        }
                        filled(ALLOWED, vocab_size)
                    },
                }
            },
        }
    }
}

proof fn lemma_is_used(used: Seq<Seq<char>>, key: Seq<char>)
    ensures
        is_used(used, encode_utf8(key)) == used.contains(key),
{
    if is_used(used, encode_utf8(key)) {
        let i = choose|i: int| 0 <= i < used.len() && encode_utf8(#[trigger] used[i]) == encode_utf8(key);
        lemma_encode_injective(used[i], key);
    }
    if used.contains(key) {
        let i = choose|i: int| 0 <= i < used.len() && used[i] == key;
        assert(encode_utf8(used[i]) == encode_utf8(key));
    }
}

proof fn lemma_unused_push(keys: Seq<Seq<u8>>, used: Seq<Seq<char>>, w: Seq<u8>)
    ensures
        unused_words(keys.push(w), used) == if is_used(used, w) {
            unused_words(keys, used)
        } else {
            unused_words(keys, used).insert(w)
        },
        some_unused(keys.push(w), used) == (some_unused(keys, used) || !is_used(used, w)),
{
    lemma_set_of_push(keys, w);
    assert forall|x: Seq<u8>| keys.push(w).contains(x) == (keys.contains(x) || x == w) by {
        assert(keys.push(w).to_set().contains(x) == keys.to_set().insert(w).contains(x));
    }
    let target = if is_used(used, w) {
        unused_words(keys, used)
    } else {
        unused_words(keys, used).insert(w)
    };
    assert forall|x: Seq<u8>| #[trigger]
        unused_words(keys.push(w), used).contains(x) == target.contains(x) by {
        assert(keys.push(w).contains(x) == (keys.contains(x) || x == w));
    }
    assert(unused_words(keys.push(w), used) =~= target);
    if some_unused(keys, used) {
        let i = choose|i: int| 0 <= i < keys.len() && !is_used(used, #[trigger] keys[i]);
        assert(keys.push(w)[i] == keys[i]);
    }
    if !is_used(used, w) {
        assert(keys.push(w)[keys.len() as int] == w);
    }
    if some_unused(keys.push(w), used) {
        let i = choose|i: int|
            0 <= i < keys.push(w).len() && !is_used(used, #[trigger] keys.push(w)[i]);
        if i < keys.len() {
            assert(keys[i] == keys.push(w)[i]);
        }
    }
}

/// Some token always stays allowed: the mask restricts which token comes next,
/// never whether one can.
pub proof fn law_mask_leaves_a_token(d: DecoderModel, vocab_size: nat)
    requires
        vocab_size > 0,
    ensures
        next_token_mask(d, vocab_size).len() == vocab_size,
        exists|id: int|
            0 <= id < vocab_size && #[trigger] next_token_mask(d, vocab_size)[id] == ALLOWED,
{
    let m = next_token_mask(d, vocab_size);
    let words = if d.sm.state == JsonState::InName {
        d.names
    } else {
        match key_words(d) {
            Some(w) => w,
            None => Set::empty(),
        }
    };
    let buf = d.sm.constrained_buf;
    if m == free_mask(vocab_size) {
        assert(m[0] == ALLOWED);
    } else {
        assert(some_id_fits(words, buf, d.token_texts, vocab_size));
        let id = choose|id: int|
            0 <= id < vocab_size && #[trigger] id_fits(words, buf, d.token_texts, id);
        assert(m[id] == ALLOWED);
    }
}

/// The mask only removes tokens that the grammar forbids: a forbidden token
/// stands inside a span, and its text cannot follow there.
pub proof fn law_mask_forbids_only_misfits(d: DecoderModel, vocab_size: nat, id: int)
    requires
        0 <= id < vocab_size,
        next_token_mask(d, vocab_size)[id] == FORBIDDEN,
    ensures
        d.sm.state != JsonState::Free,
        d.sm.state == JsonState::InName ==> !id_fits(
            d.names,
            d.sm.constrained_buf,
            d.token_texts,
            id,
        ),
        d.sm.state == JsonState::InArgKey ==> key_words(d) is Some && !id_fits(
            key_words(d)->0,
            d.sm.constrained_buf,
            d.token_texts,
            id,
        ),
{
}

/// While a name is being written and some token continues a declared name, a
/// token that closes the name can only complete a declared one.
pub proof fn law_names_come_from_the_declared_tools(d: DecoderModel, vocab_size: nat, id: int)
    requires
        d.sm.state == JsonState::InName,
        is_live_prefix(d.names, d.sm.constrained_buf),
        some_id_fits(d.names, d.sm.constrained_buf, d.token_texts, vocab_size),
        0 <= id < vocab_size,
        next_token_mask(d, vocab_size)[id] == ALLOWED,
        quote_pos(d.token_texts[id]) < d.token_texts[id].len(),
    ensures
        id < d.token_texts.len(),
        d.names.contains(
            d.sm.constrained_buf + d.token_texts[id].take(quote_pos(d.token_texts[id])),
        ),
{
    assert(id_fits(d.names, d.sm.constrained_buf, d.token_texts, id));
}

/// Where keys must not repeat and a declared key is still unused, a token that
/// closes a key completes a declared key that was not written before.
pub proof fn law_no_key_repeats_while_another_is_unused(
    d: DecoderModel,
    vocab_size: nat,
    id: int,
)
    requires
        d.sm.state == JsonState::InArgKey,
        d.unique_arg_keys,
        d.declared.contains_key(encode_utf8(d.sm.current_function)),
        some_unused(d.declared[encode_utf8(d.sm.current_function)], d.sm.used_arg_keys),
        is_live_prefix(key_words(d)->0, d.sm.constrained_buf),
        some_id_fits(key_words(d)->0, d.sm.constrained_buf, d.token_texts, vocab_size),
        0 <= id < vocab_size,
        next_token_mask(d, vocab_size)[id] == ALLOWED,
        quote_pos(d.token_texts[id]) < d.token_texts[id].len(),
    ensures
        ({
            let key = d.sm.constrained_buf + d.token_texts[id].take(quote_pos(d.token_texts[id]));
            &&& d.declared[encode_utf8(d.sm.current_function)].contains(key)
            &&& !is_used(d.sm.used_arg_keys, key)
        }),
{
    assert(id_fits(key_words(d)->0, d.sm.constrained_buf, d.token_texts, id));
}

/// A later declaration of the same name replaces the keys of an earlier one.
pub proof fn law_last_declaration_counts(tools: Seq<ToolModel>, k: int)
    requires
        0 <= k < tools.len(),
        forall|j: int| k < j < tools.len() ==> tools[j].snake_name != tools[k].snake_name,
    ensures
        declared_names(tools).contains(tools[k].snake_name),
        declared_keys(tools).contains_key(tools[k].snake_name),
        declared_keys(tools)[tools[k].snake_name] == tools[k].param_keys,
    decreases tools.len(),
{
    if k < tools.len() - 1 {
        law_last_declaration_counts(tools.drop_last(), k);
        assert(tools[tools.len() - 1].snake_name != tools[k].snake_name);
    }
}

/// A token table has the text of every id that it names, the last where it names one
/// more than once, and no text for the others.
pub proof fn law_a_token_table_holds_every_text(pairs: Seq<(u32, Seq<u8>)>, k: int)
    requires
        0 <= k < pairs.len(),
        forall|j: int| k < j < pairs.len() ==> (#[trigger] pairs[j]).0 != pairs[k].0,
    ensures
        pairs[k].0 < text_table(pairs).len(),
        text_table(pairs)[pairs[k].0 as int] == pairs[k].1,
        forall|id: int|
            0 <= id < text_table(pairs).len() && (forall|j: int|
                0 <= j < pairs.len() ==> (#[trigger] pairs[j]).0 != id) ==> (
            #[trigger] text_table(pairs)[id]).len() == 0,
{
    lemma_text_of_id(pairs, k);
    assert forall|id: int|
        0 <= id < text_table(pairs).len() && (forall|j: int|
            0 <= j < pairs.len() ==> (#[trigger] pairs[j]).0 != id) implies (
    #[trigger] text_table(pairs)[id]).len() == 0 by {
        lemma_no_text(pairs, id);
    }
}

proof fn lemma_text_of_id(pairs: Seq<(u32, Seq<u8>)>, k: int)
    requires
        0 <= k < pairs.len(),
        forall|j: int| k < j < pairs.len() ==> (#[trigger] pairs[j]).0 != pairs[k].0,
    ensures
        pairs[k].0 < table_len(pairs),
        text_of_id(pairs, pairs[k].0 as int) == pairs[k].1,
    decreases pairs.len(),
{
    let rest = pairs.drop_last();
    if k < pairs.len() - 1 {
        assert(pairs[pairs.len() - 1].0 != pairs[k].0);
        assert(rest[k] == pairs[k]);
        assert forall|j: int| k < j < rest.len() implies (#[trigger] rest[j]).0 != rest[k].0 by {
            assert(rest[j] == pairs[j]);
        }
        lemma_text_of_id(rest, k);
    }
}

proof fn lemma_no_text(pairs: Seq<(u32, Seq<u8>)>, id: int)
    requires
        forall|j: int| 0 <= j < pairs.len() ==> (#[trigger] pairs[j]).0 != id,
    ensures
        text_of_id(pairs, id).len() == 0,
    decreases pairs.len(),
{
    if pairs.len() > 0 {
        let rest = pairs.drop_last();
        assert(pairs[pairs.len() - 1].0 != id);
        assert forall|j: int| 0 <= j < rest.len() implies (#[trigger] rest[j]).0 != id by {
            assert(rest[j] == pairs[j]);
        }
        lemma_no_text(rest, id);
    }
}

/// A declared key can be closed wherever it is begun: where keys may repeat, where none
/// is unused, and where this one is. For a tool that is not declared every token may
/// follow.
pub proof fn law_declared_keys_can_be_closed(
    d: DecoderModel,
    vocab_size: nat,
    key: Seq<u8>,
    id: int,
)
    requires
        d.sm.state == JsonState::InArgKey,
        0 <= id < vocab_size,
    ensures
        ({
            let tool = encode_utf8(d.sm.current_function);
            let keys = d.declared[tool];
            &&& !d.declared.contains_key(tool) ==> next_token_mask(d, vocab_size)[id] == 0
            &&& {
                &&& d.declared.contains_key(tool)
                &&& keys.contains(key)
                &&& !d.unique_arg_keys || !is_used(d.sm.used_arg_keys, key) || !some_unused(
                    keys,
                    d.sm.used_arg_keys,
                )
                &&& d.sm.constrained_buf.len() <= key.len()
                &&& key.take(d.sm.constrained_buf.len() as int) == d.sm.constrained_buf
                &&& forall|i: int| 0 <= i < key.len() ==> #[trigger] key[i] != 0x22
                &&& id < d.token_texts.len()
                &&& d.token_texts[id] == key.skip(d.sm.constrained_buf.len() as int).push(0x22)
            } ==> next_token_mask(d, vocab_size)[id] == 0
        }),
{
    let tool = encode_utf8(d.sm.current_function);
    let keys = d.declared[tool];
    let buf = d.sm.constrained_buf;
    if {
        &&& d.declared.contains_key(tool)
        &&& keys.contains(key)
        &&& !d.unique_arg_keys || !is_used(d.sm.used_arg_keys, key) || !some_unused(
            keys,
            d.sm.used_arg_keys,
        )
        &&& buf.len() <= key.len()
        &&& key.take(buf.len() as int) == buf
        &&& forall|i: int| 0 <= i < key.len() ==> #[trigger] key[i] != 0x22
        &&& id < d.token_texts.len()
        &&& d.token_texts[id] == key.skip(buf.len() as int).push(0x22)
    } {
        let words = key_words(d)->0;
        assert(words.contains(key));
        assert(buf.is_prefix_of(key));
        let rest = key.skip(buf.len() as int);
        let t = d.token_texts[id];
        assert forall|i: int| 0 <= i < rest.len() implies #[trigger] t[i] != 0x22 by {
            assert(t[i] == key[buf.len() + i]);
        }
        lemma_quote_pos(t);
        assert(t[rest.len() as int] == 0x22);
        assert(quote_pos(t) == rest.len());
        assert(t.take(rest.len() as int) =~= rest);
        assert(buf + rest =~= key);
        assert(token_fits(words, buf, t));
        assert(id_fits(words, buf, d.token_texts, id));
    }
}

} // verus!
