//! A byte trie over a set of words.

use std::collections::HashMap;
use vstd::prelude::*;

verus! {

broadcast use vstd::std_specs::hash::group_hash_axioms;

struct TrieNode {
    children: HashMap<u8, usize>,
    is_terminal: bool,
}

/// A set of byte words, walkable one byte at a time.
///
/// Node 0 is the root. `paths` records, for each node, the bytes on the way to
/// it from the root.
pub struct Trie {
    nodes: Vec<TrieNode>,
    paths: Ghost<Seq<Seq<u8>>>,
}

/// `prefix` begins some word of `words`, or is empty.
pub open spec fn is_live_prefix(words: Set<Seq<u8>>, prefix: Seq<u8>) -> bool {
    prefix.len() == 0 || exists|w: Seq<u8>| #[trigger] words.contains(w) && prefix.is_prefix_of(w)
}

/// The position of the first `"` in `bytes`, or its length.
pub open spec fn quote_pos(bytes: Seq<u8>) -> int
    decreases bytes.len(),
{
    if bytes.len() == 0 {
        0
    } else if bytes[0] == 0x22 {
        0
    } else {
        1 + quote_pos(bytes.skip(1))
    }
}

/// A token may follow `prefix` inside a quoted span that must spell one of
/// `words`: either it closes the span behind a complete word, or it leaves a
/// prefix of some word.
pub open spec fn token_fits(words: Set<Seq<u8>>, prefix: Seq<u8>, token: Seq<u8>) -> bool {
    let q = quote_pos(token);
    if q < token.len() {
        words.contains(prefix + token.take(q))
    } else {
        is_live_prefix(words, prefix + token)
    }
}

impl View for Trie {
    type V = Set<Seq<u8>>;

    closed spec fn view(&self) -> Set<Seq<u8>> {
        Set::new(
            |w: Seq<u8>|
                exists|n: int|
                    0 <= n < self.nodes@.len() && #[trigger] self.paths@[n] == w
                        && self.nodes@[n].is_terminal,
        )
    }
}

impl Trie {
    /// Number of nodes; `0..node_count()` are the nodes.
    pub closed spec fn node_count(&self) -> nat {
        self.nodes@.len()
    }

    /// The bytes that lead from the root to `n`.
    pub closed spec fn path(&self, n: int) -> Seq<u8> {
        self.paths@[n]
    }

    spec fn edge(&self, p: int, b: u8, c: int) -> bool {
        &&& self.nodes@[p].children@.contains_key(b)
        &&& self.nodes@[p].children@[b] == c
    }

    #[verifier::opaque]
    spec fn shape(&self) -> bool {
        &&& self.nodes@.len() == self.paths@.len()
        &&& self.nodes@.len() >= 1
        &&& self.paths@[0] == Seq::<u8>::empty()
        &&& forall|p: int, b: u8|
            0 <= p < self.nodes@.len() && #[trigger] self.nodes@[p].children@.contains_key(b) ==> {
                let c = self.nodes@[p].children@[b];
                c < self.nodes@.len() && self.paths@[c as int] == self.paths@[p].push(b)
            }
        &&& forall|c: int|
            0 < c < self.nodes@.len() ==> {
                &&& (#[trigger] self.paths@[c]).len() > 0
                &&& exists|p: int|
                    0 <= p < self.nodes@.len() && self.paths@[p] == self.paths@[c].drop_last()
                        && #[trigger] self.edge(p, self.paths@[c].last(), c)
            }
        &&& forall|i: int, j: int|
            0 <= i < self.nodes@.len() && 0 <= j < self.nodes@.len()
                && #[trigger] self.paths@[i] == #[trigger] self.paths@[j] ==> i == j
    }

    spec fn leads_to_word(&self, n: int) -> bool {
        exists|t: int|
            0 <= t < self.nodes@.len() && self.nodes@[t].is_terminal && self.paths@[n].is_prefix_of(
                #[trigger] self.paths@[t],
            )
    }

    /// Well-formedness: the nodes form a tree whose paths are pairwise
    /// different, and every node but the root lies on the way to a word.
    pub closed spec fn wf(&self) -> bool {
        &&& self.shape()
        &&& forall|n: int| 0 < n < self.nodes@.len() ==> #[trigger] self.leads_to_word(n)
    }

    spec fn has_path(&self, w: Seq<u8>) -> bool {
        exists|n: int| 0 <= n < self.nodes@.len() && #[trigger] self.paths@[n] == w
    }

    proof fn lemma_parent_path(&self, w: Seq<u8>, b: u8) -> (p: int)
        requires
            self.shape(),
            self.has_path(w.push(b)),
        ensures
            0 <= p < self.nodes@.len(),
            self.paths@[p] == w,
            self.nodes@[p].children@.contains_key(b),
            self.paths@[self.nodes@[p].children@[b] as int] == w.push(b),
    {
        reveal(Trie::shape);
        let c = choose|n: int| 0 <= n < self.nodes@.len() && #[trigger] self.paths@[n] == w.push(b);
        assert(w.push(b).len() > 0);
        assert(c > 0);
        let p = choose|p: int|
            0 <= p < self.nodes@.len() && self.paths@[p] == self.paths@[c].drop_last()
                && #[trigger] self.edge(p, self.paths@[c].last(), c);
        assert(w.push(b).drop_last() =~= w);
        p
    }

    proof fn lemma_prefix_path(&self, w: Seq<u8>, k: int)
        requires
            self.shape(),
            self.has_path(w),
            0 <= k <= w.len(),
        ensures
            self.has_path(w.take(k)),
        decreases w.len() - k,
    {
        reveal(Trie::shape);
        if k == w.len() {
            assert(w.take(k) =~= w);
        } else {
            self.lemma_prefix_path(w, k + 1);
            assert(w.take(k + 1) =~= w.take(k).push(w[k]));
            let p = self.lemma_parent_path(w.take(k), w[k]);
            assert(self.paths@[p] == w.take(k));
        }
    }

    proof fn lemma_live(&self, w: Seq<u8>)
        requires
            self.wf(),
        ensures
            self.has_path(w) <==> is_live_prefix(self@, w),
    {
        reveal(Trie::shape);
        if self.has_path(w) && w.len() > 0 {
            let n = choose|n: int| 0 <= n < self.nodes@.len() && #[trigger] self.paths@[n] == w;
            assert(self.leads_to_word(n));
            let t = choose|t: int|
                0 <= t < self.nodes@.len() && self.nodes@[t].is_terminal
                    && self.paths@[n].is_prefix_of(#[trigger] self.paths@[t]);
            assert(self@.contains(self.paths@[t]));
        }
        if w.len() == 0 {
            assert(w =~= self.paths@[0]);
        } else if is_live_prefix(self@, w) {
            let full = choose|full: Seq<u8>|
                #[trigger] self@.contains(full) && w.is_prefix_of(full);
            let n = choose|n: int| 0 <= n < self.nodes@.len() && #[trigger] self.paths@[n] == full;
            assert(self.has_path(full));
            self.lemma_prefix_path(full, w.len() as int);
            assert(full.take(w.len() as int) =~= w);
        }
    }

    /// The node of `word`, reached by following its bytes from the root.
    proof fn lemma_terminal(&self, n: int)
        requires
            self.shape(),
            0 <= n < self.nodes@.len(),
        ensures
            self.nodes@[n].is_terminal <==> self@.contains(self.paths@[n]),
    {
        reveal(Trie::shape);
        if self@.contains(self.paths@[n]) {
            let m = choose|m: int|
                0 <= m < self.nodes@.len() && #[trigger] self.paths@[m] == self.paths@[n]
                    && self.nodes@[m].is_terminal;
            assert(m == n);
        }
    }

    /// A trie without words.
    pub fn new() -> (t: Self)
        ensures
            t.wf(),
            t@ == Set::<Seq<u8>>::empty(),
            t.node_count() == 1,
            t.path(0) == Seq::<u8>::empty(),
    {
        let mut nodes: Vec<TrieNode> = Vec::new();
        nodes.push(TrieNode { children: HashMap::new(), is_terminal: false });
        let ghost root_path: Seq<Seq<u8>> = seq![Seq::<u8>::empty()];
        let t = Trie { nodes, paths: Ghost(root_path) };
        assert(t.shape()) by {
            reveal(Trie::shape);
        }
        assert(t@ =~= Set::<Seq<u8>>::empty());
        t
    }

    /// The number of nodes.
    pub fn len(&self) -> (n: usize)
        ensures
            n == self.node_count(),
    {
        self.nodes.len()
    }

    /// Add one word. The nodes that are there keep their place, and a word that
    /// begins another, or is there already, adds none.
    #[verifier::spinoff_prover]
    pub fn insert(&mut self, s: &[u8])
        requires
            old(self).wf(),
        ensures
            is_inserted(*old(self), *final(self), s@),
    {
        let mut cur: usize = 0;
        let mut k: usize = 0;
        let ghost before = *self;
        proof {
            self.lemma_root();
            assert(s@.take(0) =~= Seq::<u8>::empty());
        }
        while k < s.len()
            invariant
                k <= s.len(),
                self.shape(),
                before.wf(),
                cur < self.nodes@.len(),
                self.paths@[cur as int] == s@.take(k as int),
                before.nodes@.len() <= self.nodes@.len(),
                forall|n: int|
                    0 <= n < before.nodes@.len() ==> {
                        &&& #[trigger] self.paths@[n] == before.paths@[n]
                        &&& self.nodes@[n].is_terminal == before.nodes@[n].is_terminal
                    },
                forall|n: int|
                    before.nodes@.len() <= n < self.nodes@.len() ==> {
                        &&& (#[trigger] self.paths@[n]).is_prefix_of(s@)
                        &&& !self.nodes@[n].is_terminal
                    },
                before.has_path(s@) ==> *self == before,
            decreases s.len() - k,
        {
            let b: u8 = s[k];
            let found: Option<usize> = match self.nodes[cur].children.get(&b) {
                Some(n) => Some(*n),
                None => None,
            };
            let ghost prev = *self;
            proof {
                assert(s@.take(k + 1) =~= s@.take(k as int).push(b));
                if found is Some {
                    self.lemma_edge(cur as int, b);
                }
                self.lemma_root();
            }
            cur = match found {
                Some(n) => n,
                None => {
                    proof {
                        if before.has_path(s@) {
                            before.lemma_prefix_path(s@, k + 1);
                            let p = before.lemma_parent_path(s@.take(k as int), b);
                            before.lemma_unique(p, cur as int);
                        }
                    }
                    let n: usize = self.nodes.len();
                    self.nodes.push(TrieNode { children: HashMap::new(), is_terminal: false });
                    let ghost pushed = *self;
                    self.nodes[cur].children.insert(b, n);
                    proof {
                        assert(self.nodes@ =~= pushed.nodes@.update(cur as int, self.nodes@[cur as int]));
                        assert(self.nodes@[cur as int].is_terminal == pushed.nodes@[cur as int].is_terminal);
                        self.paths@ = self.paths@.push(s@.take(k + 1));
                        self.lemma_grown(prev, cur as int, b, n);
                        assert(s@.take(k + 1).is_prefix_of(s@));
                        assert forall|m: int| 0 <= m < before.nodes@.len() implies {
                            &&& #[trigger] self.paths@[m] == before.paths@[m]
                            &&& self.nodes@[m].is_terminal == before.nodes@[m].is_terminal
                        } by {
                            assert(self.paths@[m] == prev.paths@[m]);
                        }
                        assert forall|m: int| before.nodes@.len() <= m < self.nodes@.len() implies {
                            &&& (#[trigger] self.paths@[m]).is_prefix_of(s@)
                            &&& !self.nodes@[m].is_terminal
                        } by {
                            if m < n {
                                assert(self.paths@[m] == prev.paths@[m]);
                                assert(self.nodes@[m].is_terminal == prev.nodes@[m].is_terminal);
                            } else {
                                assert(m == n);
                                assert(self.paths@[m] == s@.take(k + 1));
                                assert(self.nodes@[m] == pushed.nodes@[m]);
                            }
                        }
                    }
                    n
                },
            };
            k = k + 1;
        }
        let ghost prev = *self;
        self.nodes[cur].is_terminal = true;
        proof {
            assert(s@.take(s@.len() as int) =~= s@);
            assert(self.paths@[cur as int] == s@);
            assert(self.nodes@ =~= prev.nodes@.update(cur as int, self.nodes@[cur as int]));
            assert(self.nodes@[cur as int].children == prev.nodes@[cur as int].children);
            self.lemma_same_tree(prev);
            self.lemma_root();
            assert forall|n: int| 0 < n < self.nodes@.len() implies #[trigger] self.leads_to_word(n) by {
                if n < before.nodes@.len() {
                    assert(before.leads_to_word(n));
                    let t = choose|t: int|
                        0 <= t < before.nodes@.len() && before.nodes@[t].is_terminal
                            && before.paths@[n].is_prefix_of(#[trigger] before.paths@[t]);
                    assert(self.paths@[t] == before.paths@[t]);
                    assert(self.nodes@[t].is_terminal);
                } else {
                    assert(self.paths@[n].is_prefix_of(self.paths@[cur as int]));
                }
            }
            assert forall|w: Seq<u8>| self@.contains(w) == old(self)@.insert(s@).contains(w) by {
                if self@.contains(w) {
                    let n = choose|n: int|
                        0 <= n < self.nodes@.len() && #[trigger] self.paths@[n] == w
                            && self.nodes@[n].is_terminal;
                    if n != cur {
                        assert(n < before.nodes@.len());
                        assert(before.paths@[n] == w);
                    }
                }
                if old(self)@.contains(w) {
                    let n = choose|n: int|
                        0 <= n < before.nodes@.len() && #[trigger] before.paths@[n] == w
                            && before.nodes@[n].is_terminal;
                    assert(self.paths@[n] == w);
                }
            }
            assert(self@ =~= old(self)@.insert(s@));
            before.lemma_live(s@);
        }
    }

    proof fn lemma_root(&self)
        requires
            self.shape(),
        ensures
            self.nodes@.len() == self.paths@.len(),
            self.nodes@.len() >= 1,
            self.paths@[0] == Seq::<u8>::empty(),
    {
        reveal(Trie::shape);
    }

    proof fn lemma_unique(&self, i: int, j: int)
        requires
            self.shape(),
            0 <= i < self.nodes@.len(),
            0 <= j < self.nodes@.len(),
            self.paths@[i] == self.paths@[j],
        ensures
            i == j,
    {
        reveal(Trie::shape);
    }

    proof fn lemma_edge(&self, p: int, b: u8)
        requires
            self.shape(),
            0 <= p < self.nodes@.len(),
            self.nodes@[p].children@.contains_key(b),
        ensures
            self.nodes@[p].children@[b] < self.nodes@.len(),
            self.paths@[self.nodes@[p].children@[b] as int] == self.paths@[p].push(b),
    {
        reveal(Trie::shape);
    }

    /// The shape rests on paths and edges alone.
    proof fn lemma_same_tree(&self, prev: Trie)
        requires
            prev.shape(),
            self.paths@ == prev.paths@,
            self.nodes@.len() == prev.nodes@.len(),
            forall|n: int|
                0 <= n < prev.nodes@.len() ==> (#[trigger] self.nodes@[n]).children
                    == prev.nodes@[n].children,
        ensures
            self.shape(),
    {
        reveal(Trie::shape);
        assert forall|c: int| 0 < c < self.nodes@.len() implies {
            &&& (#[trigger] self.paths@[c]).len() > 0
            &&& exists|q: int|
                0 <= q < self.nodes@.len() && self.paths@[q] == self.paths@[c].drop_last()
                    && #[trigger] self.edge(q, self.paths@[c].last(), c)
        } by {
            let q = choose|q: int|
                0 <= q < prev.nodes@.len() && prev.paths@[q] == prev.paths@[c].drop_last()
                    && #[trigger] prev.edge(q, prev.paths@[c].last(), c);
            assert(self.nodes@[q].children == prev.nodes@[q].children);
            assert(self.edge(q, self.paths@[c].last(), c));
        }
    }

    /// Adding a leaf below `p` on a byte that had no edge keeps the shape.
    proof fn lemma_grown(&self, prev: Trie, p: int, b: u8, new: usize)
        requires
            prev.shape(),
            0 <= p < prev.nodes@.len(),
            new as int == prev.nodes@.len(),
            !prev.nodes@[p].children@.contains_key(b),
            self.nodes@.len() == prev.nodes@.len() + 1,
            self.paths@ == prev.paths@.push(prev.paths@[p].push(b)),
            forall|n: int|
                0 <= n < prev.nodes@.len() && n != p ==> #[trigger] self.nodes@[n] == prev.nodes@[n],
            self.nodes@[p].children@ == prev.nodes@[p].children@.insert(
                b,
                new,
            ),
            self.nodes@[new as int].children@ == Map::<u8, usize>::empty(),
        ensures
            self.shape(),
    {
        reveal(Trie::shape);
        let w = prev.paths@[p].push(b);
        if prev.has_path(w) {
            let q = prev.lemma_parent_path(prev.paths@[p], b);
            assert(q == p);
        }
        assert forall|c: int| 0 < c < self.nodes@.len() implies {
            &&& (#[trigger] self.paths@[c]).len() > 0
            &&& exists|q: int|
                0 <= q < self.nodes@.len() && self.paths@[q] == self.paths@[c].drop_last()
                    && #[trigger] self.edge(q, self.paths@[c].last(), c)
        } by {
            if c < new {
                assert(self.paths@[c] == prev.paths@[c]);
                let q = choose|q: int|
                    0 <= q < prev.nodes@.len() && prev.paths@[q] == prev.paths@[c].drop_last()
                        && #[trigger] prev.edge(q, prev.paths@[c].last(), c);
                assert(self.edge(q, self.paths@[c].last(), c));
            } else {
                assert(w.drop_last() =~= prev.paths@[p]);
                assert(self.edge(p, self.paths@[c].last(), c));
            }
        }
        assert forall|i: int, j: int|
            0 <= i < self.nodes@.len() && 0 <= j < self.nodes@.len() && #[trigger] self.paths@[i]
                == #[trigger] self.paths@[j] implies i == j by {
            if i < new && j < new {
                assert(self.paths@[i] == prev.paths@[i]);
                assert(self.paths@[j] == prev.paths@[j]);
            } else if i < new {
                assert(prev.paths@[i] == w);
            } else if j < new {
                assert(prev.paths@[j] == w);
            }
        }
    }

    /// Follow `bytes` from `node`.
    ///
    /// The walk succeeds exactly when the bytes that led to `node` and `bytes`
    /// together begin some word. Following no bytes stays at `node`, whatever
    /// it is.
    pub fn advance(&self, node: usize, bytes: &[u8]) -> (r: Option<usize>)
        requires
            self.wf(),
            node < self.node_count() || bytes@.len() == 0,
        ensures
            node < self.node_count() ==> (r is Some <==> is_live_prefix(
                self@,
                self.path(node as int) + bytes@,
            )),
            node < self.node_count() && r is Some ==> r->0 < self.node_count() && self.path(
                r->0 as int,
            ) == self.path(node as int) + bytes@,
            bytes@.len() == 0 ==> r == Some(node),
    {
        if bytes.len() == 0 {
            proof {
                self.lemma_live_start(node as int);
                assert(self.path(node as int) + bytes@ =~= self.path(node as int));
            }
            return Some(node);
        }
        let mut cur: usize = node;
        let mut k: usize = 0;
        proof {
            assert(self.paths@[node as int] + bytes@.take(0) =~= self.paths@[node as int]);
            self.lemma_live(self.paths@[node as int] + bytes@);
        }
        while k < bytes.len()
            invariant
                k <= bytes.len(),
                self.wf(),
                node < self.nodes@.len(),
                cur < self.nodes@.len(),
                self.paths@[cur as int] == self.paths@[node as int] + bytes@.take(k as int),
                self.has_path(self.paths@[node as int] + bytes@) <==> is_live_prefix(
                    self@,
                    self.paths@[node as int] + bytes@,
                ),
            decreases bytes.len() - k,
        {
            let b: u8 = bytes[k];
            let ghost start = self.paths@[node as int];
            proof {
                assert(start + bytes@.take(k + 1) =~= (start + bytes@.take(k as int)).push(b));
            }
            match self.child(cur, b) {
                Some(n) => {
                    cur = n;
                },
                None => {
                    proof {
                        if self.has_path(start + bytes@) {
                            self.lemma_prefix_path(start + bytes@, start.len() + k + 1);
                            assert((start + bytes@).take(start.len() + k + 1) =~= start
                                + bytes@.take(k + 1));
                            let p = self.lemma_parent_path(start + bytes@.take(k as int), b);
                        }
                    }
                    return None;
                },
            }
            k = k + 1;
        }
        proof {
            assert(bytes@.take(bytes@.len() as int) =~= bytes@);
        }
        Some(cur)
    }

    /// Whether a word ends at `node`. No word ends outside the trie.
    pub fn is_terminal(&self, node: usize) -> (r: bool)
        requires
            self.wf(),
        ensures
            r == (node < self.node_count() && self@.contains(self.path(node as int))),
    {
        if node < self.nodes.len() {
            proof {
                self.lemma_terminal(node as int);
            }
            self.nodes[node].is_terminal
        } else {
            false
        }
    }

    /// The node one byte below `node`: there is one exactly when the longer
    /// path still begins some word. Nothing lies below a node outside the trie.
    pub fn child(&self, node: usize, b: u8) -> (r: Option<usize>)
        requires
            self.wf(),
        ensures
            r is Some <==> node < self.node_count() && is_live_prefix(
                self@,
                self.path(node as int).push(b),
            ),
            r is Some ==> r->0 < self.node_count() && self.path(r->0 as int) == self.path(
                node as int,
            ).push(b),
    {
        if node < self.nodes.len() {
            let r: Option<usize> = match self.nodes[node].children.get(&b) {
                Some(n) => Some(*n),
                None => None,
            };
            proof {
                let w = self.paths@[node as int].push(b);
                self.lemma_live(w);
                if r is Some {
                    self.lemma_edge(node as int, b);
                    assert(self.paths@[r->0 as int] == w);
                } else if self.has_path(w) {
                    let p = self.lemma_parent_path(self.paths@[node as int], b);
                    self.lemma_unique(p, node as int);
                }
            }
            r
        } else {
            None
        }
    }
}

/// `after` is `before` with one more word: its nodes keep their numbers and their
/// paths, and it has new ones only where the word left the paths that were there.
pub open spec fn is_inserted(before: Trie, after: Trie, word: Seq<u8>) -> bool {
    &&& after.wf()
    &&& after@ == before@.insert(word)
    &&& after.node_count() >= before.node_count()
    &&& forall|n: int|
        0 <= n < before.node_count() ==> #[trigger] after.path(n) == before.path(n)
    &&& is_live_prefix(before@, word) ==> after.node_count() == before.node_count()
}

/// Nodes are told apart by the bytes that lead to them.
pub proof fn law_paths_tell_nodes_apart(t: Trie, i: int, j: int)
    requires
        t.wf(),
        0 <= i < t.node_count(),
        0 <= j < t.node_count(),
        t.path(i) == t.path(j),
    ensures
        i == j,
{
    t.lemma_unique(i, j);
}

/// Adding a word keeps every walk: bytes that led to a node lead to the same node,
/// and the words are those from before and the new one.
pub proof fn law_inserting_keeps_walks(
    before: Trie,
    after: Trie,
    word: Seq<u8>,
    from: int,
    bytes: Seq<u8>,
    n: int,
)
    requires
        before.wf(),
        is_inserted(before, after, word),
        0 <= from < before.node_count(),
        0 <= n < before.node_count(),
        before.path(n) == before.path(from) + bytes,
    ensures
        is_live_prefix(before@, before.path(from) + bytes),
        is_live_prefix(after@, after.path(from) + bytes),
        forall|r: int|
            0 <= r < after.node_count() && #[trigger] after.path(r) == after.path(from) + bytes
                ==> r == n,
        forall|w: Seq<u8>|
            #[trigger] after@.contains(w) <==> before@.contains(w) || w == word,
{
    let p = before.path(n);
    before.lemma_live(p);
    assert(before.has_path(p));
    assert(after.path(n) == p);
    after.lemma_live(p);
    after.lemma_root();
    assert(after.has_path(p)) by {
        assert(after.paths@[n] == p);
    }
    assert forall|r: int|
        0 <= r < after.node_count() && #[trigger] after.path(r) == after.path(from)
            + bytes implies r == n by {
        after.lemma_unique(r, n);
    }
}

/// Adding a word that is there changes no walk and no answer: there are the same
/// nodes at the same places, and the same words.
pub proof fn law_inserting_twice_is_inserting_once(before: Trie, after: Trie, word: Seq<u8>)
    requires
        before.wf(),
        is_inserted(before, after, word),
        before@.contains(word),
    ensures
        after@ == before@,
        after.node_count() == before.node_count(),
        forall|n: int|
            0 <= n < after.node_count() ==> #[trigger] after.path(n) == before.path(n),
{
    assert(word.is_prefix_of(word));
    assert(before@.insert(word) =~= before@);
}

impl Default for Trie {
    fn default() -> (t: Self)
        ensures
            t.wf(),
            t@ == Set::<Seq<u8>>::empty(),
    {
        Trie::new()
    }
}

/// Walk `bytes` byte by byte through the trie from `start_node`.
///
/// A `"` ends the span and is valid only where a word ends; a byte without an
/// edge is invalid; running out of bytes leaves a valid prefix. What follows
/// the `"` is not looked at. From a node outside the trie only the empty token
/// is valid.
pub fn check_token_valid(bytes: &[u8], trie: &Trie, start_node: usize) -> (r: bool)
    requires
        trie.wf(),
    ensures
        start_node < trie.node_count() ==> r == token_fits(
            trie@,
            trie.path(start_node as int),
            bytes@,
        ),
        start_node >= trie.node_count() ==> r == (bytes@.len() == 0),
{
    let mut cur: usize = start_node;
    let mut k: usize = 0;
    let ghost start = trie.path(start_node as int);
    proof {
        assert(start + bytes@.take(0) =~= start);
        assert(bytes@.skip(0) =~= bytes@);
        trie.lemma_live_start(start_node as int);
    }
    while k < bytes.len()
        invariant
            k <= bytes.len(),
            trie.wf(),
            start == trie.path(start_node as int),
            start_node >= trie.node_count() ==> k == 0 && cur == start_node,
            start_node < trie.node_count() ==> {
                &&& cur < trie.node_count()
                &&& trie.path(cur as int) == start + bytes@.take(k as int)
                &&& is_live_prefix(trie@, start + bytes@.take(k as int))
            },
            quote_pos(bytes@) == k + quote_pos(bytes@.skip(k as int)),
        decreases bytes.len() - k,
    {
        let b: u8 = bytes[k];
        assert(bytes@.skip(k as int)[0] == b);
        if b == 0x22 {
            return trie.is_terminal(cur);
        }
        proof {
            assert(bytes@.skip(k as int).skip(1) =~= bytes@.skip(k + 1));
            assert(start + bytes@.take(k + 1) =~= (start + bytes@.take(k as int)).push(b));
        }
        match trie.child(cur, b) {
            Some(n) => {
                cur = n;
            },
            None => {
                proof {
                    lemma_quote_pos(bytes@.skip(k + 1));
                    if start_node < trie.node_count() {
                        lemma_dead_prefix(trie@, start, bytes@, k + 1);
                    }
                }
                return false;
            },
        }
        k = k + 1;
    }
    proof {
        assert(bytes@.take(bytes@.len() as int) =~= bytes@);
        lemma_quote_pos(bytes@.skip(bytes@.len() as int));
    }
    true
}

impl Trie {
    /// Different nodes have different paths.
    pub proof fn lemma_paths_differ(&self, i: int, j: int)
        requires
            self.wf(),
            0 <= i < self.node_count(),
            0 <= j < self.node_count(),
            self.path(i) == self.path(j),
        ensures
            i == j,
    {
        self.lemma_unique(i, j);
    }

    /// The root is a node, and no byte leads to it.
    pub proof fn lemma_root_node(&self)
        requires
            self.wf(),
        ensures
            self.node_count() >= 1,
            self.path(0) == Seq::<u8>::empty(),
    {
        self.lemma_root();
    }

    /// Every node of a trie is reached by a live prefix.
    pub proof fn lemma_live_start(&self, n: int)
        requires
            self.wf(),
        ensures
            0 <= n < self.node_count() ==> is_live_prefix(self@, self.path(n)),
    {
        if 0 <= n < self.node_count() {
            self.lemma_live(self.paths@[n]);
            assert(self.has_path(self.paths@[n]));
        }
    }
}

/// `quote_pos` lies within the bytes.
pub proof fn lemma_quote_pos(bytes: Seq<u8>)
    ensures
        0 <= quote_pos(bytes) <= bytes.len(),
        quote_pos(bytes) < bytes.len() ==> bytes[quote_pos(bytes)] == 0x22,
        forall|i: int| 0 <= i < quote_pos(bytes) ==> bytes[i] != 0x22,
    decreases bytes.len(),
{
    if bytes.len() > 0 && bytes[0] != 0x22 {
        lemma_quote_pos(bytes.skip(1));
        assert forall|i: int| 0 <= i < quote_pos(bytes) implies bytes[i] != 0x22 by {
            if i > 0 {
                assert(bytes.skip(1)[i - 1] == bytes[i]);
            }
        }
    }
}

/// A token that leaves the words at its `k`th byte does not fit.
proof fn lemma_dead_prefix(words: Set<Seq<u8>>, start: Seq<u8>, token: Seq<u8>, k: int)
    requires
        0 <= k <= token.len(),
        k <= quote_pos(token),
        !is_live_prefix(words, start + token.take(k)),
    ensures
        !token_fits(words, start, token),
{
    lemma_quote_pos(token);
    let q = quote_pos(token);
    let head = start + token.take(k);
    if q < token.len() {
        let full = start + token.take(q);
        if words.contains(full) {
            assert(head.is_prefix_of(full)) by {
                assert(full.take(head.len() as int) =~= head);
            }
        }
    } else {
        let full = start + token;
        if is_live_prefix(words, full) {
            let w = choose|w: Seq<u8>| #[trigger] words.contains(w) && full.is_prefix_of(w);
            assert(head =~= full.take(head.len() as int));
            assert(head =~= w.take(head.len() as int));
        }
    }
}

} // verus!
