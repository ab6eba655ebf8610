//! Surface-to-id lookup over the pieces of a vocabulary.

use crate::json_scan::encodings;
use crate::trie::{is_live_prefix, Trie};
use vstd::prelude::*;
use vstd::string::*;
use vstd::utf8::*;

verus! {

/// The last position at which `w` stands among the first `n` words.
pub open spec fn last_index(words: Seq<Seq<u8>>, w: Seq<u8>, n: int) -> Option<int>
    decreases n,
{
    if n <= 0 {
        None
    } else if words[n - 1] == w {
        Some(n - 1)
    } else {
        last_index(words, w, n - 1)
    }
}

/// What `last_index` finds is the word's last position.
pub proof fn lemma_last_index(words: Seq<Seq<u8>>, w: Seq<u8>, n: int)
    requires
        n <= words.len(),
    ensures
        match last_index(words, w, n) {
            Some(i) => 0 <= i < n && words[i] == w && forall|j: int| i < j < n ==> words[j] != w,
            None => forall|j: int| 0 <= j < n ==> words[j] != w,
        },
    decreases n,
{
    if n > 0 && words[n - 1] != w {
        lemma_last_index(words, w, n - 1);
    }
}

/// Finds the id of a piece by its surface. Where two pieces have the same
/// surface the later one is found.
pub struct WordMap {
    trie: Trie,
    ids: Vec<Option<u32>>,
    words: Ghost<Seq<Seq<u8>>>,
}

impl View for WordMap {
    type V = Seq<Seq<u8>>;

    closed spec fn view(&self) -> Seq<Seq<u8>> {
        self.words@
    }
}

spec fn as_id(i: Option<int>) -> Option<u32> {
    match i {
        Some(k) => Some(k as u32),
        None => None,
    }
}

impl WordMap {
    /// Well-formedness: every word has a node, and each node carries the last
    /// position of the word it stands for.
    pub closed spec fn wf(&self) -> bool {
        &&& self.trie.wf()
        &&& self.words@.len() <= u32::MAX
        &&& self.trie@ == self.words@.to_set()
        &&& self.ids@.len() == self.trie.node_count()
        &&& forall|n: int|
            0 <= n < self.ids@.len() ==> #[trigger] self.ids@[n] == as_id(
                last_index(self.words@, self.trie.path(n), self.words@.len() as int),
            )
    }

    /// The lookup over `pieces`.
    pub fn from_pieces(pieces: &Vec<String>) -> (m: WordMap)
        requires
            pieces@.len() <= u32::MAX,
        ensures
            m.wf(),
            m@ == encodings(pieces@),
    {
        let ghost words = encodings(pieces@);
        let mut trie = Trie::new();
        let mut i: usize = 0;
        proof {
            assert(words.take(0).to_set() =~= Set::<Seq<u8>>::empty());
        }
        while i < pieces.len()
            invariant
                i <= pieces@.len(),
                words == encodings(pieces@),
                trie.wf(),
                trie@ == words.take(i as int).to_set(),
            decreases pieces@.len() - i,
        {
            trie.insert(pieces[i].as_str().as_bytes());
            proof {
                assert(words.take(i + 1) =~= words.take(i as int).push(words[i as int]));
                lemma_set_of_push(words.take(i as int), words[i as int]);
            }
            i = i + 1;
        }
        proof {
            assert(words.take(words.len() as int) =~= words);
        }
        let n: usize = trie.len();
        let mut ids: Vec<Option<u32>> = Vec::new();
        let mut k: usize = 0;
        while k < n
            invariant
                k <= n,
                ids@.len() == k,
                forall|j: int| 0 <= j < k ==> #[trigger] ids@[j] is None,
            decreases n - k,
        {
            ids.push(None);
            k = k + 1;
        }
        i = 0;
        while i < pieces.len()
            invariant
                i <= pieces@.len(),
                pieces@.len() <= u32::MAX,
                words == encodings(pieces@),
                trie.wf(),
                trie@ == words.to_set(),
                n == trie.node_count(),
                ids@.len() == n,
                forall|j: int|
                    0 <= j < n ==> #[trigger] ids@[j] == as_id(
                        last_index(words, trie.path(j), i as int),
                    ),
            decreases pieces@.len() - i,
        {
            let ghost w = words[i as int];
            proof {
                trie.lemma_root_node();
                assert(trie.path(0) + w =~= w);
                assert(words.contains(w));
                assert(trie@.contains(w));
                assert(w.is_prefix_of(w));
                assert(is_live_prefix(trie@, w));
            }
            let ghost before = ids@;
            match trie.advance(0, pieces[i].as_str().as_bytes()) {
                Some(node) => {
                    ids.set(node, Some(i as u32));
                    proof {
                        assert forall|j: int| 0 <= j < n implies #[trigger] ids@[j] == as_id(
                            last_index(words, trie.path(j), i + 1),
                        ) by {
                            if j != node {
                                if trie.path(j) == w {
                                    trie.lemma_paths_differ(j, node as int);
                                }
                                assert(ids@[j] == before[j]);
                            }
                        }
                    }
                },
                None => {},
            }
            i = i + 1;
        }
        WordMap { trie, ids, words: Ghost(words) }
    }

    /// The id of a surface.
    pub fn get(&self, w: &[u8]) -> (r: Option<u32>)
        requires
            self.wf(),
        ensures
            match r {
                Some(id) => last_index(self@, w@, self@.len() as int) == Some(id as int),
                None => last_index(self@, w@, self@.len() as int) is None,
            },
            r is Some ==> r->0 < self@.len(),
    {
        proof {
            self.trie.lemma_root_node();
            assert(self.trie.path(0) + w@ =~= w@);
            lemma_last_index(self.words@, w@, self.words@.len() as int);
        }
        match self.trie.advance(0, w) {
            Some(node) => self.ids[node],
            None => {
                proof {
                    if last_index(self@, w@, self@.len() as int) is Some {
                        assert(self.words@.contains(w@));
                        assert(self.trie@.contains(w@));
                        assert(w@.is_prefix_of(w@));
                    }
                }
                None
            },
        }
    }
}

/// The set of a sequence with one more element.
pub proof fn lemma_set_of_push(s: Seq<Seq<u8>>, w: Seq<u8>)
    ensures
        s.push(w).to_set() == s.to_set().insert(w),
{
    assert forall|x: Seq<u8>| #[trigger]
        s.push(w).to_set().contains(x) == s.to_set().insert(w).contains(x) by {
        if s.contains(x) {
            let i = choose|i: int| 0 <= i < s.len() && s[i] == x;
            assert(s.push(w)[i] == x);
        }
        if x == w {
            assert(s.push(w)[s.len() as int] == x);
        }
        if s.push(w).contains(x) {
            let i = choose|i: int| 0 <= i < s.push(w).len() && s.push(w)[i] == x;
            if i < s.len() {
                assert(s[i] == x);
            }
        }
    }
    assert(s.push(w).to_set() =~= s.to_set().insert(w));
}

} // verus!
