//! Ranking tool descriptions by their similarity to a query.

use crate::bits::{f32_total_key, total_key};
use crate::json_machine::views;
use crate::numerals::{decimal, push_size};
use vstd::multiset::Multiset;
use vstd::prelude::*;
use vstd::seq_lib::*;
use vstd::string::*;

verus! {

/// What `serde_json` reads from a JSON text as a list of strings: none where the
/// text is not one.
pub uninterp spec fn json_strings(json: Seq<char>) -> Option<Seq<Seq<char>>>;

/// Calls `serde_json::from_str` for a list of strings. The contract names its
/// result: the strings in order, or nothing where it reports an error.
#[verifier::external_body]
fn read_json_strings(json: &str) -> (r: Option<Vec<String>>)
    ensures
        match r {
            Some(v) => json_strings(json@) == Some(views(v@)),
            None => json_strings(json@) is None,
        },
{
    serde_json::from_str(json).ok()
}

/// A description with its score, as float bits.
pub type Scored = (usize, u32);

/// `a` ranks before `b`: by the larger score, and by the smaller index among
/// equal ones. Scores are compared in the total order of floats.
pub open spec fn ranks_before(a: Scored, b: Scored) -> bool {
    f32_total_key(a.1) > f32_total_key(b.1) || (f32_total_key(a.1) == f32_total_key(b.1) && a.0
        < b.0)
}

/// Every entry ranks before all that follow it.
pub open spec fn is_ranked(s: Seq<Scored>) -> bool {
    forall|i: int, j: int| 0 <= i < j < s.len() ==> ranks_before(#[trigger] s[i], #[trigger] s[j])
}

/// The descriptions that have a score, in order, among the first `n`.
pub open spec fn scored(scores: Seq<Option<u32>>, n: int) -> Seq<Scored>
    decreases n,
{
    if n <= 0 {
        Seq::empty()
    } else {
        match scores[n - 1] {
            Some(v) => scored(scores, n - 1).push(((n - 1) as usize, v)),
            None => scored(scores, n - 1),
        }
    }
}

/// `r` holds the best `top_k` of the descriptions that have a score, best first.
pub open spec fn is_ranking(r: Seq<Scored>, scores: Seq<Option<u32>>, top_k: int) -> bool {
    exists|all: Seq<Scored>|
        #[trigger] is_ranked(all) && all.to_multiset() == scored(
            scores,
            scores.len() as int,
        ).to_multiset() && r == if all.len() > top_k {
            all.take(top_k)
        } else {
            all
        }
}

/// Put an entry behind all that do not rank after it.
fn place(v: &mut Vec<Scored>, x: Scored)
    requires
        is_ranked(old(v)@),
        forall|i: int| 0 <= i < old(v)@.len() ==> (#[trigger] old(v)@[i]).0 < x.0,
    ensures
        is_ranked(final(v)@),
        final(v)@.to_multiset() == old(v)@.to_multiset().insert(x),
{
    let ghost before = v@;
    let mut k: usize = 0;
    while k < v.len() && total_key(v[k].1) >= total_key(x.1)
        invariant
            k <= v@.len(),
            v@ == before,
            forall|i: int|
                0 <= i < k ==> f32_total_key((#[trigger] before[i]).1) >= f32_total_key(x.1),
        decreases v@.len() - k,
    {
        k = k + 1;
    }
    v.insert(k, x);
    proof {
        let after = v@;
        assert(after =~= before.insert(k as int, x));
        assert forall|i: int, j: int| 0 <= i < j < after.len() implies ranks_before(
            #[trigger] after[i],
            #[trigger] after[j],
        ) by {
            if i < k && j < k {
                assert(after[i] == before[i] && after[j] == before[j]);
            } else if i < k && j == k {
                assert(after[i] == before[i]);
            } else if i < k {
                assert(after[i] == before[i] && after[j] == before[j - 1]);
            } else if i == k {
                assert(after[j] == before[j - 1]);
                if j - 1 > k {
                    assert(ranks_before(before[k as int], before[j - 1]));
                }
            } else {
                assert(after[i] == before[i - 1] && after[j] == before[j - 1]);
            }
        }
        lemma_insert_multiset(before, k as int, x);
    }
}

proof fn lemma_insert_multiset(s: Seq<Scored>, k: int, x: Scored)
    requires
        0 <= k <= s.len(),
    ensures
        s.insert(k, x).to_multiset() == s.to_multiset().insert(x),
{
    broadcast use group_to_multiset_ensures;
    let after = s.insert(k, x);
    assert(after.remove(k) =~= s);
    assert(after[k] == x);
    assert(after.to_multiset().remove(x) =~= s.to_multiset());
    assert(after.to_multiset().contains(x));
    assert(after.to_multiset() =~= s.to_multiset().insert(x));
}

proof fn lemma_push_multiset(s: Seq<Scored>, x: Scored)
    ensures
        s.push(x).to_multiset() == s.to_multiset().insert(x),
{
    broadcast use group_to_multiset_ensures;

}

proof fn lemma_placed_bounds(before: Seq<Scored>, after: Seq<Scored>, x: Scored)
    requires
        after.to_multiset() == before.to_multiset().insert(x),
        forall|k: int| 0 <= k < before.len() ==> (#[trigger] before[k]).0 < x.0,
    ensures
        forall|k: int| 0 <= k < after.len() ==> (#[trigger] after[k]).0 <= x.0,
{
    broadcast use group_to_multiset_ensures;

    assert forall|k: int| 0 <= k < after.len() implies (#[trigger] after[k]).0 <= x.0 by {
        let y = after[k];
        assert(after.contains(y));
        assert(after.to_multiset().count(y) > 0);
        if y != x {
            assert(before.to_multiset().count(y) > 0);
            assert(before.contains(y));
        }
    }
}

/// Rank descriptions by their scores, and keep the best `top_k`. A description
/// without a score is left out.
pub fn rank(scores: &[Option<u32>], top_k: usize) -> (r: Vec<Scored>)
    ensures
        is_ranking(r@, scores@, top_k as int),
{
    let n: usize = scores.len();
    let mut all: Vec<Scored> = Vec::new();
    let mut i: usize = 0;
    assert(all@ =~= scored(scores@, 0));
    while i < n
        invariant
            i <= n,
            n == scores@.len(),
            is_ranked(all@),
            forall|k: int| 0 <= k < all@.len() ==> (#[trigger] all@[k]).0 < i,
            all@.to_multiset() == scored(scores@, i as int).to_multiset(),
        decreases n - i,
    {
        let ghost before = all@;
        match scores[i] {
            Some(v) => {
                place(&mut all, (i, v));
                proof {
                    lemma_push_multiset(scored(scores@, i as int), (i, v));
                    lemma_placed_bounds(before, all@, (i, v));
                }
            },
            None => {},
        }
        i = i + 1;
    }
    let ghost full = all@;
    if all.len() > top_k {
        all.truncate(top_k);
        assert(all@ =~= full.take(top_k as int));
    }
    assert(is_ranked(full));
    all
}

proof fn lemma_ranked_is_unique(a: Seq<Scored>, b: Seq<Scored>)
    requires
        is_ranked(a),
        is_ranked(b),
        a.to_multiset() == b.to_multiset(),
    ensures
        a == b,
    decreases a.len(),
{
    broadcast use group_to_multiset_ensures;

    assert(a.len() == a.to_multiset().len());
    assert(b.len() == b.to_multiset().len());
    if a.len() == 0 {
        assert(a =~= b);
    } else {
        let x = a[0];
        let y = b[0];
        assert(a.contains(x) && b.contains(y));
        assert(a.to_multiset().count(x) > 0 && b.to_multiset().count(y) > 0);
        assert(b.contains(x) && a.contains(y));
        let j = choose|j: int| 0 <= j < b.len() && b[j] == x;
        let k = choose|k: int| 0 <= k < a.len() && a[k] == y;
        if j > 0 && k > 0 {
            assert(ranks_before(b[0], b[j]));
            assert(ranks_before(a[0], a[k]));
        }
        assert(x == y);
        let ra = a.remove(0);
        let rb = b.remove(0);
        assert(ra.to_multiset() =~= a.to_multiset().remove(x));
        assert(rb.to_multiset() =~= b.to_multiset().remove(x));
        assert forall|i: int, j: int| 0 <= i < j < ra.len() implies ranks_before(
            #[trigger] ra[i],
            #[trigger] ra[j],
        ) by {
            assert(ra[i] == a[i + 1] && ra[j] == a[j + 1]);
        }
        assert forall|i: int, j: int| 0 <= i < j < rb.len() implies ranks_before(
            #[trigger] rb[i],
            #[trigger] rb[j],
        ) by {
            assert(rb[i] == b[i + 1] && rb[j] == b[j + 1]);
        }
        lemma_ranked_is_unique(ra, rb);
        assert(a =~= seq![x] + ra);
        assert(b =~= seq![x] + rb);
    }
}

/// The scores alone decide the ranking, and a longer one starts with a shorter
/// one.
pub proof fn law_ranking_is_unique(
    a: Seq<Scored>,
    b: Seq<Scored>,
    scores: Seq<Option<u32>>,
    top_a: int,
    top_b: int,
)
    requires
        is_ranking(a, scores, top_a),
        is_ranking(b, scores, top_b),
        0 <= top_a <= top_b,
    ensures
        a.len() <= b.len(),
        b.take(a.len() as int) == a,
        top_a == top_b ==> a == b,
{
    let fa = choose|all: Seq<Scored>|
        #[trigger] is_ranked(all) && all.to_multiset() == scored(
            scores,
            scores.len() as int,
        ).to_multiset() && a == if all.len() > top_a {
            all.take(top_a)
        } else {
            all
        };
    let fb = choose|all: Seq<Scored>|
        #[trigger] is_ranked(all) && all.to_multiset() == scored(
            scores,
            scores.len() as int,
        ).to_multiset() && b == if all.len() > top_b {
            all.take(top_b)
        } else {
            all
        };
    lemma_ranked_is_unique(fa, fb);
    assert(b.take(a.len() as int) =~= a);
}

/// The descriptions in a JSON list of strings. A text that is no such list holds
/// none.
pub open spec fn listed(json: Seq<char>) -> Seq<Seq<char>> {
    match json_strings(json) {
        Some(s) => s,
        None => Seq::empty(),
    }
}

/// The descriptions in a JSON list of strings. A text that is no such list holds
/// none.
pub fn descriptions(json: &str) -> (v: Vec<String>)
    ensures
        views(v@) == listed(json@),
{
    listed_or_none(read_json_strings(json))
}

/// The strings that were read, or none where none could be.
pub fn listed_or_none(read: Option<Vec<String>>) -> (v: Vec<String>)
    ensures
        match read {
            Some(w) => v == w,
            None => v@ == Seq::<String>::empty(),
        },
        views(v@) == match read {
            Some(w) => views(w@),
            None => Seq::<Seq<char>>::empty(),
        },
{
    match read {
        Some(v) => v,
        None => {
            let v: Vec<String> = Vec::new();
            assert(views(v@) =~= Seq::<Seq<char>>::empty());
            v
        },
    }
}

/// How a ranking is written.
#[derive(Debug, Clone, Copy, PartialEq, Eq)]
pub enum RankStyle {
    /// `[index,score]`.
    Pairs,
    /// `{"index":index,"score":score}`.
    Objects,
}

/// One entry of a ranking, with its score already written out.
pub open spec fn entry_text(style: RankStyle, index: nat, score: Seq<char>) -> Seq<char> {
    match style {
        RankStyle::Pairs => "["@ + decimal(index) + ","@ + score + "]"@,
        RankStyle::Objects => "{\"index\":"@ + decimal(index) + ",\"score\":"@ + score + "}"@,
    }
}

/// The first `n` entries, with commas between them.
pub open spec fn entries_text(style: RankStyle, ranked: Seq<(usize, String)>, n: int) -> Seq<char>
    decreases n,
{
    if n <= 0 {
        Seq::empty()
    } else {
        let last = entry_text(style, ranked[n - 1].0 as nat, ranked[n - 1].1@);
        if n == 1 {
            last
        } else {
            entries_text(style, ranked, n - 1) + ","@ + last
        }
    }
}

/// A ranking as a JSON list, its scores already written out.
#[verifier::spinoff_prover]
pub fn ranking_json(style: RankStyle, ranked: &[(usize, String)]) -> (r: String)
    ensures
        r@ == "["@ + entries_text(style, ranked@, ranked@.len() as int) + "]"@,
{
    let mut out: String = String::new();
    out.append("[");
    let mut i: usize = 0;
    assert(out@ =~= "["@ + entries_text(style, ranked@, 0));
    while i < ranked.len()
        invariant
            i <= ranked@.len(),
            out@ == "["@ + entries_text(style, ranked@, i as int),
        decreases ranked@.len() - i,
    {
        let ghost before = out@;
        if i > 0 {
            out.append(",");
        }
        match style {
            RankStyle::Pairs => {
                out.append("[");
                push_size(&mut out, ranked[i].0);
                out.append(",");
                out.append(ranked[i].1.as_str());
                out.append("]");
            },
            RankStyle::Objects => {
                out.append("{\"index\":");
                push_size(&mut out, ranked[i].0);
                out.append(",\"score\":");
                out.append(ranked[i].1.as_str());
                out.append("}");
            },
        }
        i = i + 1;
        assert(out@ =~= "["@ + entries_text(style, ranked@, i as int));
    }
    out.append("]");
    out
}

proof fn lemma_scored(scores: Seq<Option<u32>>, n: int)
    requires
        0 <= n <= scores.len() <= usize::MAX,
    ensures
        forall|i: int|
            0 <= i < scored(scores, n).len() ==> (#[trigger] scored(scores, n)[i]).0 < n
                && scores[scored(scores, n)[i].0 as int] == Some(scored(scores, n)[i].1),
        forall|k: int, v: u32|
            0 <= k < n && scores[k] == Some(v) ==> #[trigger] scored(scores, n).contains(
                (k as usize, v),
            ),
    decreases n,
{
    if n > 0 {
        lemma_scored(scores, n - 1);
        let before = scored(scores, n - 1);
        let all = scored(scores, n);
        assert forall|k: int, v: u32| 0 <= k < n && scores[k] == Some(v) implies #[trigger] all.contains(
            (k as usize, v),
        ) by {
            if k < n - 1 {
                assert(before.contains((k as usize, v)));
                let i = choose|i: int| 0 <= i < before.len() && before[i] == (k as usize, v);
                assert(all[i] == (k as usize, v));
            } else {
                assert(all[all.len() - 1] == (k as usize, v));
            }
        }
    }
}

/// A ranking holds the best: every entry is a description with its score, a better one
/// stands before a worse one and the earlier before the later where they score alike,
/// and what has a score and is left out comes behind all that `top_k` entries hold.
pub proof fn law_rankings_hold_the_best(r: Seq<Scored>, scores: Seq<Option<u32>>, top_k: int)
    requires
        is_ranking(r, scores, top_k),
        0 <= top_k,
        scores.len() <= usize::MAX,
    ensures
        r.len() <= top_k,
        forall|i: int|
            0 <= i < r.len() ==> (#[trigger] r[i]).0 < scores.len() && scores[r[i].0 as int] == Some(
                r[i].1,
            ),
        forall|i: int, j: int|
            0 <= i < j < r.len() ==> f32_total_key((#[trigger] r[i]).1) >= f32_total_key(
                (#[trigger] r[j]).1,
            ),
        forall|i: int, j: int|
            0 <= i < j < r.len() && f32_total_key(r[i].1) == f32_total_key(r[j].1) ==> (
            #[trigger] r[i]).0 < (#[trigger] r[j]).0,
        forall|k: int, v: u32|
            #![trigger r.contains((k as usize, v))]
            0 <= k < scores.len() && scores[k] == Some(v) && !r.contains((k as usize, v)) ==> r.len()
                == top_k && forall|i: int|
                0 <= i < r.len() ==> f32_total_key((#[trigger] r[i]).1) > f32_total_key(v) || (
                f32_total_key(r[i].1) == f32_total_key(v) && r[i].0 < k),
{
    let n = scores.len() as int;
    let given = scored(scores, n);
    let all = choose|all: Seq<Scored>|
        #[trigger] is_ranked(all) && all.to_multiset() == given.to_multiset() && r == if all.len()
            > top_k {
            all.take(top_k)
        } else {
            all
        };
    lemma_scored(scores, n);
    all.to_multiset_ensures();
    given.to_multiset_ensures();
    assert forall|i: int| 0 <= i < r.len() implies (#[trigger] r[i]).0 < scores.len()
        && scores[r[i].0 as int] == Some(r[i].1) by {
        assert(all[i] == r[i]);
        assert(all.contains(r[i]));
        assert(given.to_multiset().count(r[i]) > 0);
        assert(given.contains(r[i]));
        let g = choose|g: int| 0 <= g < given.len() && given[g] == r[i];
        assert(given[g].0 < n);
    }
    assert forall|i: int, j: int| 0 <= i < j < r.len() implies ranks_before(
        #[trigger] r[i],
        #[trigger] r[j],
    ) by {
        assert(r[i] == all[i] && r[j] == all[j]);
    }
    assert forall|k: int, v: u32|
        #![trigger r.contains((k as usize, v))]
        0 <= k < scores.len() && scores[k] == Some(v) && !r.contains((k as usize, v)) implies r.len()
        == top_k && forall|i: int|
        0 <= i < r.len() ==> f32_total_key((#[trigger] r[i]).1) > f32_total_key(v) || (
        f32_total_key(r[i].1) == f32_total_key(v) && r[i].0 < k) by {
        let e = (k as usize, v);
        assert(given.contains(e));
        assert(all.to_multiset().count(e) > 0);
        assert(all.contains(e));
        let j = choose|j: int| 0 <= j < all.len() && all[j] == e;
        if j < r.len() {
            assert(r[j] == e);
        }
        assert forall|i: int| 0 <= i < r.len() implies f32_total_key((#[trigger] r[i]).1)
            > f32_total_key(v) || (f32_total_key(r[i].1) == f32_total_key(v) && r[i].0 < k) by {
            assert(r[i] == all[i]);
            assert(ranks_before(all[i], all[j]));
        }
    }
}

} // verus!
