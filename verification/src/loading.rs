//! What loading a container depends on: its bytes, and nothing else.

use crate::bundle::{gates_found, gates_present, layer_reads, reads_fault, Read, V2Bundle};
use crate::cact::{is_record, Cact};
use crate::cact_layout::{codes_fault, engram_base, engram_checks, engrams_fault, extra_tensors, first_fault, head_base, head_count, heads_fault, layer_base, layer_checks, layers_fault, layout_fault, mhc_base, mhc_checks, Check};
use crate::text::to_bytes;
use vstd::prelude::*;

verus! {

/// The two containers hold the same.
pub open spec fn same_contents(a: Cact, b: Cact) -> bool {
    &&& a.raw@ == b.raw@
    &&& a.geom@ == b.geom@
    &&& a.records@ == b.records@
}

/// A container is what its bytes say.
pub proof fn law_containers_follow_from_their_bytes(a: Cact, b: Cact)
    requires
        a.wf(),
        b.wf(),
        a.raw@ == b.raw@,
    ensures
        same_contents(a, b),
        a.codebook@ == b.codebook@,
{
    broadcast use vstd::array::group_array_axioms;

    assert(a.geom@.num_tensors == b.geom@.num_tensors);
    assert forall|i: int| 0 <= i < a.records@.len() implies a.records@[i] == b.records@[i] by {
        let r = a.records@[i];
        let s = b.records@[i];
        assert(is_record(r, a.raw@, i));
        assert(is_record(s, b.raw@, i));
        assert(r.shape@ =~= s.shape@);
        assert(r.shape =~= s.shape);
        assert(r == s);
    }
    assert(a.records@ =~= b.records@);
    assert(a.codebook@ =~= b.codebook@);
}

proof fn lemma_first_fault(a: Cact, b: Cact, checks: Seq<Check>, k: int)
    requires
        same_contents(a, b),
        0 <= k,
    ensures
        first_fault(a, checks, k) == first_fault(b, checks, k),
    decreases checks.len() - k,
{
    if k < checks.len() {
        lemma_first_fault(a, b, checks, k + 1);
    }
}

proof fn lemma_layers_fault(a: Cact, b: Cact, k: int)
    requires
        same_contents(a, b),
    ensures
        layers_fault(a, k) == layers_fault(b, k),
    decreases a.geom@.num_layers - k,
{
    if k < a.geom@.num_layers {
        let checks = layer_checks(a.geom@, layer_base(k));
        lemma_first_fault(a, b, checks, 0);
        lemma_layers_fault(a, b, k + 1);
    }
}

proof fn lemma_engrams_fault(a: Cact, b: Cact, k: int)
    requires
        same_contents(a, b),
    ensures
        engrams_fault(a, k) == engrams_fault(b, k),
    decreases a.geom@.engram_sites.len() - k,
{
    if k < a.geom@.engram_sites.len() {
        let checks = engram_checks(a.geom@, engram_base(a.geom@, k));
        lemma_first_fault(a, b, checks, 0);
        lemma_engrams_fault(a, b, k + 1);
    }
}

proof fn lemma_heads_fault(a: Cact, b: Cact, k: int, n: int)
    requires
        same_contents(a, b),
    ensures
        heads_fault(a, k, n) == heads_fault(b, k, n),
    decreases n - k,
{
    if k < n {
        let i = head_base(a.geom@, k);
        let d = a.geom@.d_model;
        let probes = a.records@[i].shape@[0] as int;
        let out = a.records@[i + 1].shape@[0] as int;
        let checks = seq![
            Check { index: i, what: "head probes", dims: seq![probes, d] },
            Check { index: i + 1, what: "head proj", dims: seq![out, probes * d] },
            Check { index: i + 2, what: "head bias", dims: seq![out] },
        ];
        lemma_first_fault(a, b, checks, 0);
        lemma_heads_fault(a, b, k + 1, n);
    }
}

proof fn lemma_codes_fault(a: Cact, b: Cact, k: int, n: int)
    requires
        same_contents(a, b),
    ensures
        codes_fault(a, k, n) == codes_fault(b, k, n),
    decreases n - k,
{
    if k < n {
        lemma_codes_fault(a, b, k + 1, n);
    }
}

proof fn lemma_same_layout(a: Cact, b: Cact)
    requires
        same_contents(a, b),
    ensures
        layout_fault(a) == layout_fault(b),
{
    let n = head_count(extra_tensors(a));
    if n is Some {
        lemma_codes_fault(a, b, 0, n->0);
        lemma_heads_fault(a, b, 0, n->0);
    }
    lemma_layers_fault(a, b, 0);
    lemma_engrams_fault(a, b, 0);
    lemma_first_fault(a, b, mhc_checks(a.geom@, mhc_base(a.geom@)), 0);
}

proof fn lemma_same_reads(a: Cact, b: Cact, reads: Seq<Read>, k: int)
    requires
        same_contents(a, b),
        a.codebook@ == b.codebook@,
    ensures
        reads_fault(a, reads, k) == reads_fault(b, reads, k),
    decreases reads.len() - k,
{
    if 0 <= k < reads.len() {
        lemma_same_reads(a, b, reads, k + 1);
    }
}

proof fn lemma_same_gates(a: Cact, b: Cact, k: int)
    requires
        same_contents(a, b),
        a.codebook@ == b.codebook@,
    ensures
        gates_found(a, k) == gates_found(b, k),
    decreases a.geom@.num_layers - k,
{
    if k < a.geom@.num_layers {
        let reads = layer_reads(layer_base(k));
        lemma_same_reads(a, b, reads, 0);
        lemma_same_reads(a, b, reads.take(10), 0);
        lemma_same_gates(a, b, k + 1);
    }
}

/// The container in the bytes, if they hold one, can be loaded: every gate tensor
/// that loading comes to before a fault holds a value.
pub open spec fn is_loadable(bytes: Seq<u8>) -> bool {
    forall|c: Cact| #[trigger] c.wf() && c.raw@ == bytes ==> gates_present(c)
}

impl V2Bundle {
    /// Whether the container in the bytes, if they hold one, can be loaded.
    pub fn can_load(bytes: &[u8]) -> (r: bool)
        requires
            bytes@.len() <= isize::MAX,
        ensures
            r == is_loadable(bytes@),
    {
        match Cact::from_bytes(to_bytes(bytes)) {
            Err(_) => true,
            Ok(c) => {
                let r = V2Bundle::has_gates(&c);
                proof {
                    assert forall|d: Cact| #[trigger] d.wf() && d.raw@ == bytes@ implies r
                        == gates_present(d) by {
                        law_containers_follow_from_their_bytes(c, d);
                        lemma_same_layout(c, d);
                        lemma_same_gates(c, d, 0);
                    }
                    assert(c.wf() && c.raw@ == bytes@);
                }
                r
            },
        }
    }
}

} // verus!
