//! Vector operations as parameters, beside the arithmetic: the scaled norm, the
//! softmax and the rotary position encoding.

use vstd::prelude::*;

verus! {

/// The vector operations as mathematics.
pub struct VectorOps {
    /// A vector normed with a scale.
    pub norm: spec_fn(Seq<u32>, Seq<u32>) -> Seq<u32>,
    pub softmax: spec_fn(Seq<u32>) -> Seq<u32>,
    /// Heads rotated by their position.
    pub rope: spec_fn(Seq<u32>, usize, usize) -> Seq<u32>,
}

/// The vector operations that a caller supplies. Each gives back a vector as
/// long as the one it is given.
pub struct Blocks<
    N: Fn(&[u32], &[u32]) -> Vec<u32>,
    S: Fn(&[u32]) -> Vec<u32>,
    R: Fn(&[u32], usize, usize) -> Vec<u32>,
> {
    /// The vector and its scale.
    pub norm: N,
    pub softmax: S,
    /// The heads one behind the other, their number, and the position.
    pub rope: R,
}

/// A result of the norm.
pub open spec fn norm_gives<N: Fn(&[u32], &[u32]) -> Vec<u32>>(
    f: N,
    x: Seq<u32>,
    g: Seq<u32>,
    r: Seq<u32>,
) -> bool {
    exists|a: &[u32], b: &[u32], v: Vec<u32>|
        a@ == x && b@ == g && v@ == r && #[trigger] call_ensures(f, (a, b), v)
}

/// A result of the softmax.
pub open spec fn softmax_gives<S: Fn(&[u32]) -> Vec<u32>>(f: S, x: Seq<u32>, r: Seq<u32>) -> bool {
    exists|a: &[u32], v: Vec<u32>| a@ == x && v@ == r && #[trigger] call_ensures(f, (a,), v)
}

/// A result of the rotation.
pub open spec fn rope_gives<R: Fn(&[u32], usize, usize) -> Vec<u32>>(
    f: R,
    x: Seq<u32>,
    heads: usize,
    pos: usize,
    r: Seq<u32>,
) -> bool {
    exists|a: &[u32], v: Vec<u32>|
        a@ == x && v@ == r && #[trigger] call_ensures(f, (a, heads, pos), v)
}

impl<
    N: Fn(&[u32], &[u32]) -> Vec<u32>,
    S: Fn(&[u32]) -> Vec<u32>,
    R: Fn(&[u32], usize, usize) -> Vec<u32>,
> View for Blocks<N, S, R> {
    type V = VectorOps;

    open spec fn view(&self) -> VectorOps {
        VectorOps {
            norm: |x: Seq<u32>, g: Seq<u32>|
                choose|r: Seq<u32>| #[trigger] norm_gives(self.norm, x, g, r),
            softmax: |x: Seq<u32>|
                choose|r: Seq<u32>| #[trigger] softmax_gives(self.softmax, x, r),
            rope: |x: Seq<u32>, heads: usize, pos: usize|
                choose|r: Seq<u32>| #[trigger] rope_gives(self.rope, x, heads, pos, r),
        }
    }
}

impl<
    N: Fn(&[u32], &[u32]) -> Vec<u32>,
    S: Fn(&[u32]) -> Vec<u32>,
    R: Fn(&[u32], usize, usize) -> Vec<u32>,
> Blocks<N, S, R> {
    /// The operations are functions of the numbers they are given, and keep the
    /// length.
    pub open spec fn wf(&self) -> bool {
        &&& forall|a: &[u32], b: &[u32]| #[trigger] call_requires(self.norm, (a, b))
        &&& forall|x: Seq<u32>, g: Seq<u32>, r: Seq<u32>, s: Seq<u32>|
            #[trigger] norm_gives(self.norm, x, g, r) && #[trigger] norm_gives(self.norm, x, g, s)
                ==> r == s && r.len() == x.len()
        &&& forall|a: &[u32]| #[trigger] call_requires(self.softmax, (a,))
        &&& forall|x: Seq<u32>, r: Seq<u32>, s: Seq<u32>|
            #[trigger] softmax_gives(self.softmax, x, r) && #[trigger] softmax_gives(
                self.softmax,
                x,
                s,
            ) ==> r == s && r.len() == x.len()
        &&& forall|a: &[u32], h: usize, p: usize| #[trigger] call_requires(self.rope, (a, h, p))
        &&& forall|x: Seq<u32>, h: usize, p: usize, r: Seq<u32>, s: Seq<u32>|
            #[trigger] rope_gives(self.rope, x, h, p, r) && #[trigger] rope_gives(
                self.rope,
                x,
                h,
                p,
                s,
            ) ==> r == s && r.len() == x.len()
    }

    /// A vector normed with a scale.
    pub fn norm_of(&self, x: &[u32], scale: &[u32]) -> (v: Vec<u32>)
        requires
            self.wf(),
        ensures
            v@ == (self@.norm)(x@, scale@),
            v@.len() == x@.len(),
    {
        let v = (self.norm)(x, scale);
        assert(norm_gives(self.norm, x@, scale@, v@));
        v
    }

    /// The softmax of a vector.
    pub fn softmax_of(&self, x: &[u32]) -> (v: Vec<u32>)
        requires
            self.wf(),
        ensures
            v@ == (self@.softmax)(x@),
            v@.len() == x@.len(),
    {
        let v = (self.softmax)(x);
        assert(softmax_gives(self.softmax, x@, v@));
        v
    }

    /// Heads rotated by their position.
    pub fn rope_of(&self, x: &[u32], heads: usize, pos: usize) -> (v: Vec<u32>)
        requires
            self.wf(),
        ensures
            v@ == (self@.rope)(x@, heads, pos),
            v@.len() == x@.len(),
    {
        let v = (self.rope)(x, heads, pos);
        assert(rope_gives(self.rope, x@, heads, pos, v@));
        v
    }
}

} // verus!
