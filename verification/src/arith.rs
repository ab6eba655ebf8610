//! Arithmetic as a parameter.
//!
//! The kernels of this library do no arithmetic of their own: they say which
//! operation is applied to which numbers, and in which order. The operations
//! come from the caller, on 32-bit words that stand for floats. What is proved
//! of a kernel holds for every such arithmetic.

use vstd::prelude::*;

verus! {

/// Bits of the float 1.
pub const ONE: u32 = 0x3F80_0000;

/// An operation on one number.
#[derive(Debug, Clone, Copy, PartialEq, Eq)]
pub enum Unary {
    Sqrt,
    Exp,
    Ln,
    Sigmoid,
}

/// An operation on two numbers.
#[derive(Debug, Clone, Copy, PartialEq, Eq)]
pub enum Binary {
    Add,
    Sub,
    Mul,
    Div,
    /// The larger one.
    Max,
}

/// An arithmetic as mathematics.
#[verifier::reject_recursive_types(T)]
pub struct Num<T> {
    pub zero: T,
    pub one: T,
    pub unary: spec_fn(Unary, T) -> T,
    pub binary: spec_fn(Binary, T, T) -> T,
    /// The number that a count is.
    pub count: spec_fn(usize) -> T,
}

impl<T> Num<T> {
    pub open spec fn plus(self, a: T, b: T) -> T {
        (self.binary)(Binary::Add, a, b)
    }

    pub open spec fn minus(self, a: T, b: T) -> T {
        (self.binary)(Binary::Sub, a, b)
    }

    pub open spec fn times(self, a: T, b: T) -> T {
        (self.binary)(Binary::Mul, a, b)
    }

    pub open spec fn over(self, a: T, b: T) -> T {
        (self.binary)(Binary::Div, a, b)
    }

    pub open spec fn larger(self, a: T, b: T) -> T {
        (self.binary)(Binary::Max, a, b)
    }

    pub open spec fn root(self, a: T) -> T {
        (self.unary)(Unary::Sqrt, a)
    }

    pub open spec fn exponential(self, a: T) -> T {
        (self.unary)(Unary::Exp, a)
    }

    pub open spec fn logarithm(self, a: T) -> T {
        (self.unary)(Unary::Ln, a)
    }

    pub open spec fn sigmoid(self, a: T) -> T {
        (self.unary)(Unary::Sigmoid, a)
    }

    pub open spec fn number(self, n: int) -> T {
        (self.count)(n as usize)
    }
}

/// The operations that a caller supplies.
pub struct Arith<
    U: Fn(Unary, u32) -> u32 + Sync,
    B: Fn(Binary, u32, u32) -> u32 + Sync,
    C: Fn(usize) -> u32 + Sync,
> {
    pub unary: U,
    pub binary: B,
    pub count: C,
}

impl<
    U: Fn(Unary, u32) -> u32 + Sync,
    B: Fn(Binary, u32, u32) -> u32 + Sync,
    C: Fn(usize) -> u32 + Sync,
> View for Arith<U, B, C> {
    type V = Num<u32>;

    open spec fn view(&self) -> Num<u32> {
        Num {
            zero: 0,
            one: ONE,
            unary: |o: Unary, a: u32| choose|r: u32| call_ensures(self.unary, (o, a), r),
            binary: |o: Binary, a: u32, b: u32|
                choose|r: u32| call_ensures(self.binary, (o, a, b), r),
            count: |n: usize| choose|r: u32| call_ensures(self.count, (n,), r),
        }
    }
}

impl<
    U: Fn(Unary, u32) -> u32 + Sync,
    B: Fn(Binary, u32, u32) -> u32 + Sync,
    C: Fn(usize) -> u32 + Sync,
> Arith<U, B, C> {
    /// The operations are functions: each can be applied to all numbers, and
    /// gives one result.
    pub open spec fn wf(&self) -> bool {
        &&& forall|o: Unary, a: u32| #[trigger] call_requires(self.unary, (o, a))
        &&& forall|o: Unary, a: u32, r: u32, s: u32|
            #[trigger] call_ensures(self.unary, (o, a), r) && #[trigger] call_ensures(
                self.unary,
                (o, a),
                s,
            ) ==> r == s
        &&& forall|o: Binary, a: u32, b: u32| #[trigger] call_requires(self.binary, (o, a, b))
        &&& forall|o: Binary, a: u32, b: u32, r: u32, s: u32|
            #[trigger] call_ensures(self.binary, (o, a, b), r) && #[trigger] call_ensures(
                self.binary,
                (o, a, b),
                s,
            ) ==> r == s
        &&& forall|n: usize| #[trigger] call_requires(self.count, (n,))
        &&& forall|n: usize, r: u32, s: u32|
            #[trigger] call_ensures(self.count, (n,), r) && #[trigger] call_ensures(
                self.count,
                (n,),
                s,
            ) ==> r == s
    }

    fn apply2(&self, o: Binary, a: u32, b: u32) -> (r: u32)
        requires
            self.wf(),
        ensures
            r == (self@.binary)(o, a, b),
    {
        (self.binary)(o, a, b)
    }

    fn apply1(&self, o: Unary, a: u32) -> (r: u32)
        requires
            self.wf(),
        ensures
            r == (self@.unary)(o, a),
    {
        (self.unary)(o, a)
    }

    pub fn add(&self, a: u32, b: u32) -> (r: u32)
        requires
            self.wf(),
        ensures
            r == self@.plus(a, b),
    {
        self.apply2(Binary::Add, a, b)
    }

    pub fn sub(&self, a: u32, b: u32) -> (r: u32)
        requires
            self.wf(),
        ensures
            r == self@.minus(a, b),
    {
        self.apply2(Binary::Sub, a, b)
    }

    pub fn mul(&self, a: u32, b: u32) -> (r: u32)
        requires
            self.wf(),
        ensures
            r == self@.times(a, b),
    {
        self.apply2(Binary::Mul, a, b)
    }

    pub fn div(&self, a: u32, b: u32) -> (r: u32)
        requires
            self.wf(),
        ensures
            r == self@.over(a, b),
    {
        self.apply2(Binary::Div, a, b)
    }

    pub fn max(&self, a: u32, b: u32) -> (r: u32)
        requires
            self.wf(),
        ensures
            r == self@.larger(a, b),
    {
        self.apply2(Binary::Max, a, b)
    }

    pub fn sqrt(&self, a: u32) -> (r: u32)
        requires
            self.wf(),
        ensures
            r == self@.root(a),
    {
        self.apply1(Unary::Sqrt, a)
    }

    pub fn exp(&self, a: u32) -> (r: u32)
        requires
            self.wf(),
        ensures
            r == self@.exponential(a),
    {
        self.apply1(Unary::Exp, a)
    }

    pub fn ln(&self, a: u32) -> (r: u32)
        requires
            self.wf(),
        ensures
            r == self@.logarithm(a),
    {
        self.apply1(Unary::Ln, a)
    }

    pub fn sigmoid(&self, a: u32) -> (r: u32)
        requires
            self.wf(),
        ensures
            r == self@.sigmoid(a),
    {
        self.apply1(Unary::Sigmoid, a)
    }

    /// The number that a count is.
    pub fn number(&self, n: usize) -> (r: u32)
        requires
            self.wf(),
        ensures
            r == self@.number(n as int),
    {
        (self.count)(n)
    }

    /// `acc + a * b`.
    pub fn mul_add(&self, acc: u32, a: u32, b: u32) -> (r: u32)
        requires
            self.wf(),
        ensures
            r == self@.plus(acc, self@.times(a, b)),
    {
        self.add(acc, self.mul(a, b))
    }
}

} // verus!
