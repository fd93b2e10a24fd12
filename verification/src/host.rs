//! What the evaluator and the optimizer take from their caller: arithmetic on
//! floating-point numbers, and the deterministic draws behind the
//! randomization operators. A draw is a function of the unit and of the name
//! of the variable that the operator's value is assigned to.
//!
//! A float is handed over as the bit pattern of an IEEE-754 binary64.

use crate::json::{Number, Value, ValueView};
use vstd::prelude::*;

verus! {

/// The capabilities of a caller, as three functions.
pub struct Host<M, C, T> {
    /// The product of two floats.
    pub multiply: M,
    /// For the name of the variable that is assigned, a unit and a number of
    /// choices, the index of the choice taken.
    pub choose: C,
    /// For the name of the variable that is assigned, a probability and a
    /// unit, whether the trial succeeds.
    pub trial: T,
}

/// The mathematical functions that a [`Host`] computes.
pub struct Oracle {
    pub product: spec_fn(u64, u64) -> u64,
    pub choice: spec_fn(Seq<char>, ValueView, nat) -> nat,
    pub trial: spec_fn(Seq<char>, Number, ValueView) -> bool,
}

/// A function on floats may be called on every pair of them.
pub open spec fn callable<F: Fn(u64, u64) -> u64>(f: &F) -> bool {
    forall|a: u64, b: u64| #[trigger] f.requires((a, b))
}

/// A function on floats gives one result for one pair of arguments.
pub open spec fn single_valued<F: Fn(u64, u64) -> u64>(f: &F) -> bool {
    forall|a: u64, b: u64, r1: u64, r2: u64|
        #[trigger] f.ensures((a, b), r1) && #[trigger] f.ensures((a, b), r2) ==> r1 == r2
}

/// The mathematical function that `f` computes where it is
/// [`single_valued`].
pub open spec fn function_of<F: Fn(u64, u64) -> u64>(f: &F) -> spec_fn(u64, u64) -> u64 {
    |a: u64, b: u64| choose|r: u64| f.ensures((a, b), r)
}

/// Calls `f` on `a` and `b`.
pub fn apply<F: Fn(u64, u64) -> u64>(f: &F, a: u64, b: u64) -> (r: u64)
    requires
        callable(f),
    ensures
        single_valued(f) ==> r == function_of(f)(a, b),
{
    f(a, b)
}

impl<M, C, T> Host<M, C, T> where
    M: Fn(u64, u64) -> u64,
    C: Fn(&str, &Value, usize) -> usize,
    T: Fn(&str, Number, &Value) -> bool,
 {
    /// Each of the three functions may be called on every argument.
    pub open spec fn total(&self) -> bool {
        &&& callable(&self.multiply)
        &&& forall|salt: &str, unit: &Value, count: usize| #[trigger] self.choose.requires((salt, unit, count))
        &&& forall|salt: &str, p: Number, unit: &Value| #[trigger] self.trial.requires((salt, p, unit))
    }

    /// Each of the three functions gives one result for one argument, and a
    /// name and a unit count by their content alone.
    pub open spec fn functional(&self) -> bool {
        &&& single_valued(&self.multiply)
        &&& forall|s1: &str, s2: &str, u1: &Value, u2: &Value, count: usize, r1: usize, r2: usize|
            s1@ == s2@ && u1@ == u2@ && #[trigger] self.choose.ensures((s1, u1, count), r1)
                && #[trigger] self.choose.ensures((s2, u2, count), r2) ==> r1 == r2
        &&& forall|s1: &str, s2: &str, p: Number, u1: &Value, u2: &Value, r1: bool, r2: bool|
            s1@ == s2@ && u1@ == u2@ && #[trigger] self.trial.ensures((s1, p, u1), r1)
                && #[trigger] self.trial.ensures((s2, p, u2), r2) ==> r1 == r2
    }

    /// The functions that this host computes, where it is [`Self::functional`].
    pub open spec fn oracle(&self) -> Oracle {
        Oracle {
            product: function_of(&self.multiply),
            choice: |salt: Seq<char>, unit: ValueView, count: nat|
                {
                    let found = choose|s: &str, u: &Value, r: usize|
                        s@ == salt && u@ == unit && #[trigger] self.choose.ensures((s, u, count as usize), r);
                    found.2 as nat
                },
            trial: |salt: Seq<char>, p: Number, unit: ValueView|
                {
                    let found = choose|s: &str, u: &Value, r: bool|
                        s@ == salt && u@ == unit && #[trigger] self.trial.ensures((s, p, u), r);
                    found.2
                },
        }
    }

    /// The product of the floats `a` and `b`.
    pub fn product(&self, a: u64, b: u64) -> (r: u64)
        requires
            self.total(),
        ensures
            self.functional() ==> r == (self.oracle().product)(a, b),
    {
        apply(&self.multiply, a, b)
    }

    /// The index of the choice taken for `unit` among `count`, in an
    /// assignment to `salt`.
    pub fn choice(&self, salt: &str, unit: &Value, count: usize) -> (r: usize)
        requires
            self.total(),
        ensures
            self.functional() ==> r == (self.oracle().choice)(salt@, unit@, count as nat),
    {
        let r = (self.choose)(salt, unit, count);
        proof {
            if self.functional() {
                let found = choose|s: &str, u: &Value, r: usize|
                    s@ == salt@ && u@ == unit@ && #[trigger] self.choose.ensures((s, u, count), r);
                assert(found.0@ == salt@ && found.1@ == unit@ && self.choose.ensures(
                    (found.0, found.1, count),
                    found.2,
                ));
            }
        }
        r
    }

    /// Whether the trial of probability `p` succeeds for `unit`, in an
    /// assignment to `salt`.
    pub fn outcome(&self, salt: &str, p: Number, unit: &Value) -> (r: bool)
        requires
            self.total(),
        ensures
            self.functional() ==> r == (self.oracle().trial)(salt@, p, unit@),
    {
        let r = (self.trial)(salt, p, unit);
        proof {
            if self.functional() {
                let found = choose|s: &str, u: &Value, r: bool|
                    s@ == salt@ && u@ == unit@ && #[trigger] self.trial.ensures((s, p, u), r);
                assert(found.0@ == salt@ && found.1@ == unit@ && self.trial.ensures(
                    (found.0, p, found.1),
                    found.2,
                ));
            }
        }
        r
    }
}

} // verus!
