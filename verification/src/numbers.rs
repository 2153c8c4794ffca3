//! The arithmetic that the engine is built over.
//!
//! The engine never looks inside a scalar. It hands every elementary
//! calculation to a *calculator* supplied by the caller, and every comparison
//! to a *comparator*. Contracts speak of what these two return through a
//! pair of mathematical functions, the model of the arithmetic.

use vstd::prelude::*;

verus! {

/// One elementary calculation on scalars of type `S`.
#[derive(Debug)]
pub enum Calc<S> {
    /// The additive identity.
    Zero,
    /// The multiplicative identity.
    One,
    /// The clipping margin of the cross-entropy loss, `1e-15`.
    Epsilon,
    /// The least finite scalar.
    Lowest,
    /// The scalar that stands for the count `n`.
    Count(usize),
    /// `-a`
    Neg(S),
    /// The natural logarithm of `a`.
    Ln(S),
    /// `e` raised to `a`.
    Exp(S),
    /// `a + b`
    Add(S, S),
    /// `a - b`
    Sub(S, S),
    /// `a * b`
    Mul(S, S),
    /// `a / b`
    Div(S, S),
}

impl<S: Copy> Clone for Calc<S> {
    fn clone(&self) -> (copy: Self)
        ensures
            copy == *self,
    {
        *self
    }
}

impl<S: Copy> Copy for Calc<S> {

}

/// The calculator `calc` accepts every calculation, and what it answers is
/// what `model` gives.
pub open spec fn computes<S, A: Fn(Calc<S>) -> S>(calc: A, model: spec_fn(Calc<S>) -> S) -> bool {
    &&& forall|c: Calc<S>| call_requires(calc, (c,))
    &&& forall|c: Calc<S>, r: S| #[trigger] call_ensures(calc, (c,), r) ==> r == model(c)
}

/// The comparator `exceeds` accepts every pair, and what it answers is what
/// `model` gives.
pub open spec fn decides<S, C: Fn(S, S) -> bool>(exceeds: C, model: spec_fn(S, S) -> bool) -> bool {
    &&& forall|a: S, b: S| call_requires(exceeds, (a, b))
    &&& forall|a: S, b: S, r: bool| #[trigger] call_ensures(exceeds, (a, b), r) ==> r == model(a, b)
}

/// What `calc` answers, as a function: for each calculation an answer that
/// `calc` can give.
pub open spec fn value_of<S, A: Fn(Calc<S>) -> S>(calc: A) -> spec_fn(Calc<S>) -> S {
    |c: Calc<S>| choose|r: S| call_ensures(calc, (c,), r)
}

/// What `exceeds` answers, as a function.
pub open spec fn exceeds_of<S, C: Fn(S, S) -> bool>(exceeds: C) -> spec_fn(S, S) -> bool {
    |a: S, b: S| choose|r: bool| call_ensures(exceeds, (a, b), r)
}

} // verus!
