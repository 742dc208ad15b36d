//! Elementary functions, which the caller supplies.
//!
//! The precision of logarithms, exponentials and powers is the platform's. Code that needs one
//! takes a closure that evaluates it, and its contract speaks of what that closure answers.

use crate::binary64::Binary64;
use vstd::prelude::*;

verus! {

/// The functions that scoring and selection ask for.
#[derive(Debug, Clone, Copy, PartialEq, Eq, Structural)]
pub enum Elementary {
    /// The natural logarithm of one plus the argument.
    LnOnePlus,
    /// The exponential.
    Exp,
    /// The argument raised to an integer power.
    Power(u32),
}

/// The closure accepts every question and always answers the same question the same way.
pub open spec fn steady<M: Fn(Elementary, Binary64) -> Binary64>(math: M) -> bool {
    &&& forall|op: Elementary, x: Binary64| #[trigger] call_requires(math, (op, x))
    &&& forall|op: Elementary, x: Binary64, a: Binary64, b: Binary64|
        #[trigger] call_ensures(math, (op, x), a) && #[trigger] call_ensures(math, (op, x), b) ==> a == b
}

/// What the closure answers.
pub open spec fn answers<M: Fn(Elementary, Binary64) -> Binary64>(math: M) -> spec_fn(
    Elementary,
    Binary64,
) -> Binary64 {
    |op: Elementary, x: Binary64| choose|r: Binary64| call_ensures(math, (op, x), r)
}

/// The logarithm of one plus a finite number that is not negative is such a number, and grows with it.
pub open spec fn rises(m: spec_fn(Elementary, Binary64) -> Binary64) -> bool {
    forall|x: Binary64, y: Binary64|
        x.finite() && y.finite() && 0 <= x.value() <= y.value() ==> {
            &&& (#[trigger] m(Elementary::LnOnePlus, x)).finite()
            &&& (#[trigger] m(Elementary::LnOnePlus, y)).finite()
            &&& 0 <= m(Elementary::LnOnePlus, x).value() <= m(Elementary::LnOnePlus, y).value()
        }
}

/// Asks the closure.
pub(crate) fn ask<M: Fn(Elementary, Binary64) -> Binary64>(math: &M, op: Elementary, x: Binary64) -> (r: Binary64)
    requires
        steady(*math),
    ensures
        r == answers(*math)(op, x),
{
    math(op, x)
}

} // verus!
