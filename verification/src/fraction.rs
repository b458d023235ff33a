//! Exact non-negative fractions, and their comparison without overflow.

use vstd::prelude::*;
use crate::order::Rel;

verus! {

/// The non-negative rational `num / den`.
#[derive(PartialEq, Eq, Structural, Clone, Copy, Debug)]
pub struct Fraction {
    pub num: u128,
    pub den: u128,
}

impl Fraction {
    /// A fraction with a positive denominator.
    pub open spec fn wf(&self) -> bool {
        self.den > 0
    }
}

/// How `a / b` compares with `c / d` (for positive `b`, `d`).
pub open spec fn fraction_rel(a: int, b: int, c: int, d: int) -> Rel {
    if a * d < c * b {
        Rel::Less
    } else if a * d == c * b {
        Rel::Same
    } else {
        Rel::Greater
    }
}

/// Equal integer parts leave the comparison to the remainders.
proof fn lemma_same_quotient(a: int, b: int, c: int, d: int, q: int, r1: int, r2: int)
    by (nonlinear_arith)
    requires
        a == q * b + r1,
        c == q * d + r2,
    ensures
        a * d - c * b == r1 * d - r2 * b,
{
}

/// A smaller integer part makes the fraction smaller.
proof fn lemma_smaller_quotient(a: int, b: int, c: int, d: int, q1: int, r1: int, q2: int, r2: int)
    by (nonlinear_arith)
    requires
        b > 0,
        d > 0,
        a == q1 * b + r1,
        c == q2 * d + r2,
        0 <= r1 < b,
        0 <= r2,
        q1 < q2,
    ensures
        a * d < c * b,
{
    assert(r1 * d < b * d);
    assert((q1 + 1) * b * d <= q2 * b * d);
}

/// Compares `a / b` with `c / d` as rationals, by continued-fraction steps
/// that never leave the range of the arguments.
pub fn compare_fractions(x_num: u128, x_den: u128, y_num: u128, y_den: u128) -> (r: Rel)
    requires
        x_den > 0,
        y_den > 0,
    ensures
        r == fraction_rel(x_num as int, x_den as int, y_num as int, y_den as int),
{
    let ghost goal = fraction_rel(x_num as int, x_den as int, y_num as int, y_den as int);
    let mut a = x_num;
    let mut b = x_den;
    let mut c = y_num;
    let mut d = y_den;
    loop
        invariant
            b > 0,
            d > 0,
            fraction_rel(a as int, b as int, c as int, d as int) == goal,
            goal == fraction_rel(x_num as int, x_den as int, y_num as int, y_den as int),
        decreases b + d,
    {
        let q1 = a / b;
        let r1 = a % b;
        let q2 = c / d;
        let r2 = c % d;
        proof {
            vstd::arithmetic::div_mod::lemma_fundamental_div_mod(a as int, b as int);
            vstd::arithmetic::div_mod::lemma_fundamental_div_mod(c as int, d as int);
            assert(a as int == q1 * b + r1) by (nonlinear_arith)
                requires a as int == b * (a as int / b as int) + (a as int % b as int), q1 == a as int / b as int, r1 == a as int % b as int;
            assert(c as int == q2 * d + r2) by (nonlinear_arith)
                requires c as int == d * (c as int / d as int) + (c as int % d as int), q2 == c as int / d as int, r2 == c as int % d as int;
        }
        if q1 < q2 {
            proof { lemma_smaller_quotient(a as int, b as int, c as int, d as int, q1 as int, r1 as int, q2 as int, r2 as int); }
            return Rel::Less;
        }
        if q2 < q1 {
            proof { lemma_smaller_quotient(c as int, d as int, a as int, b as int, q2 as int, r2 as int, q1 as int, r1 as int); }
            return Rel::Greater;
        }
        proof { lemma_same_quotient(a as int, b as int, c as int, d as int, q1 as int, r1 as int, r2 as int); }
        if r1 == 0 && r2 == 0 {
            assert(r1 * d == 0 && r2 * b == 0) by (nonlinear_arith) requires r1 == 0, r2 == 0;
            return Rel::Same;
        }
        if r1 == 0 {
            assert(r2 * b > 0 && r1 * d == 0) by (nonlinear_arith) requires r2 > 0, b > 0, r1 == 0;
            return Rel::Less;
        }
        if r2 == 0 {
            assert(r1 * d > 0 && r2 * b == 0) by (nonlinear_arith) requires r1 > 0, d > 0, r2 == 0;
            return Rel::Greater;
        }
        proof {
            assert((d as int) * (r1 as int) - (b as int) * (r2 as int) == (r1 as int) * (d as int) - (r2 as int) * (b as int)) by (nonlinear_arith);
        }
        let na = d;
        let nb = r2;
        let nc = b;
        let nd = r1;
        a = na;
        b = nb;
        c = nc;
        d = nd;
    }
}

} // verus!
