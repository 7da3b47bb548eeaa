//! Integer arithmetic with saturation.

use vstd::prelude::*;

verus! {

/// `a * b`, or `max` where that is less.
pub open spec fn capped_product(a: nat, b: nat, max: nat) -> nat {
    if a * b > max {
        max
    } else {
        a * b
    }
}

/// `a / b` rounded up.
pub open spec fn ceil_div(a: nat, b: nat) -> nat
    recommends
        b > 0,
{
    if a % b == 0 {
        a / b
    } else {
        a / b + 1
    }
}

pub open spec fn larger(a: nat, b: nat) -> nat {
    if a >= b {
        a
    } else {
        b
    }
}

pub open spec fn smaller(a: nat, b: nat) -> nat {
    if a <= b {
        a
    } else {
        b
    }
}

/// `a * b`, or `usize::MAX` where that overflows.
pub fn saturating_product(a: usize, b: usize) -> (r: usize)
    ensures
        r == capped_product(a as nat, b as nat, usize::MAX as nat),
{
    match a.checked_mul(b) {
        Some(p) => p,
        None => usize::MAX,
    }
}

/// `a / b` rounded up.
pub fn div_ceil(a: usize, b: usize) -> (r: usize)
    requires
        b > 0,
    ensures
        r == ceil_div(a as nat, b as nat),
{
    let q: usize = a / b;
    if a % b == 0 {
        q
    } else {
        proof {
            lemma_quotient_room(a as nat, b as nat);
        }
        q + 1
    }
}

/// Division with a remainder leaves the quotient below the dividend.
proof fn lemma_quotient_room(a: nat, b: nat)
    requires
        b > 0,
        a % b != 0,
    ensures
        a / b < a,
{
    assert(a / b < a) by (nonlinear_arith)
        requires
            b > 0,
            a % b != 0,
    ;
}

/// The rounded-up quotient covers the dividend.
pub proof fn lemma_ceil_div_covers(a: nat, b: nat)
    requires
        b > 0,
    ensures
        ceil_div(a, b) * b >= a,
{
    let q = a / b;
    assert(a == q * b + a % b) by (nonlinear_arith)
        requires
            b > 0,
            q == a / b,
    ;
    assert(a % b < b);
    assert((q + 1) * b == q * b + b) by (nonlinear_arith);
}

pub fn max_usize(a: usize, b: usize) -> (r: usize)
    ensures
        r == larger(a as nat, b as nat),
{
    if a >= b {
        a
    } else {
        b
    }
}

pub fn min_usize(a: usize, b: usize) -> (r: usize)
    ensures
        r == smaller(a as nat, b as nat),
{
    if a <= b {
        a
    } else {
        b
    }
}

/// Rounding up gives the least number that covers the dividend; the larger of two is
/// one of them and not below the other, and the smaller is the other one; and a
/// product is the product unless it is above the limit.
pub proof fn law_bounds_and_rounding(a: nat, b: nat, max: nat)
    ensures
        b > 0 ==> ceil_div(a, b) * b >= a && (a > 0 ==> (ceil_div(a, b) - 1) * b < a) && (a == 0
            ==> ceil_div(a, b) == 0),
        larger(a, b) >= a && larger(a, b) >= b && (larger(a, b) == a || larger(a, b) == b),
        smaller(a, b) <= a && smaller(a, b) <= b && (smaller(a, b) == a || smaller(a, b) == b),
        a * b <= max ==> capped_product(a, b, max) == a * b,
        a * b > max ==> capped_product(a, b, max) == max,
{
    if b > 0 {
        lemma_ceil_div_covers(a, b);
        vstd::arithmetic::div_mod::lemma_fundamental_div_mod(a as int, b as int);
        let q = a / b;
        let r = a % b;
        let c = ceil_div(a, b);
        assert((c - 1) * b < a || a == 0) by (nonlinear_arith)
            requires
                a == b * q + r,
                0 <= r < b,
                c == if r == 0 {
                    q
                } else {
                    q + 1
                },
                b > 0,
        ;
        if a == 0 {
            vstd::arithmetic::div_mod::lemma_div_of0(b as int);
            vstd::arithmetic::div_mod::lemma_small_mod(0, b);
        }
    }
}

} // verus!
