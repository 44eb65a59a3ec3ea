//! Arithmetic on unreduced fractions `numerator / denominator` of two `u64`s.
//!
//! Position keys are such fractions. Two keys name the same position when their
//! reduced forms agree, and keys are ordered by the value of the fraction,
//! compared exactly by cross-multiplication.

use vstd::arithmetic::div_mod::{lemma_fundamental_div_mod, lemma_mod_multiples_basic};
use vstd::prelude::*;

verus! {

/// The greatest common divisor, by Euclid's recursion; `gcd(0, 0) == 0`.
pub open spec fn spec_gcd(a: nat, b: nat) -> nat
    decreases b,
{
    if b == 0 {
        a
    } else {
        spec_gcd(b, a % b)
    }
}

/// Relies on `num_integer::gcd` for `u64`: it returns the greatest common divisor
/// of its arguments, and the other argument when one of them is zero.
#[verifier::external_body]
pub(crate) fn gcd_u64(a: u64, b: u64) -> (r: u64)
    ensures
        r as nat == spec_gcd(a as nat, b as nat),
{
    num_integer::gcd(a, b)
}

/// The pair `(n, d)` with both components divided by their greatest common divisor.
/// The pair `(0, 0)`, whose divisor is zero, is left as it is.
pub open spec fn reduce(n: nat, d: nat) -> (nat, nat) {
    let g = spec_gcd(n, d);
    if g == 0 {
        (n, d)
    } else {
        (n / g, d / g)
    }
}

/// `n1 / d1` and `n2 / d2` name the same position: their reduced forms match.
pub open spec fn same_fraction(n1: u64, d1: u64, n2: u64, d2: u64) -> bool {
    reduce(n1 as nat, d1 as nat) == reduce(n2 as nat, d2 as nat)
}

/// `n1 / d1` is strictly less than `n2 / d2` as a rational number
/// (for positive denominators).
pub open spec fn fraction_lt(n1: u64, d1: u64, n2: u64, d2: u64) -> bool {
    (n1 as int) * (d2 as int) < (n2 as int) * (d1 as int)
}

/// Tells whether `n1 / d1` and `n2 / d2` reduce to the same pair.
pub fn fractions_match(n1: u64, d1: u64, n2: u64, d2: u64) -> (r: bool)
    ensures
        r == same_fraction(n1, d1, n2, d2),
{
    if n1 == n2 && d1 == d2 {
        return true;
    }
    let g1 = gcd_u64(n1, d1);
    let g2 = gcd_u64(n2, d2);
    let (r1, s1) = if g1 == 0 {
        (n1, d1)
    } else {
        (n1 / g1, d1 / g1)
    };
    let (r2, s2) = if g2 == 0 {
        (n2, d2)
    } else {
        (n2 / g2, d2 / g2)
    };
    r1 == r2 && s1 == s2
}

proof fn lemma_product_fits(a: u64, b: u64)
    ensures
        (a as int) * (b as int) <= u128::MAX,
{
    assert((a as int) * (b as int) <= (u64::MAX as int) * (u64::MAX as int)) by (nonlinear_arith)
        requires
            0 <= a <= u64::MAX,
            0 <= b <= u64::MAX,
    ;
}

/// Compares `n1 / d1` with `n2 / d2` as rational numbers, exactly.
pub fn compare_fractions(n1: u64, d1: u64, n2: u64, d2: u64) -> (r: core::cmp::Ordering)
    ensures
        r == core::cmp::Ordering::Less <==> fraction_lt(n1, d1, n2, d2),
        r == core::cmp::Ordering::Greater <==> fraction_lt(n2, d2, n1, d1),
{
    proof {
        lemma_product_fits(n1, d2);
        lemma_product_fits(n2, d1);
    }
    let lhs: u128 = (n1 as u128) * (d2 as u128);
    let rhs: u128 = (n2 as u128) * (d1 as u128);
    if lhs < rhs {
        core::cmp::Ordering::Less
    } else if lhs > rhs {
        core::cmp::Ordering::Greater
    } else {
        core::cmp::Ordering::Equal
    }
}

/// The greatest common divisor divides both arguments, and it is zero only for `(0, 0)`.
pub proof fn lemma_gcd_divides(a: nat, b: nat)
    ensures
        spec_gcd(a, b) == 0 <==> (a == 0 && b == 0),
        spec_gcd(a, b) > 0 ==> a % spec_gcd(a, b) == 0 && b % spec_gcd(a, b) == 0,
    decreases b,
{
    if b == 0 {
        if a > 0 {
            lemma_mod_multiples_basic(1, a as int);
            lemma_mod_multiples_basic(0, a as int);
        }
    } else {
        let r = a % b;
        lemma_gcd_divides(b, r);
        let g = spec_gcd(b, r) as int;
        lemma_fundamental_div_mod(a as int, b as int);
        lemma_fundamental_div_mod(b as int, g);
        lemma_fundamental_div_mod(r as int, g);
        let k = (b as int / g) * (a as int / b as int) + r as int / g;
        assert(a as int == k * g) by (nonlinear_arith)
            requires
                a as int == b as int * (a as int / b as int) + r as int,
                b as int == g * (b as int / g),
                r as int == g * (r as int / g),
                k == (b as int / g) * (a as int / b as int) + r as int / g,
        ;
        lemma_mod_multiples_basic(k, g);
    }
}

/// Fractions with positive denominators that reduce to the same pair have the
/// same value.
pub proof fn lemma_same_fraction_same_value(n1: u64, d1: u64, n2: u64, d2: u64)
    requires
        d1 >= 1,
        d2 >= 1,
        same_fraction(n1, d1, n2, d2),
    ensures
        (n1 as int) * (d2 as int) == (n2 as int) * (d1 as int),
{
    lemma_gcd_divides(n1 as nat, d1 as nat);
    lemma_gcd_divides(n2 as nat, d2 as nat);
    let g1 = spec_gcd(n1 as nat, d1 as nat) as int;
    let g2 = spec_gcd(n2 as nat, d2 as nat) as int;
    lemma_fundamental_div_mod(n1 as int, g1);
    lemma_fundamental_div_mod(d1 as int, g1);
    lemma_fundamental_div_mod(n2 as int, g2);
    lemma_fundamental_div_mod(d2 as int, g2);
    let p = n1 as int / g1;
    let q = d1 as int / g1;
    assert(p == n2 as int / g2 && q == d2 as int / g2);
    assert((n1 as int) * (d2 as int) == (n2 as int) * (d1 as int)) by (nonlinear_arith)
        requires
            n1 as int == g1 * p,
            d1 as int == g1 * q,
            n2 as int == g2 * p,
            d2 as int == g2 * q,
    ;
}

} // verus!
