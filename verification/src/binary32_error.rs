//! How far the rounded operations are off: one part in 2^24 and one unit.

use vstd::arithmetic::power2::{lemma_pow2_adds, lemma_pow2_pos, pow2};
use vstd::prelude::*;

use crate::binary32::Binary32;
use crate::binary32_laws;
use crate::rounding;
use crate::rounding::INFINITY_CODE;

verus! {

/// The distance of a whole number from zero.
pub open spec fn distance(x: int) -> int {
    if x < 0 {
        -x
    } else {
        x
    }
}

/// Results up to this many units are safe from overflow.
pub open spec fn safe_units() -> nat {
    pow2(259)
}

/// A quotient of safe size rounds to a finite number, off by no more than one part in
/// 2^24 and one unit.
pub proof fn lemma_nearest_error(n: nat, d: nat)
    requires
        d > 0,
        n <= safe_units() * d,
    ensures
        rounding::nearest(n, d) < INFINITY_CODE,
        0 <= rounding::nearest(n, d),
        0xFF_FFFF * distance(rounding::magnitude(rounding::nearest(n, d)) * d - n) <= n + 0xFF_FFFF
            * d,
{
    let top: int = 0x7680_0000;
    vstd::arithmetic::power2::lemma2_to64();
    lemma_pow2_adds(23, 236);
    rounding::lemma_magnitude_of_parts(0x80_0000, 236);
    assert(rounding::magnitude(0x7680_0000) == pow2(259));
    rounding::lemma_nearest_exact(pow2(259), 1, top);
    rounding::lemma_nearest_monotone(n, d, pow2(259), 1);
    rounding::lemma_nearest_rounds(n, d);
    rounding::lemma_nearest_is_not_far_above(n, d);
    let code = rounding::nearest(n, d);
    let m = rounding::magnitude(code);
    if code >= 0x80_0000 {
        rounding::lemma_nearest_is_close(n, d);
    } else {
        rounding::lemma_magnitude_of_parts(code + 1, 0);
        assert(rounding::magnitude(code + 1) == m + 1);
        assert(n <= m * d + d) by (nonlinear_arith)
            requires
                2 * n <= (m + (m + 1)) * d,
                d > 0,
        ;
    }
}

/// The error of a sum.
pub proof fn lemma_sum_error(a: Binary32, b: Binary32)
    requires
        a.finite(),
        b.finite(),
        distance(a.units() + b.units()) <= safe_units(),
    ensures
        a.sum(b).finite(),
        0xFF_FFFF * distance(a.sum(b).units() - (a.units() + b.units())) <= distance(
            a.units() + b.units(),
        ) + 0xFF_FFFF,
{
    reveal(Binary32::sum);
    let total = a.units() + b.units();
    if total != 0 {
        let n = distance(total) as nat;
        lemma_nearest_error(n, 1);
        binary32_laws::lemma_rounded(total < 0, n, 1);
    }
}

/// The error of a difference.
pub proof fn lemma_difference_error(a: Binary32, b: Binary32)
    requires
        a.finite(),
        b.finite(),
        distance(a.units() - b.units()) <= safe_units(),
    ensures
        a.difference(b).finite(),
        0xFF_FFFF * distance(a.difference(b).units() - (a.units() - b.units())) <= distance(
            a.units() - b.units(),
        ) + 0xFF_FFFF,
{
    assert(b.opposite().units() == -b.units());
    lemma_sum_error(a, b.opposite());
}

/// The error of a product.
pub proof fn lemma_product_error(a: Binary32, b: Binary32)
    requires
        a.finite(),
        b.finite(),
        distance(a.units() * b.units()) <= safe_units() * Binary32::units_in_one(),
    ensures
        a.product(b).finite(),
        0xFF_FFFF * distance(
            a.product(b).units() * Binary32::units_in_one() - a.units() * b.units(),
        ) <= distance(a.units() * b.units()) + 0xFF_FFFF * Binary32::units_in_one(),
{
    reveal(Binary32::product);
    let u = Binary32::units_in_one();
    lemma_pow2_pos(149);
    let n = a.size() * b.size();
    let negative = a.negative() != b.negative();
    lemma_signed_product(a.size() as int, b.size() as int);
    assert(a.units() * b.units() == if negative {
        -(n as int)
    } else {
        n as int
    });
    assert(n >= 0) by (nonlinear_arith)
        requires
            n == a.size() * b.size(),
    ;
    lemma_nearest_error(n, u);
    binary32_laws::lemma_rounded(negative, n, u);
    let r = a.product(b);
    lemma_signed_product(r.size() as int, u as int);
}

/// The error of a quotient.
pub proof fn lemma_quotient_error(a: Binary32, b: Binary32)
    requires
        a.finite(),
        b.finite(),
        !b.zero(),
        distance(a.units()) * Binary32::units_in_one() <= safe_units() * distance(b.units()),
    ensures
        a.quotient(b).finite(),
        0xFF_FFFF * distance(
            a.quotient(b).units() * b.units() - a.units() * Binary32::units_in_one(),
        ) <= distance(a.units()) * Binary32::units_in_one() + 0xFF_FFFF * distance(b.units()),
{
    reveal(Binary32::quotient);
    let u = Binary32::units_in_one();
    rounding::lemma_magnitude_increases(0, b.code());
    let n = a.size() * u;
    let d = b.size();
    let negative = a.negative() != b.negative();
    lemma_nearest_error(n, d);
    binary32_laws::lemma_rounded(negative, n, d);
    let r = a.quotient(b);
    lemma_signed_product(r.size() as int, d as int);
    lemma_signed_product(a.size() as int, u as int);
}

/// Signs of a product.
pub proof fn lemma_signed_product(x: int, y: int)
    ensures
        (-x) * y == -(x * y),
        x * (-y) == -(x * y),
        (-x) * (-y) == x * y,
{
    assert((-x) * y == -(x * y)) by (nonlinear_arith);
    assert(x * (-y) == -(x * y)) by (nonlinear_arith);
    assert((-x) * (-y) == x * y) by (nonlinear_arith);
}

/// Distances scale.
pub proof fn lemma_scaled_distance(x: int, u: int)
    requires
        u > 0,
    ensures
        distance(x * u) == distance(x) * u,
{
    lemma_signed_product(x, u);
    assert(x >= 0 ==> x * u >= 0) by (nonlinear_arith)
        requires
            u > 0,
    ;
    assert(x < 0 ==> x * u < 0) by (nonlinear_arith)
        requires
            u > 0,
    ;
}

/// The error of a fraction.
pub proof fn lemma_fraction_error(n: nat, d: nat)
    requires
        0 < n <= 0x10_0000,
        0 < d <= 0x10_0000,
    ensures
        Binary32::fraction(n, d).finite(),
        !Binary32::fraction(n, d).negative(),
        0x10_0000 * distance(
            Binary32::fraction(n, d).units() * d - n * Binary32::units_in_one(),
        ) <= n * Binary32::units_in_one(),
{
    let u = Binary32::units_in_one();
    vstd::arithmetic::power2::lemma2_to64();
    vstd::arithmetic::power2::lemma2_to64_rest();
    lemma_pow2_pos(149);
    vstd::arithmetic::power2::lemma_pow2_strictly_increases(60, 149);
    lemma_pow2_adds(20, 149);
    vstd::arithmetic::power2::lemma_pow2_strictly_increases(169, 259);
    let nu = n * u;
    let safe = safe_units();
    assert(u <= nu <= 0x10_0000 * u) by (nonlinear_arith)
        requires
            nu == n * u,
            0 < n <= 0x10_0000,
            u > 0,
    ;
    assert(safe <= safe * d) by (nonlinear_arith)
        requires
            d > 0,
    ;
    lemma_nearest_error(nu, d);
    binary32_laws::lemma_rounded(false, nu, d);
}

/// Nothing is left of a number without itself.
pub proof fn lemma_no_difference(a: Binary32, b: Binary32)
    requires
        a.finite(),
        b.finite(),
        a.units() == b.units(),
    ensures
        a.difference(b).units() == 0,
{
    reveal(Binary32::sum);
    assert(b.opposite().units() == -b.units());
}

} // verus!
