//! Laws of binary32 arithmetic: which numbers fractions are, and how the
//! operations keep the order.

use vstd::arithmetic::power2::{lemma_pow2_adds, lemma_pow2_pos, lemma_pow2_unfold, pow2};
use vstd::prelude::*;

use crate::binary32::Binary32;
use crate::rounding;
use crate::rounding::INFINITY_CODE;

verus! {

/// A rounded quotient has the sign it was given and the code it was rounded to.
pub proof fn lemma_rounded(negative: bool, n: nat, d: nat)
    requires
        d > 0,
    ensures
        Binary32::rounded(negative, n, d).negative() == negative,
        Binary32::rounded(negative, n, d).code() == rounding::nearest(n, d),
        0 <= rounding::nearest(n, d) <= INFINITY_CODE,
        !Binary32::rounded(negative, n, d).nan(),
{
    rounding::lemma_nearest_rounds(n, d);
}

/// The bits of a fraction, from its significand and its exponent; `scale` is the
/// power of two that makes up for the exponent.
pub proof fn lemma_fraction_bits(n: nat, d: nat, significand: nat, exponent: nat, scale: nat)
    requires
        d > 0,
        0x80_0000 < significand < 0x100_0000,
        exponent <= 149,
        scale == pow2((149 - exponent) as nat),
        (2 * significand - 1) * d < 2 * n * scale < (2 * significand + 1) * d,
    ensures
        Binary32::fraction(n, d) == (Binary32 {
            bits: (exponent * 0x80_0000 + significand) as u32,
        }),
        exponent * 0x80_0000 + significand < INFINITY_CODE,
{
    let code = exponent * 0x80_0000 + significand;
    let p = pow2(exponent);
    let q = pow2((149 - exponent) as nat);
    let u = pow2(149);
    lemma_pow2_pos(exponent);
    lemma_pow2_adds(exponent, (149 - exponent) as nat);
    rounding::lemma_magnitude_of_parts(significand as int, exponent);
    rounding::lemma_magnitude_of_parts(significand - 1, exponent);
    rounding::lemma_magnitude_of_parts(significand + 1int, exponent);
    assert(((significand - 1) * p + significand * p) * d == p * ((2 * significand - 1) * d))
        by (nonlinear_arith);
    assert((significand * p + (significand + 1) * p) * d == p * ((2 * significand + 1) * d))
        by (nonlinear_arith);
    assert(2 * (n * u) == p * (2 * n * q)) by (nonlinear_arith)
        requires
            u == p * q,
    ;
    assert(p * ((2 * significand - 1) * d) < p * (2 * n * q)) by (nonlinear_arith)
        requires
            (2 * significand - 1) * d < 2 * n * q,
            p > 0,
    ;
    assert(p * (2 * n * q) < p * ((2 * significand + 1) * d)) by (nonlinear_arith)
        requires
            2 * n * q < (2 * significand + 1) * d,
            p > 0,
    ;
    assert(rounding::rounds_to(n * u, d, code as int));
    rounding::lemma_nearest_is(n * u, d, code as int);
}

/// One is the number with exponent zero and an empty fraction.
pub proof fn lemma_one()
    ensures
        Binary32::whole(1) == (Binary32 { bits: 0x3F80_0000 }),
        Binary32::whole(1).size() == Binary32::units_in_one(),
{
    rounding::lemma_magnitude_of_parts(0x80_0000, 126);
    lemma_pow2_adds(23, 126);
    vstd::arithmetic::power2::lemma2_to64();
    rounding::lemma_nearest_exact(1 * pow2(149), 1, 0x3F80_0000);
}

/// One half.
pub proof fn lemma_half()
    ensures
        Binary32::fraction(1, 2) == (Binary32 { bits: 0x3F00_0000 }),
        2 * Binary32::fraction(1, 2).size() == Binary32::units_in_one(),
{
    rounding::lemma_magnitude_of_parts(0x80_0000, 125);
    lemma_pow2_adds(23, 125);
    lemma_pow2_adds(1, 148);
    vstd::arithmetic::power2::lemma2_to64();
    assert(rounding::magnitude(0x3F00_0000) == pow2(148));
    assert(1 * pow2(149) == pow2(148) * 2) by (nonlinear_arith)
        requires
            pow2(149) == 2 * pow2(148),
    ;
    rounding::lemma_nearest_exact(1 * pow2(149), 2, 0x3F00_0000);
}

/// Equal fractions are the same number.
pub proof fn lemma_same_fraction(n1: nat, d1: nat, n2: nat, d2: nat)
    requires
        d1 > 0,
        d2 > 0,
        n1 * d2 == n2 * d1,
    ensures
        Binary32::fraction(n1, d1) == Binary32::fraction(n2, d2),
{
    lemma_fraction_monotone(n1, d1, n2, d2);
    lemma_fraction_monotone(n2, d2, n1, d1);
    lemma_rounded(false, n1 * pow2(149), d1);
    lemma_rounded(false, n2 * pow2(149), d2);
}

/// Fractions are ordered as their quotients are.
pub proof fn lemma_fraction_monotone(n1: nat, d1: nat, n2: nat, d2: nat)
    requires
        d1 > 0,
        d2 > 0,
        n1 * d2 <= n2 * d1,
    ensures
        Binary32::fraction(n1, d1).at_most(Binary32::fraction(n2, d2)),
        !Binary32::fraction(n1, d1).negative(),
        !Binary32::fraction(n2, d2).negative(),
{
    let u = pow2(149);
    assert((n1 * u) * d2 <= (n2 * u) * d1) by (nonlinear_arith)
        requires
            n1 * d2 <= n2 * d1,
    ;
    lemma_rounded(false, n1 * u, d1);
    lemma_rounded(false, n2 * u, d2);
    rounding::lemma_nearest_monotone(n1 * u, d1, n2 * u, d2);
}

/// A natural number of up to 64 bits is finite, and zero only for zero.
pub proof fn lemma_whole(n: nat)
    requires
        n <= 0x1_0000_0000_0000_0000,
    ensures
        Binary32::whole(n).finite(),
        !Binary32::whole(n).negative(),
        Binary32::whole(n).zero() <==> n == 0,
        n > 0 ==> Binary32::whole(n).size() > 0,
{
    let u = pow2(149);
    let top: nat = 0x1_0000_0000_0000_0000;
    rounding::lemma_magnitude_of_parts(0x80_0000, 190);
    lemma_pow2_adds(23, 190);
    lemma_pow2_adds(64, 149);
    vstd::arithmetic::power2::lemma2_to64();
    vstd::arithmetic::power2::lemma2_to64_rest();
    rounding::lemma_nearest_exact(top * u, 1, 0x5F80_0000);
    lemma_fraction_monotone(n, 1, top, 1);
    lemma_rounded(false, top * u, 1);
    lemma_rounded(false, n * u, 1);
    if n == 0 {
        assert(0 * u == 0);
        assert(rounding::magnitude(0) * 1 == 0);
        rounding::lemma_nearest_exact(0 * u, 1, 0);
    } else {
        lemma_fraction_monotone(1, 1, n, 1);
        lemma_one();
        rounding::lemma_magnitude_increases(0, Binary32::whole(n).code());
    }
}

/// A quotient of natural numbers is a number and is not negative.
pub proof fn lemma_natural_quotient(n: nat, d: nat)
    requires
        n <= 0x1_0000_0000_0000_0000,
        0 < d <= 0x1_0000_0000_0000_0000,
    ensures
        !Binary32::whole(n).quotient(Binary32::whole(d)).nan(),
        !Binary32::whole(n).quotient(Binary32::whole(d)).negative(),
{
    reveal(Binary32::quotient);
    lemma_whole(n);
    lemma_whole(d);
    lemma_rounded(
        false,
        Binary32::whole(n).size() * Binary32::units_in_one(),
        Binary32::whole(d).size(),
    );
}

/// Finite numbers are ordered as their units are.
pub proof fn lemma_order_is_by_units(a: Binary32, b: Binary32)
    requires
        a.finite(),
        b.finite(),
    ensures
        a.key() <= b.key() <==> a.units() <= b.units(),
        a.key() == b.key() <==> a.units() == b.units(),
        a.units() == 0 <==> a.zero(),
{
    assert(rounding::magnitude(0) == 0);
    if a.code() > 0 {
        rounding::lemma_magnitude_increases(0, a.code());
    }
    if b.code() > 0 {
        rounding::lemma_magnitude_increases(0, b.code());
    }
    if a.code() < b.code() {
        rounding::lemma_magnitude_increases(a.code(), b.code());
    }
    if b.code() < a.code() {
        rounding::lemma_magnitude_increases(b.code(), a.code());
    }
}

/// The key of the number nearest to a whole number of units.
spec fn rounded_key(total: int) -> int {
    if total < 0 {
        -rounding::nearest((-total) as nat, 1)
    } else {
        rounding::nearest(total as nat, 1)
    }
}

proof fn lemma_rounded_key_monotone(total1: int, total2: int)
    requires
        total1 <= total2,
    ensures
        rounded_key(total1) <= rounded_key(total2),
{
    if total2 < 0 {
        rounding::lemma_nearest_monotone((-total2) as nat, 1, (-total1) as nat, 1);
    } else if total1 >= 0 {
        rounding::lemma_nearest_monotone(total1 as nat, 1, total2 as nat, 1);
    } else {
        rounding::lemma_nearest_rounds((-total1) as nat, 1);
        rounding::lemma_nearest_rounds(total2 as nat, 1);
    }
}

proof fn lemma_sum_key(a: Binary32, b: Binary32)
    requires
        a.finite(),
        b.finite(),
    ensures
        !a.sum(b).nan(),
        a.sum(b).key() == rounded_key(a.units() + b.units()),
{
    reveal(Binary32::sum);
    let total = a.units() + b.units();
    if total < 0 {
        lemma_rounded(true, (-total) as nat, 1);
    } else if total > 0 {
        lemma_rounded(false, total as nat, 1);
    } else {
        assert(rounding::magnitude(0) * 1 == 0);
        rounding::lemma_nearest_exact(0, 1, 0);
    }
}

/// A sum of finite numbers does not shrink when its terms grow.
pub proof fn lemma_sum_monotone(a: Binary32, b: Binary32, c: Binary32, d: Binary32)
    requires
        a.finite(),
        b.finite(),
        c.finite(),
        d.finite(),
        a.at_most(c),
        b.at_most(d),
    ensures
        a.sum(b).at_most(c.sum(d)),
{
    lemma_order_is_by_units(a, c);
    lemma_order_is_by_units(b, d);
    lemma_sum_key(a, b);
    lemma_sum_key(c, d);
    lemma_rounded_key_monotone(a.units() + b.units(), c.units() + d.units());
}

/// A sum that is a number already is that number.
pub proof fn lemma_sum_exact(a: Binary32, b: Binary32, c: Binary32)
    requires
        a.finite(),
        b.finite(),
        c.finite(),
        !c.negative(),
        a.units() + b.units() == c.units(),
        c.units() > 0,
    ensures
        a.sum(b) == c,
{
    reveal(Binary32::sum);
    rounding::lemma_nearest_exact(c.size(), 1, c.code());
}

/// Numbers without a sign have a sum, a product and a quotient without a sign.
pub proof fn lemma_signs(a: Binary32, b: Binary32)
    requires
        !a.negative(),
        !b.negative(),
    ensures
        !a.sum(b).negative(),
        !a.product(b).negative(),
        !a.quotient(b).negative(),
{
    reveal(Binary32::sum);
    reveal(Binary32::product);
    reveal(Binary32::quotient);
    if a.finite() && b.finite() {
        let total = a.units() + b.units();
        lemma_rounded(false, total as nat, 1);
        lemma_pow2_pos(149);
        lemma_rounded(false, a.size() * b.size(), pow2(149));
        if !b.zero() {
            rounding::lemma_magnitude_increases(0, b.code());
            lemma_rounded(false, a.size() * pow2(149), b.size());
        }
    }
}

/// The key of a product of finite numbers that are not below zero.
proof fn lemma_product_key(a: Binary32, b: Binary32)
    requires
        a.finite(),
        b.finite(),
        a.key() >= 0,
        b.key() >= 0,
    ensures
        !a.product(b).nan(),
        a.product(b).key() == rounding::nearest(a.size() * b.size(), pow2(149)),
{
    reveal(Binary32::product);
    lemma_pow2_pos(149);
    let n = a.size() * b.size();
    let u = pow2(149);
    lemma_rounded(a.negative() != b.negative(), n, u);
    if a.negative() || b.negative() {
        assert(rounding::magnitude(0) == 0);
        assert(n == 0) by (nonlinear_arith)
            requires
                n == a.size() * b.size(),
                a.size() == 0 || b.size() == 0,
        ;
        assert(rounding::magnitude(0) * u == 0) by (nonlinear_arith)
            requires
                rounding::magnitude(0) == 0,
        ;
        rounding::lemma_nearest_exact(n, u, 0);
    }
}

/// A product of finite numbers that are not below zero does not shrink when its
/// factors grow.
pub proof fn lemma_product_monotone(a: Binary32, b: Binary32, c: Binary32, d: Binary32)
    requires
        a.finite(),
        b.finite(),
        c.finite(),
        d.finite(),
        0 <= a.key() <= c.key(),
        0 <= b.key() <= d.key(),
    ensures
        a.product(b).at_most(c.product(d)),
        0 <= a.product(b).key(),
{
    lemma_pow2_pos(149);
    lemma_order_is_by_units(a, c);
    lemma_order_is_by_units(b, d);
    lemma_order_is_by_units(c, a);
    lemma_order_is_by_units(d, b);
    lemma_product_key(a, b);
    lemma_product_key(c, d);
    let n1 = a.size() * b.size();
    let n2 = c.size() * d.size();
    assert(n1 <= n2) by (nonlinear_arith)
        requires
            n1 == a.size() * b.size(),
            n2 == c.size() * d.size(),
            a.size() <= c.size(),
            b.size() <= d.size(),
    ;
    let u = pow2(149);
    assert(n1 * u <= n2 * u) by (nonlinear_arith)
        requires
            n1 <= n2,
    ;
    rounding::lemma_nearest_rounds(n1, u);
    rounding::lemma_nearest_monotone(n1, u, n2, u);
}

/// Multiplying by one changes nothing.
pub proof fn lemma_times_one(a: Binary32)
    requires
        !a.nan(),
    ensures
        a.product(Binary32::whole(1)) == a,
        Binary32::whole(1).product(a) == a,
{
    reveal(Binary32::product);
    lemma_one();
    lemma_pow2_pos(149);
    let u = pow2(149);
    assert(u * a.size() == a.size() * u) by (nonlinear_arith);
    if a.finite() {
        rounding::lemma_nearest_exact(a.size() * u, u, a.code());
    }
}

/// What is taken from one leaves at most one, and where it is not below zero it
/// has no sign.
pub proof fn lemma_taken_from_one(a: Binary32)
    ensures
        ({
            let rest = Binary32::whole(1).difference(a);
            &&& !rest.negative() || (!rest.nan() && rest.key() < 0)
            &&& !a.negative() ==> rest.nan() || rest.at_most(Binary32::whole(1))
        }),
{
    reveal(Binary32::sum);
    lemma_one();
    let one = Binary32::whole(1);
    let b = a.opposite();
    let rest = one.sum(b);
    if a.finite() {
        let total = one.units() + b.units();
        if total < 0 {
            lemma_rounded(true, (-total) as nat, 1);
            assert(rounding::magnitude(1) == 1);
            rounding::lemma_nearest_exact(1, 1, 1);
            rounding::lemma_nearest_monotone(1, 1, (-total) as nat, 1);
        } else if total > 0 {
            lemma_rounded(false, total as nat, 1);
        }
        if !a.negative() {
            lemma_sum_key(one, b);
            lemma_rounded_key_monotone(total, one.units());
            rounding::lemma_nearest_exact(one.size(), 1, one.code());
        }
    }
}

/// A number below one leaves something of it.
pub proof fn lemma_floor_leaves_something(a: Binary32)
    requires
        !a.negative(),
        a.below(Binary32::whole(1)),
    ensures
        !Binary32::whole(1).difference(a).nan(),
        !Binary32::whole(1).difference(a).negative(),
{
    lemma_one();
    let one = Binary32::whole(1);
    lemma_order_is_by_units(a, one);
    lemma_sum_key(one, a.opposite());
    lemma_taken_from_one(a);
    rounding::lemma_nearest_rounds((one.units() - a.units()) as nat, 1);
}

/// Four fifths, and what is left of one: they sum up to one exactly.
pub proof fn lemma_four_fifths()
    ensures
        Binary32::fraction(80, 100) == (Binary32 { bits: 0x3F4C_CCCD }),
        Binary32::whole(1).difference(Binary32::fraction(80, 100)) == (Binary32 {
            bits: 0x3E4C_CCCC,
        }),
        Binary32::fraction(80, 100).sum(
            Binary32::whole(1).difference(Binary32::fraction(80, 100)),
        ) == Binary32::whole(1),
{
    vstd::arithmetic::power2::lemma2_to64();
    lemma_one();
    lemma_fraction_bits(80, 100, 0xCC_CCCD, 125, 0x100_0000);
    let one = Binary32::whole(1);
    let ema = Binary32::fraction(80, 100);
    let rest = Binary32 { bits: 0x3E4C_CCCC };
    rounding::lemma_magnitude_of_parts(0xCC_CCCD, 125);
    rounding::lemma_magnitude_of_parts(0xCC_CCCC, 123);
    lemma_pow2_adds(125, 24);
    assert(pow2(125) * pow2(24) == 0x100_0000 * pow2(125)) by (nonlinear_arith)
        requires
            pow2(24) == 0x100_0000,
    ;
    lemma_pow2_unfold(125);
    lemma_pow2_unfold(124);
    lemma_pow2_pos(123);
    assert(ema.units() == 0xCC_CCCD * pow2(125));
    assert(rest.units() == 0xCC_CCCC * pow2(123));
    assert(one.units() == 0x100_0000 * pow2(125));
    assert(pow2(125) == 4 * pow2(123));
    assert(ema.opposite().units() == -ema.units());
    assert(one.units() - ema.units() == rest.units());
    lemma_sum_exact(one, ema.opposite(), rest);
    lemma_sum_exact(ema, rest, one);
}

/// Two halves make one, and adding zero changes nothing.
pub proof fn lemma_halves()
    ensures
        Binary32::fraction(1, 2).sum(Binary32::fraction(1, 2)) == Binary32::whole(1),
        Binary32::fraction(1, 2).sum(Binary32::nil()) == Binary32::fraction(1, 2),
{
    lemma_one();
    lemma_half();
    let half = Binary32::fraction(1, 2);
    rounding::lemma_magnitude_of_parts(0x80_0000, 125);
    lemma_pow2_pos(125);
    lemma_pow2_unfold(126);
    rounding::lemma_magnitude_of_parts(0x80_0000, 126);
    assert(half.units() == 0x80_0000 * pow2(125));
    assert(Binary32::whole(1).units() == 0x80_0000 * pow2(126));
    assert(Binary32::nil().units() == 0);
    lemma_sum_exact(half, half, Binary32::whole(1));
    lemma_sum_exact(half, Binary32::nil(), half);
}

/// A number over one other than zero is a number, unless both are infinite.
pub proof fn lemma_quotient_is_a_number(a: Binary32, b: Binary32)
    requires
        !a.nan(),
        !b.nan(),
        a.finite() || b.finite(),
        !b.zero(),
    ensures
        !a.quotient(b).nan(),
{
    reveal(Binary32::quotient);
    if a.finite() && b.finite() {
        rounding::lemma_magnitude_increases(0, b.code());
        lemma_rounded(a.negative() != b.negative(), a.size() * pow2(149), b.size());
    }
}

/// Half of twice the smallest positive number is that number.
pub proof fn lemma_half_of_two_units()
    ensures
        (Binary32 { bits: 2 }).product(Binary32::fraction(1, 2)) == (Binary32 { bits: 1 }),
{
    reveal(Binary32::product);
    lemma_half();
    lemma_pow2_unfold(149);
    lemma_pow2_pos(148);
    rounding::lemma_magnitude_of_parts(0x80_0000, 125);
    vstd::arithmetic::power2::lemma2_to64();
    lemma_pow2_adds(23, 125);
    let u = pow2(149);
    assert(rounding::magnitude(0x3F00_0000) == pow2(148));
    assert(rounding::magnitude(2) == 2);
    assert(rounding::magnitude(1) == 1);
    assert(2 * pow2(148) == 1 * u);
    rounding::lemma_nearest_exact(u, u, 1);
}

/// A number over one that is no smaller is at most one.
pub proof fn lemma_quotient_at_most_one(a: Binary32, b: Binary32)
    requires
        a.finite(),
        b.finite(),
        !a.negative(),
        !b.negative(),
        !b.zero(),
        a.key() <= b.key(),
    ensures
        a.quotient(b).at_most(Binary32::whole(1)),
        !a.quotient(b).negative(),
{
    reveal(Binary32::quotient);
    lemma_one();
    lemma_pow2_pos(149);
    let u = pow2(149);
    rounding::lemma_magnitude_increases(0, b.code());
    lemma_order_is_by_units(a, b);
    lemma_rounded(false, a.size() * u, b.size());
    assert((a.size() * u) * 1 <= u * b.size()) by (nonlinear_arith)
        requires
            a.size() <= b.size(),
    ;
    rounding::lemma_nearest_monotone(a.size() * u, b.size(), u, 1);
    lemma_rounded(false, 1 * u, 1);
    assert(1 * u == u);
}

/// One fifth and four fifths, rounded: their sum rounds to one.
pub proof fn lemma_fifths()
    ensures
        Binary32::fraction(2, 10) == (Binary32 { bits: 0x3E4C_CCCD }),
        Binary32::fraction(8, 10) == (Binary32 { bits: 0x3F4C_CCCD }),
        Binary32::fraction(2, 10).sum(Binary32::fraction(8, 10)) == Binary32::whole(1),
{
    reveal(Binary32::sum);
    vstd::arithmetic::power2::lemma2_to64();
    lemma_one();
    lemma_fraction_bits(8, 10, 0xCC_CCCD, 125, 0x100_0000);
    lemma_fraction_bits(2, 10, 0xCC_CCCD, 123, 0x400_0000);
    rounding::lemma_magnitude_of_parts(0xCC_CCCD, 125);
    rounding::lemma_magnitude_of_parts(0xCC_CCCD, 123);
    rounding::lemma_magnitude_of_parts(0xFF_FFFF, 125);
    rounding::lemma_magnitude_of_parts(0x80_0000, 126);
    rounding::lemma_magnitude_of_parts(0x80_0001, 126);
    lemma_pow2_unfold(126);
    lemma_pow2_unfold(125);
    lemma_pow2_unfold(124);
    lemma_pow2_pos(123);
    let p = pow2(123);
    let total: nat = 0x400_0001 * p;
    assert(Binary32::fraction(2, 10).units() + Binary32::fraction(8, 10).units() == total);
    assert(rounding::magnitude(0x3F7F_FFFF) == 0xFF_FFFF * pow2(125));
    assert(rounding::magnitude(0x3F80_0001) == 0x80_0001 * pow2(126));
    assert(0xFF_FFFF * pow2(125) == 0x3FF_FFFC * p) by (nonlinear_arith)
        requires
            pow2(125) == 4 * p,
    ;
    assert(rounding::magnitude(0x3F80_0000) == 0x80_0000 * pow2(126));
    assert(0x80_0001 * pow2(126) == 0x400_0008 * p) by (nonlinear_arith)
        requires
            pow2(126) == 8 * p,
    ;
    assert(0x80_0000 * pow2(126) == 0x400_0000 * p) by (nonlinear_arith)
        requires
            pow2(126) == 8 * p,
    ;
    assert(rounding::magnitude(0x3F7F_FFFF) + rounding::magnitude(0x3F80_0000) == 0x7FF_FFFC
        * p);
    assert(rounding::magnitude(0x3F80_0000) + rounding::magnitude(0x3F80_0001) == 0x800_0008
        * p);
    assert(rounding::rounds_to(total, 1, 0x3F80_0000));
    rounding::lemma_nearest_is(total, 1, 0x3F80_0000);
}

/// A sum of finite numbers that are not below zero is not below zero.
pub proof fn lemma_sum_not_below_zero(a: Binary32, b: Binary32)
    requires
        a.finite(),
        b.finite(),
        a.key() >= 0,
        b.key() >= 0,
    ensures
        !a.sum(b).nan(),
        a.sum(b).key() >= 0,
{
    lemma_order_is_by_units(a, Binary32::nil());
    lemma_order_is_by_units(b, Binary32::nil());
    lemma_order_is_by_units(Binary32::nil(), a);
    lemma_order_is_by_units(Binary32::nil(), b);
    assert(Binary32::nil().units() == 0);
    lemma_sum_key(a, b);
    rounding::lemma_nearest_rounds((a.units() + b.units()) as nat, 1);
}

proof fn lemma_whole_exact_below(n: nat, k: nat)
    requires
        0 < n < pow2(k + 1),
        k <= 23,
    ensures
        Binary32::whole(n).size() == n * Binary32::units_in_one(),
        Binary32::whole(n).finite(),
    decreases k,
{
    vstd::arithmetic::power2::lemma2_to64();
    if n >= pow2(k) {
        let q = pow2((23 - k) as nat);
        let significand = n * q;
        let exponent = (126 + k) as nat;
        lemma_pow2_adds(k, (23 - k) as nat);
        lemma_pow2_adds(k + 1, (23 - k) as nat);
        lemma_pow2_adds((23 - k) as nat, exponent);
        lemma_pow2_pos((23 - k) as nat);
        assert(0x80_0000 <= significand < 0x100_0000) by (nonlinear_arith)
            requires
                significand == n * q,
                pow2(k) <= n < pow2(k + 1),
                pow2(k) * q == 0x80_0000,
                pow2(k + 1) * q == 0x100_0000,
                q > 0,
        ;
        rounding::lemma_magnitude_of_parts(significand as int, exponent);
        let p = pow2(exponent);
        assert((n * q) * p == n * (q * p)) by (nonlinear_arith);
        let code = exponent * 0x80_0000 + significand;
        rounding::lemma_nearest_exact(n * pow2(149), 1, code as int);
    } else {
        lemma_whole_exact_below(n, (k - 1) as nat);
    }
}

/// A natural number of up to 24 bits is exact.
pub proof fn lemma_whole_exact(n: nat)
    requires
        n < 0x100_0000,
    ensures
        Binary32::whole(n).finite(),
        !Binary32::whole(n).negative(),
        Binary32::whole(n).size() == n * Binary32::units_in_one(),
{
    vstd::arithmetic::power2::lemma2_to64();
    lemma_whole(n);
    if n > 0 {
        lemma_whole_exact_below(n, 23);
    } else {
        assert(0 * pow2(149) == 0);
    }
}

/// Taking 99 of a hundred parts of a small number takes away no more than one.
pub proof fn lemma_scaled_by_99_percent(n: nat, limit: nat)
    requires
        0 < n <= 100,
        limit >= n,
    ensures
        Binary32::whole(n).product(Binary32::fraction(99, 100)).truncated(limit) >= n - 1,
{
    reveal(Binary32::product);
    reveal(Binary32::truncated);
    vstd::arithmetic::power2::lemma2_to64();
    let u = pow2(149);
    let f = Binary32::fraction(99, 100);
    let a = Binary32::whole(n);
    let b = Binary32::whole((n - 1) as nat);
    let p = pow2(125);
    lemma_pow2_pos(149);
    lemma_pow2_pos(125);
    lemma_pow2_adds(125, 24);
    lemma_fraction_bits(99, 100, 0xFD_70A4, 125, 0x100_0000);
    rounding::lemma_magnitude_of_parts(0xFD_70A4, 125);
    lemma_whole_exact(n);
    lemma_whole_exact((n - 1) as nat);
    let exact = a.size() * f.size();
    lemma_rounded(false, exact, u);
    let r = a.product(f);
    assert(((n - 1) * u) * u <= exact * 1) by (nonlinear_arith)
        requires
            exact == (n * u) * (0xFD_70A4 * p),
            u == p * 0x100_0000,
            n <= 100,
            p > 0,
            u > 0,
    {
        assert((n - 1) * 0x100_0000 <= n * 0xFD_70A4);
        assert(((n - 1) * 0x100_0000) * p <= (n * 0xFD_70A4) * p);
        assert((n - 1) * u <= n * (0xFD_70A4 * p));
        assert(((n - 1) * u) * u <= (n * (0xFD_70A4 * p)) * u);
    }
    let less = (n - 1) as nat * u;
    lemma_rounded(false, less, 1);
    rounding::lemma_nearest_monotone(less, 1, exact, u);
    if !r.infinite() {
        lemma_order_is_by_units(b, r);
        assert(r.size() >= (n - 1) * u);
        assert(r.size() / u >= n - 1) by (nonlinear_arith)
            requires
                r.size() >= (n - 1) * u,
                u > 0,
        ;
    }
}

/// A quotient does not shrink when its numerator grows.
pub proof fn lemma_quotient_monotone(a: Binary32, c: Binary32, b: Binary32)
    requires
        a.finite(),
        c.finite(),
        !a.negative(),
        !c.negative(),
        a.key() <= c.key(),
        !b.nan(),
        !b.negative(),
        !b.zero(),
    ensures
        a.quotient(b).at_most(c.quotient(b)),
        !a.quotient(b).negative(),
        !c.quotient(b).negative(),
{
    reveal(Binary32::quotient);
    if b.finite() {
        let u = pow2(149);
        rounding::lemma_magnitude_increases(0, b.code());
        lemma_order_is_by_units(a, c);
        lemma_rounded(false, a.size() * u, b.size());
        lemma_rounded(false, c.size() * u, b.size());
        assert((a.size() * u) * b.size() <= (c.size() * u) * b.size()) by (nonlinear_arith)
            requires
                a.size() <= c.size(),
        ;
        rounding::lemma_nearest_monotone(a.size() * u, b.size(), c.size() * u, b.size());
    }
}

/// A number over one that is no larger is at least one.
pub proof fn lemma_quotient_at_least_one(a: Binary32, b: Binary32)
    requires
        a.finite(),
        b.finite(),
        !a.negative(),
        !b.negative(),
        !b.zero(),
        b.key() <= a.key(),
    ensures
        Binary32::whole(1).at_most(a.quotient(b)),
        !a.quotient(b).negative(),
{
    reveal(Binary32::quotient);
    lemma_one();
    lemma_pow2_pos(149);
    let u = pow2(149);
    rounding::lemma_magnitude_increases(0, b.code());
    lemma_order_is_by_units(b, a);
    lemma_rounded(false, a.size() * u, b.size());
    assert(u * b.size() <= (a.size() * u) * 1) by (nonlinear_arith)
        requires
            b.size() <= a.size(),
    ;
    rounding::lemma_nearest_monotone(u, 1, a.size() * u, b.size());
    lemma_rounded(false, 1 * u, 1);
    assert(1 * u == u);
}

/// The more is taken from one, the less is left.
pub proof fn lemma_difference_from_one_falls(a: Binary32, b: Binary32)
    requires
        !b.nan(),
        !a.negative(),
        !b.negative(),
        a.key() <= b.key(),
    ensures
        Binary32::whole(1).difference(b).at_most(Binary32::whole(1).difference(a)),
{
    reveal(Binary32::sum);
    lemma_one();
    let one = Binary32::whole(1);
    if b.finite() {
        lemma_sum_monotone(one, b.opposite(), one, a.opposite());
    } else if a.finite() {
        lemma_sum_key(one, a.opposite());
        let total = one.units() + a.opposite().units();
        if total < 0 {
            rounding::lemma_nearest_rounds((-total) as nat, 1);
        } else {
            rounding::lemma_nearest_rounds(total as nat, 1);
        }
    }
}

/// One taken from one leaves zero.
pub proof fn lemma_nothing_left()
    ensures
        Binary32::whole(1).difference(Binary32::whole(1)) == Binary32::nil(),
{
    reveal(Binary32::sum);
    lemma_one();
}

/// Three times a number is at most what is left of four times it, or of more, when
/// it is taken away once.
pub proof fn lemma_thrice(a: Binary32, b: Binary32)
    requires
        a.finite(),
        b.finite(),
        !a.negative(),
        !b.negative(),
        4 * a.size() <= b.size(),
        !a.zero(),
    ensures
        a.product(Binary32::whole(3)).at_most(b.difference(a)),
{
    reveal(Binary32::product);
    reveal(Binary32::sum);
    rounding::lemma_magnitude_increases(0, a.code());
    lemma_pow2_pos(149);
    lemma_whole_exact(3);
    let u = pow2(149);
    let n = a.size() * Binary32::whole(3).size();
    let total = b.units() + a.opposite().units();
    lemma_rounded(false, n, u);
    lemma_rounded(false, total as nat, 1);
    assert(n * 1 <= total * u) by (nonlinear_arith)
        requires
            n == a.size() * (3 * u),
            total == b.size() - a.size(),
            4 * a.size() <= b.size(),
            u > 0,
    {
        assert(n == (3 * a.size()) * u);
        assert((3 * a.size()) * u <= total * u);
    }
    rounding::lemma_nearest_monotone(n, u, total as nat, 1);
}

/// Zero over a finite number other than zero is zero.
pub proof fn lemma_zero_over(a: Binary32, b: Binary32)
    requires
        a.zero(),
        b.finite(),
        !b.zero(),
    ensures
        a.quotient(b) == Binary32::signed(a.negative() != b.negative(), 0),
{
    reveal(Binary32::quotient);
    rounding::lemma_magnitude_increases(0, b.code());
    let u = pow2(149);
    assert(0 * u == 0);
    assert(0 * b.size() == 0);
    rounding::lemma_nearest_exact(0, b.size(), 0);
}

/// A finite number times a zero is a zero.
pub proof fn lemma_times_a_zero(a: Binary32, b: Binary32)
    requires
        a.finite(),
        b.zero(),
    ensures
        a.product(b) == Binary32::signed(a.negative() != b.negative(), 0),
{
    reveal(Binary32::product);
    lemma_pow2_pos(149);
    let u = pow2(149);
    assert(a.size() * 0 == 0);
    assert(0 * u == 0);
    rounding::lemma_nearest_exact(0, u, 0);
}

/// A zero less a zero is a zero.
pub proof fn lemma_zero_minus_zero(a: Binary32, b: Binary32)
    requires
        a.zero(),
        b.zero(),
    ensures
        a.difference(b).zero(),
{
    reveal(Binary32::sum);
}

/// Adding a zero of either sign to a number without a sign changes nothing.
pub proof fn lemma_plus_zero(a: Binary32, b: Binary32)
    requires
        a.finite(),
        !a.negative(),
        b.zero(),
    ensures
        a.sum(b) == a,
        b.sum(a) == a || a.zero() && b.negative(),
        !b.negative() ==> b.sum(a) == a,
{
    reveal(Binary32::sum);
    if !a.zero() {
        rounding::lemma_magnitude_increases(0, a.code());
        rounding::lemma_nearest_exact(a.size(), 1, a.code());
    }
}

/// A finite number less itself is zero.
pub proof fn lemma_minus_itself(a: Binary32)
    requires
        a.finite(),
    ensures
        a.difference(a) == Binary32::nil(),
{
    reveal(Binary32::sum);
}

/// Dividing by one changes nothing.
pub proof fn lemma_over_one(a: Binary32)
    requires
        a.finite(),
    ensures
        a.quotient(Binary32::whole(1)) == a,
{
    reveal(Binary32::quotient);
    lemma_one();
    lemma_pow2_pos(149);
    rounding::lemma_nearest_exact(a.size() * pow2(149), pow2(149), a.code());
}

/// Taking away a product that is not above zero leaves a number that is not below
/// zero where it was not before.
pub proof fn lemma_minus_a_loss(before: Binary32, a: Binary32, b: Binary32)
    requires
        Binary32::nil().at_most(before),
        a.finite(),
        Binary32::nil().below(a),
        b.at_most(Binary32::nil()),
    ensures
        Binary32::nil().at_most(before.difference(a.product(b))),
{
    let loss = a.product(b);
    if b.zero() {
        lemma_times_a_zero(a, b);
    } else {
        reveal(Binary32::product);
        lemma_pow2_pos(149);
        if b.finite() {
            lemma_rounded(true, a.size() * b.size(), pow2(149));
        }
    }
    let gain = loss.opposite();
    assert(!gain.nan() && gain.key() >= 0);
    if before.finite() && gain.finite() {
        lemma_sum_not_below_zero(before, gain);
    } else {
        reveal(Binary32::sum);
    }
}

/// Lowering the exponent by two divides by four.
proof fn lemma_magnitude_over_four(code: int)
    requires
        code >= 0x180_0000,
    ensures
        magnitude_times(4, code - 0x100_0000) == rounding::magnitude(code),
{
    let e = (code / 0x80_0000 - 1) as nat;
    assert((code - 0x100_0000) / 0x80_0000 == code / 0x80_0000 - 2);
    assert((code - 0x100_0000) % 0x80_0000 == code % 0x80_0000);
    lemma_pow2_unfold(e);
    lemma_pow2_unfold((e - 1) as nat);
    let f = 0x80_0000 + code % 0x80_0000;
    let p = pow2((e - 2) as nat);
    assert(4 * (f * p) == f * (4 * p)) by (nonlinear_arith);
}

spec fn magnitude_times(factor: int, code: int) -> int {
    factor * rounding::magnitude(code)
}

/// A small number of quarters is exact.
pub proof fn lemma_quarters(k: nat)
    requires
        k < 0x100_0000,
    ensures
        Binary32::fraction(k, 4).finite(),
        !Binary32::fraction(k, 4).negative(),
        Binary32::fraction(k, 4).size() == k * pow2(147),
        k == 0 ==> Binary32::fraction(k, 4) == Binary32::nil(),
{
    let u = pow2(149);
    let q = pow2(147);
    lemma_pow2_unfold(149);
    lemma_pow2_unfold(148);
    lemma_whole_exact(k);
    lemma_rounded(false, k * u, 4);
    if k == 0 {
        assert(0 * u == 0);
        assert(0 * q == 0);
        rounding::lemma_nearest_exact(0, 4, 0);
    } else {
        let code = Binary32::whole(k).code();
        lemma_one();
        lemma_fraction_monotone(1, 1, k, 1);
        lemma_magnitude_over_four(code);
        let quarter = code - 0x100_0000;
        assert(k * u == 4 * (k * q)) by (nonlinear_arith)
            requires
                u == 4 * q,
        ;
        assert(rounding::magnitude(quarter) == k * q);
        rounding::lemma_nearest_exact(k * u, 4, quarter);
    }
}

/// Taking away minus four sixteenths adds a quarter.
pub proof fn lemma_one_quarter_more(k: nat)
    requires
        k < 0x100_0000 - 1,
    ensures
        Binary32::fraction(1, 16) == (Binary32 { bits: 0x3D80_0000 }),
        Binary32::fraction(k, 4).difference(
            Binary32::fraction(1, 16).product(Binary32::whole(4).opposite()),
        ) == Binary32::fraction(k + 1, 4),
{
    let u = pow2(149);
    let q = pow2(147);
    let part = Binary32::fraction(1, 16);
    let four = Binary32::whole(4);
    vstd::arithmetic::power2::lemma2_to64();
    lemma_pow2_unfold(149);
    lemma_pow2_unfold(148);
    lemma_pow2_unfold(147);
    lemma_pow2_unfold(146);
    lemma_pow2_pos(145);
    lemma_pow2_pos(149);
    lemma_pow2_adds(23, 122);
    lemma_pow2_adds(145, 4);
    rounding::lemma_magnitude_of_parts(0x80_0000, 122);
    assert(rounding::magnitude(0x3D80_0000) == pow2(145));
    assert(1 * u == pow2(145) * 16);
    rounding::lemma_nearest_exact(1 * u, 16, 0x3D80_0000);
    assert(part == (Binary32 { bits: 0x3D80_0000 }));
    lemma_whole_exact(4);
    lemma_quarters(k);
    lemma_quarters(k + 1);
    lemma_quarters(1);
    let quarter = Binary32::fraction(1, 4);
    assert(part.product(four.opposite()) == quarter.opposite()) by {
        reveal(Binary32::product);
        let n = part.size() * four.size();
        assert(n == quarter.size() * u) by (nonlinear_arith)
            requires
                n == part.size() * four.size(),
                4 * part.size() == quarter.size(),
                four.size() == 4 * u,
        ;
        rounding::lemma_nearest_exact(n, u, quarter.code());
    }
    assert((k + 1) * q == k * q + q) by (nonlinear_arith);
    lemma_pow2_pos(147);
    assert(k * q + q > 0) by (nonlinear_arith)
        requires
            q > 0,
    ;
    assert(quarter.opposite().opposite() == quarter);
    lemma_sum_exact(Binary32::fraction(k, 4), quarter, Binary32::fraction(k + 1, 4));
}

/// A rounded natural number is off by no more than one part in 2^24.
proof fn lemma_whole_is_close(n: nat)
    requires
        0 < n <= 0x1_0000_0000_0000_0000,
    ensures
        Binary32::whole(n).size() * 0xFF_FFFF <= (n * pow2(149)) * 0x100_0000,
        (n * pow2(149)) * 0x100_0000 <= Binary32::whole(n).size() * 0x100_0001,
        Binary32::whole(n).size() >= pow2(149),
{
    lemma_whole(n);
    lemma_one();
    lemma_fraction_monotone(1, 1, n, 1);
    lemma_rounded(false, n * pow2(149), 1);
    rounding::lemma_nearest_is_close(n * pow2(149), 1);
    lemma_order_is_by_units(Binary32::whole(1), Binary32::whole(n));
}

/// A share of natural numbers, each of them and the quotient rounded, is off by no
/// more than a few parts in 2^24.
pub proof fn lemma_share_is_close(c: nat, t: nat)
    requires
        c <= t,
        0 < t <= 0xFFFF_FFFF,
    ensures
        ({
            let share = Binary32::whole(c).quotient(Binary32::whole(t));
            let u = Binary32::units_in_one();
            &&& share.finite()
            &&& !share.negative()
            &&& (share.size() * t) * 0xFFFF_FE00_0001 <= (c * u) * 0x1_0000_0100_0000
            &&& (c * u) * 0xFFFF_FF00_0000 <= (share.size() * t) * 0x1_0000_0200_0001
        }),
{
    let u = pow2(149);
    let a = Binary32::whole(c);
    let b = Binary32::whole(t);
    let share = a.quotient(b);
    lemma_one();
    lemma_whole(c);
    lemma_whole(t);
    lemma_fraction_monotone(c, 1, t, 1);
    lemma_quotient_at_most_one(a, b);
    if c == 0 {
        lemma_zero_over(a, b);
        assert(0 * t == 0);
        assert(0 * u == 0);
    } else {
        reveal(Binary32::quotient);
        lemma_whole_is_close(c);
        lemma_whole_is_close(t);
        let n = a.size() * u;
        let d = b.size();
        lemma_rounded(false, n, d);
        lemma_pow2_adds(60, 89);
        lemma_pow2_pos(89);
        vstd::arithmetic::power2::lemma2_to64();
        vstd::arithmetic::power2::lemma2_to64_rest();
        assert(u >= 0x1000_0000_0000_0000) by (nonlinear_arith)
            requires
                u == 0x1000_0000_0000_0000 * pow2(89),
                pow2(89) > 0,
        ;
        assert(d <= 2 * (t * u));
        assert(0x80_0000 * d <= n * 1) by (nonlinear_arith)
            requires
                n == a.size() * u,
                a.size() >= u,
                d <= 2 * (t * u),
                t <= 0xFFFF_FFFF,
                u >= 0x1000_0000_0000_0000,
        {
            assert(t * u <= 0xFFFF_FFFF * u);
            assert(u * u <= a.size() * u);
            assert(0x1000_0000_0000_0000 * u <= u * u);
        }
        assert(rounding::magnitude(0x80_0000) == 0x80_0000) by {
            rounding::lemma_magnitude_of_parts(0x80_0000, 0);
        }
        rounding::lemma_nearest_exact(0x80_0000, 1, 0x80_0000);
        rounding::lemma_nearest_monotone(0x80_0000, 1, n, d);
        rounding::lemma_nearest_is_close(n, d);
        lemma_close_products(
            share.size() as int,
            a.size() as int,
            d as int,
            c as int,
            t as int,
            u as int,
        );
    }
}

/// Three estimates put together.
proof fn lemma_close_products(s: int, a: int, d: int, c: int, t: int, u: int)
    requires
        u > 0,
        s >= 0,
        a >= 0,
        d >= 0,
        c >= 0,
        t >= 0,
        (s * d) * 0xFF_FFFF <= (a * u) * 0x100_0000,
        (a * u) * 0x100_0000 <= (s * d) * 0x100_0001,
        a * 0xFF_FFFF <= (c * u) * 0x100_0000,
        (c * u) * 0x100_0000 <= a * 0x100_0001,
        d * 0xFF_FFFF <= (t * u) * 0x100_0000,
        (t * u) * 0x100_0000 <= d * 0x100_0001,
    ensures
        (s * t) * 0xFFFF_FE00_0001 <= (c * u) * 0x1_0000_0100_0000,
        (c * u) * 0xFFFF_FF00_0000 <= (s * t) * 0x1_0000_0200_0001,
{
    let k: int = 0x100_0000;
    // From below.
    assert(s * ((t * u) * k) <= s * (d * (k + 1))) by (nonlinear_arith)
        requires
            (t * u) * k <= d * (k + 1),
            s >= 0,
    ;
    assert((a * u) * (k - 1) <= ((c * u) * k) * u) by (nonlinear_arith)
        requires
            a * (k - 1) <= (c * u) * k,
            u > 0,
    ;
    assert(s * ((t * u) * k) == ((s * t) * k) * u) by (nonlinear_arith);
    assert(s * (d * (k + 1)) == (s * d) * (k + 1)) by (nonlinear_arith);
    let x = s * t;
    let y = c * u;
    let sd = s * d;
    let au = a * u;
    let xu = (x * k) * u;
    let yu = (y * k) * u;
    assert(xu <= sd * 0x100_0001);
    assert(sd * 0xFF_FFFF <= au * 0x100_0000);
    assert(au * 0xFF_FFFF <= yu);
    assert(xu * 0xFF_FFFF * 0xFF_FFFF <= yu * 0x100_0000 * 0x100_0001);
    assert(xu == (x * u) * 0x100_0000) by (nonlinear_arith)
        requires
            xu == (x * k) * u,
            k == 0x100_0000,
    ;
    assert(yu == (y * u) * 0x100_0000) by (nonlinear_arith)
        requires
            yu == (y * k) * u,
            k == 0x100_0000,
    ;
    assert((x * u) * 0xFFFF_FE00_0001 <= (y * u) * 0x1_0000_0100_0000);
    assert(x * 0xFFFF_FE00_0001 <= y * 0x1_0000_0100_0000) by (nonlinear_arith)
        requires
            (x * u) * 0xFFFF_FE00_0001 <= (y * u) * 0x1_0000_0100_0000,
            u > 0,
    ;
    // From above.
    assert(s * (d * (k - 1)) <= s * ((t * u) * k)) by (nonlinear_arith)
        requires
            d * (k - 1) <= (t * u) * k,
            s >= 0,
    ;
    assert(s * (d * (k - 1)) == sd * (k - 1)) by (nonlinear_arith)
        requires
            sd == s * d,
    ;
    assert(((c * u) * k) * u <= (a * u) * (k + 1)) by (nonlinear_arith)
        requires
            (c * u) * k <= a * (k + 1),
            u > 0,
    ;
    assert(yu <= au * 0x100_0001);
    assert(au * 0x100_0000 <= sd * 0x100_0001);
    assert(sd * 0xFF_FFFF <= xu);
    assert(yu * 0x100_0000 * 0xFF_FFFF <= xu * 0x100_0001 * 0x100_0001);
    assert((y * u) * 0xFFFF_FF00_0000 <= (x * u) * 0x1_0000_0200_0001);
    assert(y * 0xFFFF_FF00_0000 <= x * 0x1_0000_0200_0001) by (nonlinear_arith)
        requires
            (y * u) * 0xFFFF_FF00_0000 <= (x * u) * 0x1_0000_0200_0001,
            u > 0,
    ;
}

/// One eighth is exact.
pub proof fn lemma_eighth()
    ensures
        Binary32::fraction(1, 8) == (Binary32 { bits: 0x3E00_0000 }),
        8 * Binary32::fraction(1, 8).units() == Binary32::units_in_one(),
{
    vstd::arithmetic::power2::lemma2_to64();
    rounding::lemma_magnitude_of_parts(0x80_0000, 123);
    lemma_pow2_adds(23, 123);
    lemma_pow2_unfold(149);
    lemma_pow2_unfold(148);
    lemma_pow2_unfold(147);
    let u = pow2(149);
    assert(rounding::magnitude(0x3E00_0000) == pow2(146));
    assert(1 * u == pow2(146) * 8);
    rounding::lemma_nearest_exact(1 * u, 8, 0x3E00_0000);
}

/// A share of fewer than 2^24 rounds to a number above a quarter exactly where it is
/// above a quarter.
pub proof fn lemma_share_above_a_quarter(c: nat, t: nat)
    requires
        c <= t,
        0 < t < 0x100_0000,
    ensures
        Binary32::fraction(1, 4).below(Binary32::whole(c).quotient(Binary32::whole(t))) <==> 4 * c
            > t,
{
    reveal(Binary32::quotient);
    let u = pow2(149);
    let q = pow2(147);
    let a = Binary32::whole(c);
    let b = Binary32::whole(t);
    let quarter = Binary32::fraction(1, 4);
    lemma_pow2_unfold(149);
    lemma_pow2_unfold(148);
    lemma_pow2_pos(147);
    lemma_pow2_pos(149);
    lemma_whole_exact(c);
    lemma_whole_exact(t);
    lemma_whole(t);
    let n = a.size() * u;
    let d = b.size();
    lemma_rounded(false, n, d);
    vstd::arithmetic::power2::lemma2_to64();
    rounding::lemma_magnitude_of_parts(0x80_0000, 124);
    rounding::lemma_magnitude_of_parts(0x80_0001, 124);
    lemma_pow2_adds(23, 124);
    let half = pow2(123);
    lemma_pow2_unfold(124);
    lemma_pow2_pos(123);
    let code: int = 0x3E80_0000;
    assert(rounding::magnitude(0x3E80_0000) == q);
    assert(0x80_0001 * pow2(124) == 0x80_0000 * pow2(124) + pow2(124)) by (nonlinear_arith);
    assert(rounding::magnitude(0x3E80_0001) == q + 2 * half);
    assert(1 * u == q * 4);
    rounding::lemma_nearest_exact(1 * u, 4, code);
    rounding::lemma_nearest_exact(q, 1, code);
    assert(quarter.code() == code);
    assert(b.code() > 0);
    if 4 * c <= t {
        assert(n * 1 <= q * d) by (nonlinear_arith)
            requires
                n == (c * u) * u,
                d == t * u,
                u == 4 * q,
                4 * c <= t,
                q > 0,
        {
            assert(4 * (c * q) <= t * q);
            assert(c * u == 4 * (c * q));
            assert((c * u) * u <= (t * q) * u);
            assert((t * q) * u == q * (t * u));
        }
        rounding::lemma_nearest_monotone(n, d, q, 1);
    } else {
        let found = rounding::nearest(n, d);
        rounding::lemma_nearest_rounds(n, d);
        assert(q == half * 0x100_0000) by {
            lemma_pow2_adds(123, 24);
        }
        // Above the middle between a quarter and the next number.
        assert(2 * n > (2 * q + 2 * half) * d) by (nonlinear_arith)
            requires
                n == (c * u) * u,
                d == t * u,
                u == 4 * q,
                4 * c >= t + 1,
                q == half * 0x100_0000,
                t < 0x100_0000,
                half > 0,
        {
            assert(c * u == 4 * (c * q));
            assert(4 * (c * q) >= (t + 1) * q);
            assert((t + 1) * q == t * q + q);
            assert(t * half < 0x100_0000 * half);
            assert(c * u > t * q + t * half);
            assert((c * u) * u > (t * q + t * half) * u);
            assert((t * q + t * half) * u == (q + half) * (t * u));
        }
        if found <= code {
            if found < code {
                rounding::lemma_magnitude_increases(found, code);
                rounding::lemma_magnitude_increases(found + 1, code + 1);
            }
            let middle = rounding::magnitude(found) + rounding::magnitude(found + 1);
            assert(middle * d <= (2 * q + 2 * half) * d) by (nonlinear_arith)
                requires
                    middle <= 2 * q + 2 * half,
                    d >= 0,
            ;
        }
    }
}

/// Eight times a number up to one is exact, so its whole part is; above one it is at
/// least eight.
pub proof fn lemma_eight_times(h: Binary32, limit: nat)
    requires
        h.finite(),
        !h.negative(),
        limit >= 8,
    ensures
        ({
            let found = h.product(Binary32::whole(8)).truncated(limit);
            let eighths = 8 * h.size() / Binary32::units_in_one();
            &&& eighths < 8 ==> found == eighths
            &&& eighths >= 8 ==> found >= 8
        }),
{
    reveal(Binary32::product);
    reveal(Binary32::truncated);
    let u = pow2(149);
    let eight = Binary32::whole(8);
    lemma_pow2_pos(149);
    lemma_whole_exact(8);
    lemma_one();
    let n = h.size() * eight.size();
    let r = h.product(eight);
    lemma_rounded(false, n, u);
    assert(n == (8 * h.size()) * u) by (nonlinear_arith)
        requires
            n == h.size() * eight.size(),
            eight.size() == 8 * u,
    ;
    if h.size() >= u {
        assert((8 * u) * u <= n * 1) by (nonlinear_arith)
            requires
                n == (8 * h.size()) * u,
                h.size() >= u,
        ;
        rounding::lemma_nearest_monotone(8 * u, 1, n, u);
        lemma_rounded(false, 8 * u, 1);
        if !r.infinite() {
            lemma_order_is_by_units(eight, r);
            assert(r.size() / u >= 8) by (nonlinear_arith)
                requires
                    r.size() >= 8 * u,
                    u > 0,
            ;
        }
        assert((8 * h.size()) / u >= 8) by (nonlinear_arith)
            requires
                h.size() >= u,
                u > 0,
        ;
    } else {
        let code = h.code();
        lemma_order_is_by_units(h, Binary32::whole(1));
        if code >= 0x80_0000 {
            lemma_magnitude_times_eight(code);
            rounding::lemma_nearest_exact(n, u, code + 0x180_0000);
        } else {
            assert(rounding::magnitude(0x200_0000) == 0x400_0000) by {
                vstd::arithmetic::power2::lemma2_to64();
                rounding::lemma_magnitude_of_parts(0x80_0000, 3);
            }
            rounding::lemma_nearest_exact(0x400_0000, 1, 0x200_0000);
            assert(n * 1 <= 0x400_0000 * u) by (nonlinear_arith)
                requires
                    n == (8 * h.size()) * u,
                    h.size() < 0x80_0000,
                    u > 0,
            ;
            rounding::lemma_nearest_monotone(n, u, 0x400_0000, 1);
            if r.code() < 0x200_0000 {
                rounding::lemma_magnitude_increases(r.code(), 0x200_0000);
            }
            assert(r.size() <= 0x400_0000);
            lemma_pow2_adds(27, 122);
            lemma_pow2_pos(122);
            vstd::arithmetic::power2::lemma2_to64();
            assert(u >= 0x800_0000) by (nonlinear_arith)
                requires
                    u == 0x800_0000 * pow2(122),
                    pow2(122) > 0,
            ;
            assert(r.size() / u == 0) by (nonlinear_arith)
                requires
                    0 <= r.size() < u,
            ;
            assert((8 * h.size()) / u == 0) by (nonlinear_arith)
                requires
                    0 <= 8 * h.size() < u,
            ;
        }
    }
}

/// Raising the exponent by three multiplies by eight.
proof fn lemma_magnitude_times_eight(code: int)
    requires
        code >= 0x80_0000,
    ensures
        rounding::magnitude(code + 0x180_0000) == 8 * rounding::magnitude(code),
{
    let e = (code / 0x80_0000 - 1) as nat;
    assert((code + 0x180_0000) / 0x80_0000 == code / 0x80_0000 + 3);
    assert((code + 0x180_0000) % 0x80_0000 == code % 0x80_0000);
    lemma_pow2_unfold(e + 1);
    lemma_pow2_unfold(e + 2);
    lemma_pow2_unfold(e + 3);
    let f = 0x80_0000 + code % 0x80_0000;
    let p = pow2(e);
    assert(8 * (f * p) == f * (8 * p)) by (nonlinear_arith);
}

/// A sum is finite only where both of its terms are.
pub proof fn lemma_finite_sum(a: Binary32, b: Binary32)
    requires
        a.sum(b).finite(),
    ensures
        a.finite(),
        b.finite(),
{
    reveal(Binary32::sum);
}

/// A square has no sign.
pub proof fn lemma_square_has_no_sign(a: Binary32)
    ensures
        !a.product(a).negative(),
{
    reveal(Binary32::product);
    lemma_pow2_pos(149);
    lemma_rounded(false, a.size() * a.size(), pow2(149));
}

/// A finite sum of numbers without a sign is no smaller than either, and falls short
/// of the exact sum by no more than one part in 2^24.
pub proof fn lemma_sum_is_close(a: Binary32, b: Binary32)
    requires
        a.sum(b).finite(),
        !a.negative(),
        !b.negative(),
    ensures
        !a.sum(b).negative(),
        a.size() <= a.sum(b).size(),
        b.size() <= a.sum(b).size(),
        (a.size() + b.size()) * 0x100_0000 <= a.sum(b).size() * 0x100_0001,
{
    lemma_finite_sum(a, b);
    reveal(Binary32::sum);
    let s = a.sum(b);
    let total = a.size() + b.size();
    if total > 0 {
        lemma_rounded(false, total, 1);
        rounding::lemma_whole_units_are_close(total);
        rounding::lemma_nearest_exact(a.size(), 1, a.code());
        rounding::lemma_nearest_exact(b.size(), 1, b.code());
        rounding::lemma_nearest_monotone(a.size(), 1, total, 1);
        rounding::lemma_nearest_monotone(b.size(), 1, total, 1);
        lemma_order_is_by_units(a, s);
        lemma_order_is_by_units(b, s);
    }
}

/// The sizes of four fifths and of what is left of one.
pub proof fn lemma_fifth_sizes()
    ensures
        ({
            let ema = Binary32::fraction(80, 100);
            let rest = Binary32::whole(1).difference(ema);
            let u = Binary32::units_in_one();
            &&& ema.size() + rest.size() == u
            &&& 5 * rest.size() <= u
            &&& 6 * rest.size() >= u
        }),
{
    lemma_four_fifths();
    vstd::arithmetic::power2::lemma2_to64();
    rounding::lemma_magnitude_of_parts(0xCC_CCCD, 125);
    rounding::lemma_magnitude_of_parts(0xCC_CCCC, 123);
    lemma_pow2_adds(26, 123);
    lemma_pow2_unfold(125);
    lemma_pow2_unfold(124);
    let p = pow2(123);
    assert(rounding::magnitude(0x3F4C_CCCD) == 0xCC_CCCD * pow2(125));
    assert(rounding::magnitude(0x3E4C_CCCC) == 0xCC_CCCC * p);
    assert(0xCC_CCCD * pow2(125) == 0x333_3334 * p) by (nonlinear_arith)
        requires
            pow2(125) == 4 * p,
    ;
}

/// A product of two numbers up to one that are not tiny is off by no more than one
/// part in 2^24.
pub proof fn lemma_product_of_parts_is_close(a: Binary32, b: Binary32)
    requires
        a.finite(),
        b.finite(),
        !a.negative(),
        !b.negative(),
        a.size() <= Binary32::units_in_one(),
        b.size() <= Binary32::units_in_one(),
        Binary32::units_in_one() <= 6 * a.size(),
        Binary32::units_in_one() <= 6 * b.size(),
    ensures
        ({
            let u = Binary32::units_in_one();
            let r = a.product(b);
            &&& r.finite()
            &&& !r.negative()
            &&& r.size() <= u
            &&& r.code() >= 0x80_0000
            &&& (r.size() * u) * 0xFF_FFFF <= (a.size() * b.size()) * 0x100_0000
            &&& (a.size() * b.size()) * 0x100_0000 <= (r.size() * u) * 0x100_0001
        }),
{
    reveal(Binary32::product);
    let u = pow2(149);
    let r = a.product(b);
    let n = a.size() * b.size();
    lemma_pow2_pos(149);
    lemma_one();
    lemma_rounded(false, n, u);
    assert(n <= u * u) by (nonlinear_arith)
        requires
            n == a.size() * b.size(),
            a.size() <= u,
            b.size() <= u,
    ;
    assert(u * u <= 36 * n) by (nonlinear_arith)
        requires
            n == a.size() * b.size(),
            u <= 6 * a.size(),
            u <= 6 * b.size(),
    ;
    rounding::lemma_nearest_exact(u, 1, Binary32::whole(1).code());
    rounding::lemma_nearest_monotone(n, u, u, 1);
    assert(u >= 0x1000_0000_0000_0000) by {
        vstd::arithmetic::power2::lemma2_to64_rest();
        vstd::arithmetic::power2::lemma_pow2_strictly_increases(60, 149);
    }
    assert(0x80_0000 * u <= n * 1) by (nonlinear_arith)
        requires
            u * u <= 36 * n,
            u >= 0x1000_0000_0000_0000,
    {
        assert(0x1000_0000_0000_0000 * u <= u * u);
    }
    rounding::lemma_magnitude_of_parts(0x80_0000, 0);
    vstd::arithmetic::power2::lemma2_to64();
    rounding::lemma_nearest_exact(0x80_0000, 1, 0x80_0000);
    rounding::lemma_nearest_monotone(0x80_0000, 1, n, u);
    rounding::lemma_nearest_is_close(n, u);
    lemma_order_is_by_units(r, Binary32::whole(1));
}

/// A sum of two numbers up to one that are not tiny is off by no more than one part
/// in 2^24.
pub proof fn lemma_sum_of_parts_is_close(a: Binary32, b: Binary32)
    requires
        a.finite(),
        b.finite(),
        !a.negative(),
        !b.negative(),
        a.size() <= Binary32::units_in_one(),
        b.size() <= Binary32::units_in_one(),
        a.code() >= 0x80_0000,
    ensures
        ({
            let s = a.sum(b);
            &&& s.finite()
            &&& !s.negative()
            &&& s.size() * 0xFF_FFFF <= (a.size() + b.size()) * 0x100_0000
            &&& (a.size() + b.size()) * 0x100_0000 <= s.size() * 0x100_0001
        }),
{
    reveal(Binary32::sum);
    let u = pow2(149);
    let total = a.size() + b.size();
    rounding::lemma_magnitude_increases(0, a.code());
    lemma_whole_exact(2);
    lemma_rounded(false, total, 1);
    rounding::lemma_nearest_exact(2 * u, 1, Binary32::whole(2).code());
    rounding::lemma_nearest_monotone(total, 1, 2 * u, 1);
    rounding::lemma_nearest_exact(a.size(), 1, a.code());
    rounding::lemma_nearest_monotone(a.size(), 1, total, 1);
    rounding::lemma_nearest_is_close(total, 1);
}

/// The larger and the smaller of two numbers are the two numbers, in either order; where
/// one of them is no number, both are the other one.
pub proof fn law_larger_and_smaller(a: Binary32, b: Binary32)
    ensures
        !a.nan() && !b.nan() ==> {
            &&& a.at_most(a.larger(b)) && b.at_most(a.larger(b))
            &&& a.smaller(b).at_most(a) && a.smaller(b).at_most(b)
            &&& a.larger(b) == a || a.larger(b) == b
            &&& a.smaller(b) == a || a.smaller(b) == b
        },
        a.nan() ==> a.larger(b) == b && a.smaller(b) == b,
        b.nan() && !a.nan() ==> a.larger(b) == a && a.smaller(b) == a,
{
}

/// A number moved into a range lies in it, and stays where it is if it did before; what
/// is no number stays.
pub proof fn law_clamped_lies_in_the_range(a: Binary32, low: Binary32, high: Binary32)
    requires
        low.at_most(high),
    ensures
        a.nan() ==> a.clamped(low, high) == a,
        !a.nan() ==> low.at_most(a.clamped(low, high)) && a.clamped(low, high).at_most(high),
        low.at_most(a) && a.at_most(high) ==> a.clamped(low, high) == a,
        a.below(low) ==> a.clamped(low, high) == low,
        high.below(a) ==> a.clamped(low, high) == high,
{
}

/// The whole part of a number from zero to the limit is not above it, and the next
/// whole number is.
pub proof fn law_whole_part(a: Binary32, limit: nat)
    ensures
        a.truncated(limit) <= limit,
        a.nan() || a.negative() ==> a.truncated(limit) == 0,
        a.finite() && !a.negative() ==> a.truncated(limit) * Binary32::units_in_one() <= a.size(),
        a.truncated(limit) < limit && a.finite() && !a.negative() ==> a.size() < (a.truncated(limit)
            + 1) * Binary32::units_in_one(),
        a.infinite() && !a.negative() ==> a.truncated(limit) == limit,
{
    reveal(Binary32::truncated);
    let u = Binary32::units_in_one();
    lemma_pow2_pos(149);
    let n = a.size();
    let q = n / u;
    vstd::arithmetic::div_mod::lemma_fundamental_div_mod(n as int, u as int);
    vstd::arithmetic::div_mod::lemma_mod_bound(n as int, u as int);
    assert(q * u <= n < (q + 1) * u) by (nonlinear_arith)
        requires
            n == u * q + n % u,
            0 <= n % u < u,
    ;
    if a.finite() && !a.negative() {
        let t = a.truncated(limit);
        assert(t * u <= q * u) by (nonlinear_arith)
            requires
                t <= q,
        ;
    }
}

} // verus!
