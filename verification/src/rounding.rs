//! Rounding to the nearest binary32 number.
//!
//! The non-negative binary32 numbers, in increasing order, are numbered by their
//! bit patterns: a *code*. Every finite one is a whole multiple of the smallest
//! positive one, which is the unit in which this module counts.

use vstd::arithmetic::power2::{lemma_pow2_adds, lemma_pow2_pos, lemma_pow2_unfold, pow2};
use vstd::prelude::*;

verus! {

/// The code of positive infinity, one above the largest finite number.
pub const INFINITY_CODE: u32 = 0x7F80_0000;

/// The number with this code, counted in units. At the code of infinity this is
/// the value that would come next if the exponent went on, which is where
/// rounding overflows.
pub open spec fn magnitude(code: int) -> nat {
    if code < 0x80_0000 {
        code as nat
    } else {
        ((0x80_0000 + code % 0x80_0000) as nat) * pow2((code / 0x80_0000 - 1) as nat)
    }
}

/// Whether `n / d` units round to the number with this code: the nearest one,
/// and of two that are equally near the one whose code is even.
pub open spec fn rounds_to(n: nat, d: nat, code: int) -> bool {
    &&& 0 <= code <= INFINITY_CODE
    &&& code > 0 ==> {
        let middle = (magnitude(code - 1) + magnitude(code)) * d;
        middle < 2 * n || (middle == 2 * n && code % 2 == 0)
    }
    &&& code < INFINITY_CODE ==> {
        let middle = (magnitude(code) + magnitude(code + 1)) * d;
        2 * n < middle || (middle == 2 * n && code % 2 == 0)
    }
}

/// The code to which `n / d` units round.
pub open spec fn nearest(n: nat, d: nat) -> int {
    choose|code: int| rounds_to(n, d, code)
}

/// `rounds_to` on an exponent range without an upper end.
spec fn rounds_unbounded(n: nat, d: nat, code: int) -> bool {
    &&& 0 <= code
    &&& code > 0 ==> {
        let middle = (magnitude(code - 1) + magnitude(code)) * d;
        middle < 2 * n || (middle == 2 * n && code % 2 == 0)
    }
    &&& {
        let middle = (magnitude(code) + magnitude(code + 1)) * d;
        2 * n < middle || (middle == 2 * n && code % 2 == 0)
    }
}

proof fn lemma_magnitude_step(code: int)
    requires
        0 <= code,
    ensures
        magnitude(code) < magnitude(code + 1),
{
    broadcast use lemma_pow2_pos;

    lemma_pow2_zero();
    if code >= 0x80_0000 {
        let e = (code / 0x80_0000 - 1) as nat;
        let f = 0x80_0000 + code % 0x80_0000;
        if (code + 1) % 0x80_0000 == 0 {
            assert((code + 1) / 0x80_0000 == code / 0x80_0000 + 1);
            assert(code % 0x80_0000 == 0x7F_FFFF);
            lemma_pow2_unfold(e + 1);
            assert(((code + 1) / 0x80_0000 - 1) as nat == e + 1);
            assert(magnitude(code + 1) == 0x80_0000 * pow2(e + 1));
            assert(magnitude(code) == 0xFF_FFFF * pow2(e));
        } else {
            assert((code + 1) / 0x80_0000 == code / 0x80_0000);
            assert((code + 1) % 0x80_0000 == code % 0x80_0000 + 1);
            assert((f + 1) * pow2(e) == f * pow2(e) + pow2(e)) by (nonlinear_arith);
        }
    } else if code == 0x7F_FFFF {
        assert(magnitude(code + 1) == 0x80_0000 * pow2(0));
    }
}

proof fn lemma_pow2_zero()
    ensures
        pow2(0) == 1,
{
    vstd::arithmetic::power2::lemma2_to64();
}

/// A larger code stands for a larger number.
pub proof fn lemma_magnitude_increases(low: int, high: int)
    requires
        0 <= low < high,
    ensures
        magnitude(low) < magnitude(high),
    decreases high - low,
{
    if low + 1 < high {
        lemma_magnitude_increases(low, high - 1);
    }
    lemma_magnitude_step(high - 1);
}

/// A significand of 24 bits, or a shorter one at the lowest exponent, is read
/// off the code.
pub proof fn lemma_magnitude_of_parts(significand: int, exponent: nat)
    requires
        0 <= significand <= 0x100_0000,
        exponent > 0 ==> significand >= 0x80_0000,
    ensures
        magnitude(exponent * 0x80_0000 + significand) == significand * pow2(exponent),
{
    lemma_pow2_zero();
    let code = exponent * 0x80_0000 + significand;
    if significand == 0x100_0000 {
        assert(code / 0x80_0000 == exponent + 2);
        assert(code % 0x80_0000 == 0);
        lemma_pow2_unfold(exponent + 1);
        assert((code / 0x80_0000 - 1) as nat == exponent + 1);
        assert(magnitude(code) == 0x80_0000 * pow2(exponent + 1));
    } else if significand >= 0x80_0000 {
        assert(code / 0x80_0000 == exponent + 1);
        assert(code % 0x80_0000 == significand - 0x80_0000);
        assert((code / 0x80_0000 - 1) as nat == exponent);
    } else {
        assert(exponent == 0);
    }
}

/// Rounding keeps the order: a smaller quotient does not round to a larger code.
pub proof fn lemma_rounding_monotone(n1: nat, d1: nat, code1: int, n2: nat, d2: nat, code2: int)
    requires
        d1 > 0,
        d2 > 0,
        n1 * d2 <= n2 * d1,
        rounds_to(n1, d1, code1),
        rounds_to(n2, d2, code2),
    ensures
        code1 <= code2,
{
    if code2 < code1 {
        let under = magnitude(code1 - 1) + magnitude(code1);
        let above = magnitude(code2) + magnitude(code2 + 1);
        if code2 + 1 < code1 {
            lemma_magnitude_increases(code2, code1 - 1);
            lemma_magnitude_increases(code2 + 1, code1);
        }
        assert(above <= under);
        assert(under * d1 * d2 <= 2 * n1 * d2) by (nonlinear_arith)
            requires
                under * d1 <= 2 * n1,
        ;
        assert(2 * n1 * d2 <= 2 * n2 * d1) by (nonlinear_arith)
            requires
                n1 * d2 <= n2 * d1,
        ;
        assert(2 * n2 * d1 <= above * d2 * d1) by (nonlinear_arith)
            requires
                2 * n2 <= above * d2,
        ;
        assert(above * d2 * d1 == above * d1 * d2) by (nonlinear_arith);
        if under * d1 < 2 * n1 {
            assert(under * d1 * d2 < 2 * n1 * d2) by (nonlinear_arith)
                requires
                    under * d1 < 2 * n1,
                    d2 > 0,
            ;
        }
        if 2 * n2 < above * d2 {
            assert(2 * n2 * d1 < above * d2 * d1) by (nonlinear_arith)
                requires
                    2 * n2 < above * d2,
                    d1 > 0,
            ;
        }
        if above < under {
            assert(above * d1 * d2 < under * d1 * d2) by (nonlinear_arith)
                requires
                    above < under,
                    d1 > 0,
                    d2 > 0,
            ;
        }
    }
}

/// Rounding has one result only.
pub proof fn lemma_nearest_is(n: nat, d: nat, code: int)
    requires
        d > 0,
        rounds_to(n, d, code),
    ensures
        nearest(n, d) == code,
{
    let other = nearest(n, d);
    assert(rounds_to(n, d, other));
    lemma_rounding_monotone(n, d, code, n, d, other);
    lemma_rounding_monotone(n, d, other, n, d, code);
}

/// The largest code at or below `limit` whose number is at most `n / d` units.
proof fn lemma_floor_exists(n: nat, d: nat, limit: int) -> (code: int)
    requires
        d > 0,
        0 <= limit,
    ensures
        0 <= code <= limit,
        magnitude(code) * d <= n,
        code < limit ==> n < magnitude(code + 1) * d,
    decreases limit,
{
    if magnitude(limit) * d <= n {
        limit
    } else {
        if limit == 0 {
            assert(magnitude(0) * d == 0) by (nonlinear_arith)
                requires
                    magnitude(0) == 0,
            ;
            0
        } else {
            lemma_floor_exists(n, d, limit - 1)
        }
    }
}

/// Rounding has a result for every quotient.
pub proof fn lemma_nearest_rounds(n: nat, d: nat)
    requires
        d > 0,
    ensures
        rounds_to(n, d, nearest(n, d)),
{
    let top = INFINITY_CODE as int;
    let code = lemma_floor_exists(n, d, top);
    let here = magnitude(code);
    if code > 0 {
        lemma_magnitude_increases(code - 1, code);
        let below = magnitude(code - 1);
        assert((below + here) * d < 2 * (here * d)) by (nonlinear_arith)
            requires
                below < here,
                d > 0,
        ;
    }
    if code == top {
        assert(rounds_to(n, d, code));
    } else {
        lemma_magnitude_increases(code, code + 1);
        let next = magnitude(code + 1);
        let middle = (here + next) * d;
        if 2 * n < middle || (2 * n == middle && code % 2 == 0) {
            assert(rounds_to(n, d, code));
        } else {
            if code + 1 < top {
                lemma_magnitude_increases(code + 1, code + 2);
                let after = magnitude(code + 2);
                assert(2 * (next * d) < (next + after) * d) by (nonlinear_arith)
                    requires
                        next < after,
                        d > 0,
                ;
            }
            assert(rounds_to(n, d, code + 1));
        }
    }
}

/// Above the smallest numbers, rounding changes a quotient by no more than one part
/// in 2^24.
pub proof fn lemma_nearest_is_close(n: nat, d: nat)
    requires
        d > 0,
        0x80_0000 <= nearest(n, d) < INFINITY_CODE,
    ensures
        (magnitude(nearest(n, d)) * d) * 0xFF_FFFF <= n * 0x100_0000,
        n * 0x100_0000 <= (magnitude(nearest(n, d)) * d) * 0x100_0001,
{
    lemma_nearest_rounds(n, d);
    let code = nearest(n, d);
    let e = (code / 0x80_0000 - 1) as nat;
    let f = 0x80_0000 + code % 0x80_0000;
    let p = pow2(e);
    let m = magnitude(code);
    lemma_pow2_pos(e);
    lemma_pow2_zero();
    lemma_magnitude_of_parts(f, e);
    lemma_magnitude_of_parts(f + 1, e);
    assert(code == e * 0x80_0000 + f);
    assert((f + 1) * p == f * p + p) by (nonlinear_arith);
    assert((f - 1) * p == f * p - p) by (nonlinear_arith);
    let below = magnitude(code - 1);
    if f > 0x80_0000 {
        lemma_magnitude_of_parts(f - 1, e);
    } else if e > 0 {
        lemma_magnitude_of_parts(0xFF_FFFF, (e - 1) as nat);
        lemma_pow2_unfold(e);
        assert(code - 1 == (e - 1) * 0x80_0000 + 0xFF_FFFF);
        assert(m == 0x80_0000 * p);
    } else {
        lemma_magnitude_of_parts(0x7F_FFFF, 0);
    }
    assert(below >= m - p);
    assert(m >= 0x80_0000 * p) by (nonlinear_arith)
        requires
            m == f * p,
            f >= 0x80_0000,
    ;
    let next = magnitude(code + 1);
    assert((m * d) * 0xFF_FFFF <= n * 0x100_0000) by (nonlinear_arith)
        requires
            (below + m) * d <= 2 * n,
            below >= m - p,
            m >= 0x80_0000 * p,
            d > 0,
    {
        assert((2 * m - p) * d <= (below + m) * d);
        assert((0x80_0000 * p) * d <= m * d);
    }
    assert(n * 0x100_0000 <= (m * d) * 0x100_0001) by (nonlinear_arith)
        requires
            2 * n <= (m + next) * d,
            next == m + p,
            m >= 0x80_0000 * p,
            d > 0,
    {
        assert((m + next) * d == 2 * (m * d) + p * d);
        assert((0x80_0000 * p) * d <= m * d);
    }
}

/// Rounding goes up by no more than one part in 2^24 and one unit.
pub proof fn lemma_nearest_is_not_far_above(n: nat, d: nat)
    requires
        d > 0,
        nearest(n, d) < INFINITY_CODE,
    ensures
        (magnitude(nearest(n, d)) * d) * 0xFF_FFFF <= n * 0x100_0000 + d * 0xFF_FFFF,
{
    lemma_nearest_rounds(n, d);
    let code = nearest(n, d);
    if code >= 0x80_0000 {
        lemma_nearest_is_close(n, d);
    } else {
        let m = magnitude(code);
        assert(m * d <= n + d) by (nonlinear_arith)
            requires
                m == 0 || ((m - 1) + m) * d <= 2 * n,
                d > 0,
        ;
    }
}

/// A whole number of units rounds down by no more than one part in 2^24: among the
/// smallest numbers it is exact.
pub proof fn lemma_whole_units_are_close(n: nat)
    requires
        nearest(n, 1) < INFINITY_CODE,
    ensures
        n * 0x100_0000 <= magnitude(nearest(n, 1)) * 0x100_0001,
{
    lemma_nearest_rounds(n, 1);
    let code = nearest(n, 1);
    if code >= 0x80_0000 {
        lemma_nearest_is_close(n, 1);
    } else {
        lemma_pow2_zero();
        lemma_magnitude_of_parts(code + 1, 0);
    }
}

/// What is already a binary32 number rounds to itself.
pub proof fn lemma_nearest_exact(n: nat, d: nat, code: int)
    requires
        d > 0,
        0 <= code <= INFINITY_CODE,
        n == magnitude(code) * d,
    ensures
        nearest(n, d) == code,
{
    let here = magnitude(code);
    if code > 0 {
        lemma_magnitude_increases(code - 1, code);
        let below = magnitude(code - 1);
        assert((below + here) * d < 2 * (here * d)) by (nonlinear_arith)
            requires
                below < here,
                d > 0,
        ;
    }
    lemma_magnitude_increases(code, code + 1);
    let next = magnitude(code + 1);
    assert(2 * (here * d) < (here + next) * d) by (nonlinear_arith)
        requires
            here < next,
            d > 0,
    ;
    lemma_nearest_is(n, d, code);
}

/// `nearest` keeps the order of quotients.
pub proof fn lemma_nearest_monotone(n1: nat, d1: nat, n2: nat, d2: nat)
    requires
        d1 > 0,
        d2 > 0,
        n1 * d2 <= n2 * d1,
    ensures
        nearest(n1, d1) <= nearest(n2, d2),
{
    lemma_nearest_rounds(n1, d1);
    lemma_nearest_rounds(n2, d2);
    lemma_rounding_monotone(n1, d1, nearest(n1, d1), n2, d2, nearest(n2, d2));
}

/// The exponent by which `brackets` scales, so that no exponent is negative.
pub const SCALE: u32 = 300;

/// Whether `n / d` units lie at `significand * 2^(exponent - SCALE)`, or, where
/// the quotient is inexact, strictly between that and the next significand.
pub open spec fn brackets(significand: nat, exponent: nat, inexact: bool, n: nat, d: nat) -> bool {
    let scaled = n * pow2(SCALE as nat);
    let low = significand * (pow2(exponent) * d);
    if inexact {
        low < scaled < low + pow2(exponent) * d
    } else {
        scaled == low
    }
}

proof fn lemma_halve(significand: nat, exponent: nat, inexact: bool, n: nat, d: nat)
    requires
        d > 0,
        brackets(significand, exponent, inexact, n, d),
    ensures
        brackets(
            significand / 2,
            exponent + 1,
            inexact || significand % 2 == 1,
            n,
            d,
        ),
{
    lemma_pow2_unfold(exponent + 1);
    lemma_pow2_pos(exponent);
    let step = pow2(exponent) * d;
    let half = significand / 2;
    assert(step > 0) by (nonlinear_arith)
        requires
            step == pow2(exponent) * d,
            pow2(exponent) > 0,
            d > 0,
    ;
    assert(pow2(exponent + 1) * d == 2 * step) by (nonlinear_arith)
        requires
            pow2(exponent + 1) == 2 * pow2(exponent),
            step == pow2(exponent) * d,
    ;
    assert(half * (2 * step) == 2 * (half * step)) by (nonlinear_arith);
    if significand % 2 == 1 {
        assert(significand * step == 2 * (half * step) + step) by (nonlinear_arith)
            requires
                significand == 2 * half + 1,
        ;
    } else {
        assert(significand * step == 2 * (half * step)) by (nonlinear_arith)
            requires
                significand == 2 * half,
        ;
    }
}

proof fn lemma_double(significand: nat, exponent: nat, n: nat, d: nat)
    requires
        exponent > 0,
        brackets(significand, exponent, false, n, d),
    ensures
        brackets(2 * significand, (exponent - 1) as nat, false, n, d),
{
    lemma_pow2_unfold(exponent);
    let p = pow2((exponent - 1) as nat);
    assert((2 * significand) * (p * d) == significand * ((2 * p) * d)) by (nonlinear_arith);
}

proof fn lemma_zero_quotient(exponent: nat, n: nat, d: nat)
    requires
        d > 0,
        brackets(0, exponent, false, n, d),
    ensures
        nearest(n, d) == 0,
{
    let step = pow2(exponent) * d;
    lemma_pow2_pos(SCALE as nat);
    assert(0 * step == 0);
    let s = pow2(SCALE as nat);
    assert(n == 0) by (nonlinear_arith)
        requires
            n * s == 0,
            s > 0,
    ;
    assert(magnitude(0) * d == 0) by (nonlinear_arith)
        requires
            magnitude(0) == 0,
    ;
    lemma_nearest_exact(n, d, 0);
}

/// The cut-off of the exponent range turns rounding without an upper end into
/// rounding.
proof fn lemma_cut_off(n: nat, d: nat, code: int)
    requires
        d > 0,
        rounds_unbounded(n, d, code),
    ensures
        rounds_to(
            n,
            d,
            if code < INFINITY_CODE {
                code
            } else {
                INFINITY_CODE as int
            },
        ),
{
    let top = INFINITY_CODE as int;
    if code > top {
        lemma_magnitude_increases(top, code);
        lemma_magnitude_increases(top - 1, code - 1);
        let a = magnitude(top - 1) + magnitude(top);
        let b = magnitude(code - 1) + magnitude(code);
        assert(a * d < b * d) by (nonlinear_arith)
            requires
                a < b,
                d > 0,
        ;
    }
}

/// One guard bit and the inexact flag decide the rounding.
proof fn lemma_pack(significand: nat, exponent: nat, inexact: bool, n: nat, d: nat)
    requires
        d > 0,
        brackets(significand, exponent, inexact, n, d),
        exponent >= SCALE - 1,
        significand < 0x200_0000,
        exponent >= SCALE ==> significand >= 0x100_0000,
    ensures
        ({
            let kept = significand as int / 2;
            let up = significand % 2 == 1 && (inexact || kept % 2 == 1);
            rounds_unbounded(
                n,
                d,
                (exponent - SCALE + 1) * 0x80_0000 + kept + if up {
                    1int
                } else {
                    0int
                },
            )
        }),
{
    let t = (exponent - SCALE + 1) as nat;
    let kept = significand as int / 2;
    let up = significand % 2 == 1 && (inexact || kept % 2 == 1);
    let code = t * 0x80_0000 + kept + if up {
        1int
    } else {
        0int
    };
    let step = pow2(t) * d;
    lemma_pow2_pos(t);
    assert(step > 0) by (nonlinear_arith)
        requires
            step == pow2(t) * d,
            pow2(t) > 0,
            d > 0,
    ;
    // In units, `2 * n / d` lies at `significand * 2^t` or just above it.
    lemma_pow2_unfold(exponent + 1);
    lemma_pow2_adds(SCALE as nat, t);
    lemma_pow2_pos(SCALE as nat);
    let s = pow2(SCALE as nat);
    let p = pow2(exponent);
    assert(2 * p == s * pow2(t));
    assert(2 * (p * d) == s * step) by (nonlinear_arith)
        requires
            2 * p == s * pow2(t),
            step == pow2(t) * d,
    ;
    assert(2 * (significand * (p * d)) == s * (significand * step)) by (nonlinear_arith)
        requires
            2 * (p * d) == s * step,
    ;
    assert(2 * (n * s) == s * (2 * n)) by (nonlinear_arith);
    if inexact {
        assert(s * (significand * step) < s * (2 * n));
        assert(significand * step < 2 * n) by (nonlinear_arith)
            requires
                s * (significand * step) < s * (2 * n),
                s > 0,
        ;
        assert(s * (2 * n) < s * (significand * step + step)) by (nonlinear_arith)
            requires
                s * (2 * n) < s * (significand * step) + s * step,
        ;
        assert(2 * n < significand * step + step) by (nonlinear_arith)
            requires
                s * (2 * n) < s * (significand * step + step),
                s > 0,
        ;
    } else {
        assert(significand * step == 2 * n) by (nonlinear_arith)
            requires
                s * (significand * step) == s * (2 * n),
                s > 0,
        ;
    }
    // The numbers around the code.
    lemma_magnitude_of_parts(kept, t);
    lemma_magnitude_of_parts(kept + 1, t);
    let low = kept as nat * pow2(t);
    let base = t * 0x80_0000 + kept;
    assert(magnitude(base) == low);
    assert(magnitude(base + 1) == low + pow2(t)) by {
        assert((kept + 1) * pow2(t) == kept * pow2(t) + pow2(t)) by (nonlinear_arith);
    }
    assert(low * d == kept * step) by (nonlinear_arith)
        requires
            low == kept * pow2(t),
            step == pow2(t) * d,
    ;
    assert((magnitude(base) + magnitude(base + 1)) * d == 2 * (kept * step) + step) by (nonlinear_arith)
        requires
            magnitude(base) == low,
            magnitude(base + 1) == low + pow2(t),
            low * d == kept * step,
            step == pow2(t) * d,
    ;
    if significand % 2 == 1 {
        assert(significand * step == 2 * (kept * step) + step) by (nonlinear_arith)
            requires
                significand == 2 * kept + 1,
        ;
    } else {
        assert(significand * step == 2 * (kept * step)) by (nonlinear_arith)
            requires
                significand == 2 * kept,
        ;
    }
    if up {
        lemma_magnitude_step(base + 1);
        let here = magnitude(base + 1);
        let next = magnitude(base + 2);
        assert(2 * (here * d) < (here + next) * d) by (nonlinear_arith)
            requires
                here < next,
                d > 0,
        ;
        assert(here * d == kept * step + step) by (nonlinear_arith)
            requires
                here == low + pow2(t),
                low * d == kept * step,
                step == pow2(t) * d,
        ;
    } else if base > 0 {
        lemma_magnitude_step(base - 1);
        let here = magnitude(base);
        let below = magnitude(base - 1);
        assert((below + here) * d < 2 * (here * d)) by (nonlinear_arith)
            requires
                below < here,
                d > 0,
        ;
    }
}

/// A number below `2^128` can be halved at most 128 times before it is gone.
proof fn lemma_few_halvings(start: u128, now: u128, halvings: nat)
    requires
        now > 0,
        now * pow2(halvings) <= start,
    ensures
        halvings < 128,
{
    if halvings >= 128 {
        lemma_pow2_adds(128, (halvings - 128) as nat);
        lemma_pow2_adds(64, 64);
        vstd::arithmetic::power2::lemma2_to64_rest();
        lemma_pow2_pos((halvings - 128) as nat);
        let rest = pow2((halvings - 128) as nat);
        let p = pow2(halvings);
        assert(0x1_0000_0000_0000_0000 * 0x1_0000_0000_0000_0000
            == 0x1_0000_0000_0000_0000_0000_0000_0000_0000int) by (nonlinear_arith);
        assert(pow2(128) == 0x1_0000_0000_0000_0000_0000_0000_0000_0000int);
        assert(p >= pow2(128)) by (nonlinear_arith)
            requires
                p == pow2(128) * rest,
                rest >= 1,
        ;
        assert(now * p >= p) by (nonlinear_arith)
            requires
                now >= 1,
        ;
    }
}

/// The code to which `n / d` units round, from a significand and an exponent that
/// bracket the quotient.
pub(crate) fn pack(
    significand: u128,
    exponent: u32,
    inexact: bool,
    Ghost(n): Ghost<nat>,
    Ghost(d): Ghost<nat>,
) -> (code: u32)
    requires
        d > 0,
        brackets(significand as nat, exponent as nat, inexact, n, d),
        inexact ==> significand >= 0x100_0000,
        exponent <= 1000,
    ensures
        code == nearest(n, d),
        code <= INFINITY_CODE,
{
    let mut m: u128 = significand;
    let mut e: u32 = exponent;
    let mut lost: bool = inexact;
    proof {
        lemma_pow2_zero();
        assert(m * pow2(0) == m) by (nonlinear_arith)
            requires
                pow2(0) == 1,
        ;
    }
    while m >= 0x200_0000 || e < SCALE - 1
        invariant
            d > 0,
            brackets(m as nat, e as nat, lost, n, d),
            lost && e >= SCALE ==> m >= 0x100_0000,
            exponent <= e,
            exponent <= 1000,
            e > SCALE ==> e <= exponent + 128,
            m * pow2((e - exponent) as nat) <= significand,
        decreases m + SCALE - e,
    {
        let ghost k = (e - exponent) as nat;
        proof {
            lemma_halve(m as nat, e as nat, lost, n, d);
            if m > 0 {
                lemma_few_halvings(significand, m, k);
            }
            lemma_pow2_unfold(k + 1);
            let p = pow2(k);
            let h = m / 2;
            assert(h * (2 * p) <= m * p) by (nonlinear_arith)
                requires
                    2 * h <= m,
                    p >= 0,
            ;
        }
        lost = lost || m % 2 == 1;
        m = m / 2;
        e = e + 1;
    }
    while m > 0 && m < 0x100_0000 && e >= SCALE
        invariant
            d > 0,
            brackets(m as nat, e as nat, lost, n, d),
            lost && e >= SCALE ==> m >= 0x100_0000,
            m < 0x200_0000,
            SCALE - 1 <= e <= 1200,
        decreases e,
    {
        proof {
            lemma_double(m as nat, e as nat, n, d);
        }
        m = m * 2;
        e = e - 1;
    }
    if m == 0 && e >= SCALE {
        proof {
            lemma_zero_quotient(e as nat, n, d);
        }
        return 0;
    }
    let kept: u32 = (m / 2) as u32;
    let up: bool = m % 2 == 1 && (lost || kept % 2 == 1);
    let t: u32 = e - (SCALE - 1);
    proof {
        lemma_pack(m as nat, e as nat, lost, n, d);
    }
    let ghost code = t * 0x80_0000 + kept + if up {
        1int
    } else {
        0int
    };
    proof {
        lemma_cut_off(n, d, code);
    }
    if t >= 255 {
        proof {
            lemma_nearest_is(n, d, INFINITY_CODE as int);
        }
        return INFINITY_CODE;
    }
    let rounded: u32 = t * 0x80_0000 + kept + if up {
        1u32
    } else {
        0u32
    };
    if rounded >= INFINITY_CODE {
        proof {
            lemma_nearest_is(n, d, INFINITY_CODE as int);
        }
        INFINITY_CODE
    } else {
        proof {
            lemma_nearest_is(n, d, code);
        }
        rounded
    }
}

} // verus!
