//! How the confidence of a frame falls from one to zero as the divergence grows.

use vstd::arithmetic::power2::{lemma_pow2_adds, lemma_pow2_pos, pow2};
use vstd::prelude::*;

use crate::afmf2_bridge;
use crate::afmf2_bridge::Afmf2Signal;
use crate::binary32::Binary32;
use crate::binary32_error;
use crate::binary32_laws;

verus! {

/// The bound of a product, from the bounds of its factors.
proof fn lemma_bounded_product(x: int, y: int, a: int, c: int)
    requires
        binary32_error::distance(x) <= a,
        binary32_error::distance(y) <= c,
    ensures
        binary32_error::distance(x * y) <= a * c,
{
    let p = binary32_error::distance(x);
    let q = binary32_error::distance(y);
    assert(p * q <= a * c) by (nonlinear_arith)
        requires
            0 <= p <= a,
            0 <= q <= c,
    ;
    binary32_error::lemma_signed_product(p, q);
    assert(p * q >= 0) by (nonlinear_arith)
        requires
            p >= 0,
            q >= 0,
    ;
}

/// A quotient of rounded numbers, against the quotient of the exact ones.
proof fn lemma_part_of_the_range(x: int, range: int, y: int, over: int, t: int, u: int)
    requires
        t >= 0x100_0000,
        u >= 0x100_0000,
        0 < over < 3 * t,
        y >= 0,
        x >= 0,
        0xFF_FFFF * binary32_error::distance(x - over) <= 4 * t,
        0xFF_FFFF * binary32_error::distance(range - 3 * t) <= 4 * t,
        0xFF_FFFF * binary32_error::distance(y * range - x * u) <= x * u + 0xFF_FFFF * range,
    ensures
        y <= 2 * u,
        0xFF_FFFF * binary32_error::distance(3 * (t * y) - over * u) <= 24 * (t * u),
{
    let tu = t * u;
    let yr = y * range;
    let xu = x * u;
    assert(0 <= xu <= 4 * tu) by (nonlinear_arith)
        requires
            xu == x * u,
            tu == t * u,
            0 <= x <= 4 * t,
            u > 0,
    {
        assert(x * u <= (4 * t) * u);
    }
    assert(0xFF_FFFF * range <= 4 * tu) by (nonlinear_arith)
        requires
            0 <= range <= 4 * t,
            tu == t * u,
            u >= 0x100_0000,
            t >= 0,
    {
        assert(4 * (t * u) >= 4 * (t * 0x100_0000));
    }
    assert(tu > 0) by (nonlinear_arith)
        requires
            tu == t * u,
            t > 0,
            u > 0,
    ;
    assert(xu <= over * u + 4 * tu) by (nonlinear_arith)
        requires
            xu == x * u,
            tu == t * u,
            x <= over + 4 * t,
            u > 0,
    {
        assert(x * u <= (over + 4 * t) * u);
    }
    // The quotient stays below two.
    assert(3 * tu >= over * u) by (nonlinear_arith)
        requires
            over < 3 * t,
            tu == t * u,
            u > 0,
    ;
    let xe = x - over;
    let xeu = xe * u;
    lemma_bounded_product(0xFF_FFFF * xe, u, 4 * t, u);
    assert((0xFF_FFFF * xe) * u == 0xFF_FFFF * xeu) by (nonlinear_arith)
        requires
            xeu == xe * u,
    ;
    assert((4 * t) * u == 4 * tu) by (nonlinear_arith)
        requires
            tu == t * u,
    ;
    assert(xu == over * u + xeu) by (nonlinear_arith)
        requires
            xu == x * u,
            xe == x - over,
            xeu == xe * u,
    ;
    assert(yr < 4 * tu);
    assert(y <= 2 * u) by (nonlinear_arith)
        requires
            yr == y * range,
            yr < 4 * tu,
            tu == t * u,
            range >= 2 * t,
            t > 0,
            y >= 0,
            u > 0,
    {
        if y > 2 * u {
            assert(y * range >= y * (2 * t));
            assert(y * (2 * t) >= (2 * u) * (2 * t));
        }
    }
    let re = range - 3 * t;
    lemma_bounded_product(y, 0xFF_FFFF * re, 2 * u, 4 * t);
    let yre = y * re;
    assert(y * (0xFF_FFFF * re) == 0xFF_FFFF * yre) by (nonlinear_arith)
        requires
            yre == y * re,
    ;
    assert((2 * u) * (4 * t) == 8 * tu) by (nonlinear_arith)
        requires
            tu == t * u,
    ;
    assert(yr == 3 * (t * y) + yre) by (nonlinear_arith)
        requires
            yr == y * range,
            yre == y * re,
            re == range - 3 * t,
    ;
}

/// Between one and four thresholds the confidence of a scene that moves falls evenly
/// from one to zero: what it lacks to one is the excess over the threshold, in parts of
/// three thresholds. Rounding takes a thousandth at most.
pub proof fn law_confidence_falls_evenly(
    rate: Binary32,
    threshold: Binary32,
    h_normalized: Binary32,
    norm_variance: Binary32,
)
    requires
        rate.finite(),
        threshold.finite(),
        pow2(100) <= threshold.units() <= pow2(200),
        threshold.units() < rate.size() < 4 * threshold.units(),
        !(norm_variance.below(Binary32::fraction(2, 100)) && h_normalized.below(
            Binary32::fraction(30, 100),
        )),
    ensures
        ({
            let u = Binary32::units_in_one();
            let t = threshold.units();
            let c = afmf2_bridge::confidence(rate, threshold, h_normalized, norm_variance);
            &&& c.finite()
            &&& 0 <= c.units() <= u
            &&& 1000 * binary32_error::distance(3 * (t * (u - c.units())) - (rate.size() - t) * u)
                <= 3 * (t * u)
        }),
{
    let u = Binary32::units_in_one() as int;
    let t = threshold.units();
    let size = rate.absolute();
    let s = size.units();
    let one = Binary32::whole(1);
    let three = Binary32::whole(3);
    let safe = binary32_error::safe_units() as int;
    vstd::arithmetic::power2::lemma2_to64();
    vstd::arithmetic::power2::lemma_pow2_strictly_increases(24, 100);
    vstd::arithmetic::power2::lemma_pow2_strictly_increases(24, 149);
    lemma_pow2_adds(3, 200);
    vstd::arithmetic::power2::lemma_pow2_strictly_increases(203, 259);
    lemma_pow2_adds(3, 149);
    vstd::arithmetic::power2::lemma_pow2_strictly_increases(152, 259);
    lemma_pow2_pos(149);
    binary32_laws::lemma_one();
    binary32_laws::lemma_whole(1);
    binary32_laws::lemma_whole_exact(1);
    binary32_laws::lemma_whole(3);
    binary32_laws::lemma_whole_exact(3);
    assert(three.units() == 3 * u);
    assert(one.units() == u);
    assert(s == rate.size());
    binary32_laws::lemma_order_is_by_units(size, threshold);
    // The excess and the range.
    binary32_error::lemma_difference_error(size, threshold);
    let excess = size.difference(threshold);
    let x = excess.units();
    assert(0 <= t * (3 * u) <= safe * u) by (nonlinear_arith)
        requires
            0 <= 8 * t <= safe,
            u > 0,
    {
        assert(t * (3 * u) == (3 * t) * u);
        assert((3 * t) * u <= safe * u);
    }
    binary32_error::lemma_product_error(threshold, three);
    let range = threshold.product(three);
    let r = range.units();
    let re = r - 3 * t;
    let ru = r * u;
    assert(ru - t * (3 * u) == re * u) by (nonlinear_arith)
        requires
            ru == r * u,
            re == r - 3 * t,
    ;
    binary32_error::lemma_scaled_distance(re, u);
    let d = binary32_error::distance(re);
    let t3u = t * (3 * u);
    assert(0xFF_FFFF * d <= 4 * t) by (nonlinear_arith)
        requires
            0xFF_FFFF * (d * u) <= t3u + 0xFF_FFFF * u,
            t3u == t * (3 * u),
            t >= 0x100_0000,
            u > 0,
    {
        if 0xFF_FFFF * d > 4 * t {
            assert((0xFF_FFFF * d) * u > (4 * t) * u);
            assert((3 * t + 0xFF_FFFF) * u <= (4 * t) * u);
        }
    }
    assert(x >= 0);
    binary32_laws::lemma_order_is_by_units(range, range);
    assert(x * u <= safe * r) by (nonlinear_arith)
        requires
            x <= 4 * t,
            r >= 2 * t,
            8 * u <= safe,
            t > 0,
            u > 0,
    {
        assert(x * u <= (4 * t) * u);
        assert(safe * r >= (8 * u) * r);
        assert((8 * u) * r >= (8 * u) * (2 * t));
    }
    binary32_error::lemma_quotient_error(excess, range);
    let part = excess.quotient(range);
    let y = part.units();
    assert(y >= 0) by {
        binary32_laws::lemma_order_is_by_units(excess, excess);
        assert(!range.negative());
        if !excess.negative() {
            binary32_laws::lemma_signs(excess, range);
        } else {
            assert(x == 0);
            binary32_laws::lemma_zero_over(excess, range);
            binary32_laws::lemma_order_is_by_units(part, part);
        }
    }
    lemma_part_of_the_range(x, r, y, s - t, t, u);
    // What is left of one.
    binary32_error::lemma_difference_error(one, part);
    let raw = one.difference(part);
    let c = raw.units();
    let lost = u - y - c;
    assert(0xFF_FFFF * binary32_error::distance(lost) <= 2 * u);
    lemma_bounded_product(3 * t, 0xFF_FFFF * lost, 3 * t, 2 * u);
    let tl = t * lost;
    let tu = t * u;
    let ty = t * y;
    assert((3 * t) * (0xFF_FFFF * lost) == 0xFF_FFFF * (3 * tl)) by (nonlinear_arith)
        requires
            tl == t * lost,
    ;
    assert((3 * t) * (2 * u) == 6 * tu) by (nonlinear_arith)
        requires
            tu == t * u,
    ;
    let tc = t * (u - c);
    assert(tc == ty + tl) by (nonlinear_arith)
        requires
            tc == t * (u - c),
            ty == t * y,
            tl == t * lost,
            lost == u - y - c,
    ;
    let ou = (s - t) * u;
    assert(0xFF_FFFF * binary32_error::distance(3 * tc - ou) <= 30 * tu);
    assert(0 <= ou <= 3 * tu) by (nonlinear_arith)
        requires
            ou == (s - t) * u,
            tu == t * u,
            t < s < 4 * t,
            u > 0,
    ;
    // Moved into the range.
    binary32_laws::lemma_order_is_by_units(raw, Binary32::nil());
    binary32_laws::lemma_order_is_by_units(raw, one);
    binary32_laws::lemma_order_is_by_units(one, raw);
    assert(Binary32::nil().units() == 0);
    let r2 = afmf2_bridge::confidence(rate, threshold, h_normalized, norm_variance);
    if c < 0 {
        assert(r2.units() == 0);
        assert(tc >= tu) by (nonlinear_arith)
            requires
                tc == t * (u - c),
                tu == t * u,
                c < 0,
                t > 0,
        ;
        assert(t * (u - 0) == tu);
    } else if c > u {
        assert(r2.units() == u);
        assert(tc <= 0) by (nonlinear_arith)
            requires
                tc == t * (u - c),
                c > u,
                t > 0,
        ;
        assert(t * (u - u) == 0) by (nonlinear_arith);
    } else {
        assert(r2.units() == c);
    }
}

/// On a scene with hardly any variance and little entropy the confidence is that of any
/// other scene at the same rate, or 0.85 where that is more.
pub proof fn law_still_scenes_have_a_floor(
    rate: Binary32,
    threshold: Binary32,
    h_normalized: Binary32,
    norm_variance: Binary32,
    other_h: Binary32,
    other_variance: Binary32,
)
    requires
        norm_variance.below(Binary32::fraction(2, 100)),
        h_normalized.below(Binary32::fraction(30, 100)),
        !other_variance.below(Binary32::fraction(2, 100)) || !other_h.below(
            Binary32::fraction(30, 100),
        ),
    ensures
        ({
            let still = afmf2_bridge::confidence(rate, threshold, h_normalized, norm_variance);
            let other = afmf2_bridge::confidence(rate, threshold, other_h, other_variance);
            let floor = Binary32::fraction(85, 100);
            &&& other.below(floor) ==> still == floor
            &&& !other.below(floor) ==> still == other
        }),
{
    vstd::arithmetic::power2::lemma2_to64();
    binary32_laws::lemma_one();
    binary32_laws::lemma_fraction_bits(85, 100, 0xD9_999A, 125, 0x100_0000);
}

/// A frame is a reference where the one before it did not ghost and its confidence is
/// above a half; it is interpolated from freely above eight tenths.
pub proof fn law_reference_needs_half_the_confidence(signal: Afmf2Signal)
    requires
        signal.confidence_scalar.finite(),
    ensures
        ({
            let u = Binary32::units_in_one();
            let c = signal.confidence_scalar.units();
            let mode = signal.suggested_mode_spec();
            &&& signal.prior_frame_ghosted || 2 * c <= u ==> !signal.reference_frame_ok_spec()
                && mode == "disabled"@
            &&& !signal.prior_frame_ghosted && 2 * c > u ==> signal.reference_frame_ok_spec()
            &&& !signal.prior_frame_ghosted && 10_000 * c > 8_001 * u ==> mode == "interpolate"@
            &&& !signal.prior_frame_ghosted && 2 * c > u && 10_000 * c < 7_999 * u ==> mode
                == "reduce_confidence"@
        }),
{
    let c = signal.confidence_scalar;
    let u = Binary32::units_in_one() as int;
    lemma_pow2_pos(149);
    binary32_laws::lemma_half();
    binary32_laws::lemma_same_fraction(1, 2, 50, 100);
    vstd::arithmetic::power2::lemma2_to64();
    lemma_pow2_adds(1, 148);
    lemma_pow2_adds(23, 125);
    crate::rounding::lemma_magnitude_of_parts(0x80_0000, 125);
    assert(2 * Binary32::fraction(50, 100).units() == u);
    binary32_error::lemma_fraction_error(80, 100);
    binary32_laws::lemma_order_is_by_units(Binary32::fraction(50, 100), c);
    binary32_laws::lemma_order_is_by_units(c, Binary32::fraction(50, 100));
    binary32_laws::lemma_order_is_by_units(Binary32::fraction(80, 100), c);
    binary32_laws::lemma_order_is_by_units(c, Binary32::fraction(80, 100));
}

} // verus!
