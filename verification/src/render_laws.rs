//! What resolution a frame asks for.
//!
//! The drop from native resolution is a weighted mean of two pressures, that of the
//! transition and that of the power budget, over the way down to the floor.

use vstd::arithmetic::power2::{lemma_pow2_adds, lemma_pow2_pos, pow2};
use vstd::prelude::*;

use crate::binary32::Binary32;
use crate::binary32_error;
use crate::binary32_laws;
use crate::genre_governor;
use crate::genre_governor::GenreMode;
use crate::render_budget;
use crate::rounding;

verus! {

/// The part of three thresholds that a rate fills, in units: all of them from three
/// thresholds on.
pub open spec fn filled(rate: Binary32, thresholds: int) -> int {
    if rate.infinite() || rate.size() >= thresholds {
        thresholds
    } else {
        rate.size() as int
    }
}

/// The scale that a frame asks for depends on the size of the divergence rate only: a
/// rate and its opposite ask for the same.
pub proof fn law_rising_and_falling_ask_for_the_same(
    rate: Binary32,
    lead_frames: u32,
    norm_variance: Binary32,
    dispatch_budget: Binary32,
    genre: GenreMode,
)
    ensures
        render_budget::target_scale_spec(
            rate,
            lead_frames,
            norm_variance,
            dispatch_budget,
            genre,
        ) == render_budget::target_scale_spec(
            rate.opposite(),
            lead_frames,
            norm_variance,
            dispatch_budget,
            genre,
        ),
{
    assert(rate.absolute() == rate.opposite().absolute());
}

/// Without two frames of lead, and for a shooter that moves fast, a frame asks for
/// native resolution.
pub proof fn law_native_without_lead(
    rate: Binary32,
    lead_frames: u32,
    norm_variance: Binary32,
    dispatch_budget: Binary32,
    genre: GenreMode,
)
    requires
        lead_frames < 2 || (genre.is_fps_spec() && Binary32::fraction(10, 100).below(
            norm_variance,
        )),
    ensures
        render_budget::target_scale_spec(
            rate,
            lead_frames,
            norm_variance,
            dispatch_budget,
            genre,
        ) == Binary32::whole(1),
{
}

/// A product of numbers up to two.
proof fn lemma_unit_product(a: Binary32, b: Binary32)
    requires
        a.finite(),
        b.finite(),
        !a.negative(),
        !b.negative(),
        a.units() <= 2 * Binary32::units_in_one(),
        b.units() <= 2 * Binary32::units_in_one(),
    ensures
        ({
            let u = Binary32::units_in_one();
            let r = a.product(b);
            &&& r.finite()
            &&& !r.negative()
            &&& 0x20_0000 * binary32_error::distance(r.units() * u - a.units() * b.units()) <= u * u
        }),
{
    let u = Binary32::units_in_one() as int;
    let n = a.units() * b.units();
    lemma_pow2_pos(149);
    lemma_one_is_large();
    binary32_laws::lemma_signs(a, b);
    assert(0 <= n <= 4 * (u * u)) by (nonlinear_arith)
        requires
            n == a.units() * b.units(),
            0 <= a.units() <= 2 * u,
            0 <= b.units() <= 2 * u,
    ;
    assert(4 * (u * u) <= binary32_error::safe_units() * u) by (nonlinear_arith)
        requires
            4 * u <= binary32_error::safe_units(),
            u > 0,
    ;
    binary32_error::lemma_product_error(a, b);
}

proof fn lemma_one_is_large()
    ensures
        Binary32::units_in_one() >= 0x1000_0000_0000_0000,
        8 * Binary32::units_in_one() <= binary32_error::safe_units(),
        0x1000_0000_0000_0000 * Binary32::units_in_one() <= Binary32::units_in_one()
            * Binary32::units_in_one(),
{
    let u = Binary32::units_in_one();
    vstd::arithmetic::power2::lemma2_to64();
    vstd::arithmetic::power2::lemma2_to64_rest();
    vstd::arithmetic::power2::lemma_pow2_strictly_increases(60, 149);
    lemma_pow2_adds(3, 149);
    vstd::arithmetic::power2::lemma_pow2_strictly_increases(152, 259);
    assert(0x1000_0000_0000_0000 * u <= u * u) by (nonlinear_arith)
        requires
            u >= 0x1000_0000_0000_0000,
    ;
}

/// A sum of numbers up to two.
proof fn lemma_unit_sum(a: Binary32, b: Binary32)
    requires
        a.finite(),
        b.finite(),
        !a.negative(),
        !b.negative(),
        a.units() <= 2 * Binary32::units_in_one(),
        b.units() <= 2 * Binary32::units_in_one(),
    ensures
        a.sum(b).finite(),
        !a.sum(b).negative(),
        0x20_0000 * binary32_error::distance(a.sum(b).units() - (a.units() + b.units()))
            <= Binary32::units_in_one(),
{
    lemma_one_is_large();
    binary32_laws::lemma_signs(a, b);
    binary32_error::lemma_sum_error(a, b);
}

/// What a number up to two leaves of one.
proof fn lemma_unit_rest(a: Binary32)
    requires
        a.finite(),
        !a.negative(),
        a.units() <= 2 * Binary32::units_in_one(),
    ensures
        ({
            let u = Binary32::units_in_one();
            let r = Binary32::whole(1).difference(a);
            &&& r.finite()
            &&& 0x20_0000 * binary32_error::distance(r.units() - (u - a.units())) <= u
            &&& r.negative() ==> r.key() < 0
        }),
{
    lemma_one_is_large();
    binary32_laws::lemma_one();
    binary32_laws::lemma_taken_from_one(a);
    binary32_error::lemma_difference_error(Binary32::whole(1), a);
}

/// The weights of the two pressures.
proof fn lemma_weights()
    ensures
        ({
            let u = Binary32::units_in_one();
            let seven = Binary32::fraction(70, 100);
            let three = Binary32::fraction(30, 100);
            &&& seven.finite() && !seven.negative() && seven.units() <= u
            &&& three.finite() && !three.negative() && three.units() <= u
            &&& 0x8_0000 * binary32_error::distance(100 * seven.units() - 70 * u) <= u
            &&& 0x8_0000 * binary32_error::distance(100 * three.units() - 30 * u) <= u
        }),
{
    vstd::arithmetic::power2::lemma2_to64();
    binary32_laws::lemma_fraction_bits(70, 100, 0xB3_3333, 125, 0x100_0000);
    binary32_laws::lemma_fraction_bits(30, 100, 0x99_999A, 124, 0x200_0000);
    rounding::lemma_magnitude_of_parts(0xB3_3333, 125);
    rounding::lemma_magnitude_of_parts(0x99_999A, 124);
    lemma_pow2_adds(25, 124);
    vstd::arithmetic::power2::lemma_pow2_unfold(125);
    lemma_pow2_pos(124);
    let p = pow2(124) as int;
    assert(Binary32::fraction(30, 100).units() == 0x99_999A * p);
    assert(Binary32::fraction(70, 100).units() == 0xB3_3333 * pow2(125));
    assert(0xB3_3333 * pow2(125) == 0x166_6666 * p) by (nonlinear_arith)
        requires
            pow2(125) == 2 * p,
    ;
    assert(Binary32::units_in_one() == 0x200_0000 * p);
}

/// The pressure of the transition, from zero to one.
proof fn lemma_transition(rate: Binary32, genre: GenreMode)
    requires
        !rate.nan(),
    ensures
        ({
            let u = Binary32::units_in_one();
            let thresholds = 3 * genre.divergence_threshold_spec().size() as int;
            let x = rate.absolute().quotient(
                genre.divergence_threshold_spec().product(Binary32::whole(3)),
            ).smaller(Binary32::whole(1));
            &&& x.finite()
            &&& !x.negative()
            &&& x.units() <= u
            &&& thresholds > 0
            &&& 0x4_0000 * binary32_error::distance(
                x.units() * thresholds - filled(rate, thresholds) * u,
            ) <= thresholds * u
        }),
{
    let u = Binary32::units_in_one() as int;
    let one = Binary32::whole(1);
    let threshold = genre.divergence_threshold_spec();
    let three = Binary32::whole(3);
    let range = threshold.product(three);
    let size = rate.absolute();
    let x0 = size.quotient(range);
    let x = x0.smaller(one);
    lemma_pow2_pos(149);
    lemma_one_is_large();
    genre_governor::lemma_table_bits();
    binary32_laws::lemma_one();
    binary32_laws::lemma_whole_exact(3);
    let th = threshold.size() as int;
    binary32_laws::lemma_order_is_by_units(threshold, one);
    // The threshold is well above the smallest numbers.
    let small = Binary32 { bits: 0x3D80_0000 };
    vstd::arithmetic::power2::lemma2_to64();
    rounding::lemma_magnitude_of_parts(0x80_0000, 122);
    lemma_pow2_adds(23, 122);
    lemma_pow2_adds(145, 4);
    binary32_laws::lemma_order_is_by_units(small, threshold);
    assert(small.units() == pow2(145));
    assert(u == 16 * pow2(145));
    assert(u <= 16 * th);
    // Three thresholds, rounded.
    assert(th * (3 * u) <= binary32_error::safe_units() * u) by (nonlinear_arith)
        requires
            3 * th <= binary32_error::safe_units(),
            u > 0,
    ;
    assert(th * (3 * u) >= 0) by (nonlinear_arith)
        requires
            th >= 0,
            u >= 0,
    ;
    binary32_error::lemma_product_error(threshold, three);
    binary32_laws::lemma_signs(threshold, three);
    let t3 = range.units();
    let e = t3 - 3 * th;
    assert(t3 * u - th * (3 * u) == e * u) by (nonlinear_arith)
        requires
            e == t3 - 3 * th,
    ;
    binary32_error::lemma_scaled_distance(e, u);
    let de = binary32_error::distance(e);
    assert(0xFF_FFFF * de <= 3 * th + 0xFF_FFFF) by (nonlinear_arith)
        requires
            0xFF_FFFF * (de * u) <= th * (3 * u) + 0xFF_FFFF * u,
            u > 0,
    ;
    let thresholds = 3 * th;
    assert(0x40_0000 * de <= thresholds);
    binary32_laws::lemma_order_is_by_units(range, Binary32::nil());
    if rate.finite() && rate.size() < 2 * thresholds {
        let rho = rate.size() as int;
        assert(size.units() == rho);
        assert(rho * u <= binary32_error::safe_units() * t3) by (nonlinear_arith)
            requires
                0 <= rho <= 4 * t3,
                8 * u <= binary32_error::safe_units(),
                t3 > 0,
                u > 0,
        {
            assert(rho * u <= (4 * t3) * u);
            assert((4 * t3) * u <= (8 * u) * t3);
            assert((8 * u) * t3 <= binary32_error::safe_units() * t3);
        }
        binary32_error::lemma_quotient_error(size, range);
        binary32_laws::lemma_signs(size, range);
        let q = x0.units();
        binary32_laws::lemma_order_is_by_units(x0, one);
        binary32_laws::lemma_order_is_by_units(one, x0);
        assert(x0.units() >= 0);
        // The rounded quotient times three thresholds.
        let qt = q * t3;
        let ru = rho * u;
        let tu = thresholds * u;
        assert(0 <= ru <= 2 * tu) by (nonlinear_arith)
            requires
                ru == rho * u,
                tu == thresholds * u,
                0 <= rho <= 2 * thresholds,
                u > 0,
        ;
        assert(t3 <= 2 * thresholds);
        assert(0x1000_0000_0000_0000 * thresholds <= tu) by (nonlinear_arith)
            requires
                tu == thresholds * u,
                u >= 0x1000_0000_0000_0000,
                thresholds >= 0,
        ;
        assert(qt <= 3 * tu);
        assert(q <= 4 * u) by (nonlinear_arith)
            requires
                q * t3 <= 3 * (thresholds * u),
                4 * t3 >= 3 * thresholds,
                t3 > 0,
                thresholds > 0,
                u > 0,
        {
            assert(3 * (thresholds * u) <= (4 * t3) * u);
        }
        assert(q * thresholds == qt - q * e) by (nonlinear_arith)
            requires
                qt == q * t3,
                e == t3 - thresholds,
        ;
        let qe = q * e;
        assert(0x10_0000 * binary32_error::distance(qe) <= tu) by (nonlinear_arith)
            requires
                qe == q * e,
                0 <= q <= 4 * u,
                0x40_0000 * de <= thresholds,
                de == binary32_error::distance(e),
                tu == thresholds * u,
                u > 0,
        {
            assert(binary32_error::distance(qe) <= q * de);
            assert(q * de <= (4 * u) * de);
            assert((4 * u) * (0x40_0000 * de) <= (4 * u) * thresholds);
        }
        let qth = q * thresholds;
        assert(0x8_0000 * binary32_error::distance(qth - ru) <= tu);
        assert(filled(rate, thresholds) * u == if rho >= thresholds {
            tu
        } else {
            ru
        });
        assert(rho >= thresholds ==> ru >= tu) by (nonlinear_arith)
            requires
                ru == rho * u,
                tu == thresholds * u,
                u > 0,
        ;
        assert(rho < thresholds ==> ru <= tu) by (nonlinear_arith)
            requires
                ru == rho * u,
                tu == thresholds * u,
                u > 0,
        ;
        if one.below(x0) {
            assert(u * thresholds == tu) by (nonlinear_arith)
                requires
                    tu == thresholds * u,
            ;
            assert(qth >= tu) by (nonlinear_arith)
                requires
                    qth == q * thresholds,
                    q >= u,
                    tu == thresholds * u,
                    thresholds > 0,
            ;
        } else {
            assert(qth <= tu) by (nonlinear_arith)
                requires
                    qth == q * thresholds,
                    q <= u,
                    tu == thresholds * u,
                    thresholds > 0,
            ;
        }
    } else {
        assert(one.at_most(x0)) by {
            if rate.finite() {
                binary32_laws::lemma_order_is_by_units(range, size);
                binary32_laws::lemma_quotient_at_least_one(size, range);
            } else {
                reveal(Binary32::quotient);
            }
        }
        assert(x.key() == one.key());
        assert(x == one) by {
            if !one.below(x0) {
                binary32_laws::lemma_signs(size, range);
            }
        }
        assert(u * thresholds == thresholds * u) by (nonlinear_arith);
    }
}

/// The drop, from the two pressures.
proof fn lemma_drop(x: Binary32, dispatch_budget: Binary32, genre: GenreMode)
    requires
        x.finite(),
        !x.negative(),
        x.units() <= Binary32::units_in_one(),
        dispatch_budget.finite(),
        !dispatch_budget.negative(),
        dispatch_budget.units() <= Binary32::units_in_one(),
    ensures
        ({
            let u = Binary32::units_in_one();
            let one = Binary32::whole(1);
            let floor = genre.resolution_floor_spec();
            let thermal = one.difference(dispatch_budget).clamped(Binary32::nil(), one);
            let combined = x.product(Binary32::fraction(70, 100)).sum(
                thermal.product(Binary32::fraction(30, 100)),
            );
            let target = one.difference(combined.product(one.difference(floor))).larger(floor);
            let pressure = 70 * x.units() + 30 * (u - dispatch_budget.units());
            &&& target.finite()
            &&& floor.finite()
            &&& 0x800 * binary32_error::distance(
                100 * (u * (u - target.units())) - pressure * (u - floor.units()),
            ) <= u * u
        }),
{
    let u = Binary32::units_in_one() as int;
    let uu = u * u;
    let one = Binary32::whole(1);
    let floor = genre.resolution_floor_spec();
    let seven = Binary32::fraction(70, 100);
    let three = Binary32::fraction(30, 100);
    lemma_pow2_pos(149);
    lemma_one_is_large();
    lemma_weights();
    binary32_laws::lemma_one();
    genre_governor::lemma_table_bits();
    genre_governor::law_resolution_floor_range(genre);
    binary32_laws::lemma_half();
    binary32_laws::lemma_order_is_by_units(floor, one);
    let f = floor.units();
    assert(0 <= f <= u);
    // The power budget.
    lemma_unit_rest(dispatch_budget);
    let w0 = one.difference(dispatch_budget);
    let thermal = w0.clamped(Binary32::nil(), one);
    binary32_laws::lemma_order_is_by_units(w0, one);
    binary32_laws::lemma_order_is_by_units(one, w0);
    binary32_laws::lemma_order_is_by_units(w0, Binary32::nil());
    binary32_laws::lemma_order_is_by_units(Binary32::nil(), w0);
    assert(Binary32::nil().units() == 0);
    let tau = u - dispatch_budget.units();
    let t = thermal.units();
    assert(!thermal.negative());
    assert(0 <= t <= u);
    assert(0x20_0000 * binary32_error::distance(t - tau) <= u);
    // The weighted pressures.
    let xs = x.units();
    lemma_unit_product(x, seven);
    lemma_unit_product(thermal, three);
    let a = x.product(seven);
    let b = thermal.product(three);
    lemma_weighted(xs, seven.units(), a.units(), 70, u);
    lemma_weighted(t, three.units(), b.units(), 30, u);
    assert(a.units() >= 0 && b.units() >= 0);
    lemma_unit_sum(a, b);
    let combined = a.sum(b);
    let c = combined.units();
    let pressure = 70 * xs + 30 * tau;
    assert(0x1000 * binary32_error::distance(100 * c - pressure) <= u);
    assert(0 <= c <= 2 * u);
    // The drop.
    lemma_unit_rest(floor);
    let rest = one.difference(floor);
    binary32_laws::lemma_floor_leaves_something(floor);
    let r = rest.units();
    binary32_laws::lemma_taken_from_one(floor);
    binary32_laws::lemma_order_is_by_units(rest, one);
    assert(0 <= r <= u);
    lemma_unit_product(combined, rest);
    let drop = combined.product(rest);
    let d = drop.units();
    let du = d * u;
    let g = u - f;
    let cr = c * r;
    let pg = pressure * g;
    assert(0xC00 * binary32_error::distance(100 * cr - pg) <= uu) by {
        let e1 = 100 * c - pressure;
        let e2 = r - g;
        assert(100 * cr - pg == e1 * r + pressure * e2) by (nonlinear_arith)
            requires
                cr == c * r,
                pg == pressure * g,
                e1 == 100 * c - pressure,
                e2 == r - g,
        ;
        let e1r = e1 * r;
        let pe2 = pressure * e2;
        assert(0x1000 * binary32_error::distance(e1r) <= uu) by (nonlinear_arith)
            requires
                e1r == e1 * r,
                0x1000 * binary32_error::distance(e1) <= u,
                0 <= r <= u,
                uu == u * u,
                u > 0,
        {
            assert(binary32_error::distance(e1r) <= binary32_error::distance(e1) * r);
            assert((0x1000 * binary32_error::distance(e1)) * r <= u * r);
        }
        assert(0x20_0000 * binary32_error::distance(pe2) <= 100 * uu) by (nonlinear_arith)
            requires
                pe2 == pressure * e2,
                0x20_0000 * binary32_error::distance(e2) <= u,
                0 <= pressure <= 100 * u,
                uu == u * u,
                u > 0,
        {
            assert(binary32_error::distance(pe2) <= pressure * binary32_error::distance(e2));
            assert(pressure * (0x20_0000 * binary32_error::distance(e2)) <= pressure * u);
        }
    }
    assert(0 <= pg <= 100 * (u * g)) by (nonlinear_arith)
        requires
            pg == pressure * g,
            0 <= pressure <= 100 * u,
            g >= 0,
    ;
    assert(u * g <= uu) by (nonlinear_arith)
        requires
            g <= u,
            uu == u * u,
            u > 0,
    ;
    assert(d <= 2 * u) by (nonlinear_arith)
        requires
            d * u <= 2 * (u * u),
            u > 0,
    ;
    lemma_unit_rest(drop);
    let left = one.difference(drop);
    let target = left.larger(floor);
    binary32_laws::lemma_order_is_by_units(left, floor);
    binary32_laws::lemma_order_is_by_units(floor, left);
    let l = left.units();
    let e = l - (u - d);
    let eu = e * u;
    assert(0x20_0000 * binary32_error::distance(eu) <= uu) by {
        binary32_error::lemma_scaled_distance(e, u);
        let de = binary32_error::distance(e);
        assert(0x20_0000 * (de * u) <= uu) by (nonlinear_arith)
            requires
                0x20_0000 * de <= u,
                uu == u * u,
                u > 0,
        ;
    }
    assert(u * (u - l) == du - eu) by (nonlinear_arith)
        requires
            e == l - (u - d),
            eu == e * u,
            du == d * u,
    ;
    if left.below(floor) {
        assert(u * (u - f) <= u * (u - l)) by (nonlinear_arith)
            requires
                l <= f,
                u > 0,
        ;
    }
}

/// A weight of so many hundredths, rounded, times a number up to one.
proof fn lemma_weighted(x: int, weight: int, product: int, hundredths: int, u: int)
    requires
        u > 0,
        0 <= x <= u,
        0 <= hundredths <= 100,
        0x8_0000 * binary32_error::distance(100 * weight - hundredths * u) <= u,
        0x20_0000 * binary32_error::distance(product * u - x * weight) <= u * u,
    ensures
        0x4000 * binary32_error::distance(100 * product - hundredths * x) <= u,
{
    let e = 100 * weight - hundredths * u;
    let xe = x * e;
    let pu = product * u;
    let xw = x * weight;
    let uu = u * u;
    assert(100 * xw == (hundredths * x) * u + xe) by (nonlinear_arith)
        requires
            xw == x * weight,
            xe == x * e,
            e == 100 * weight - hundredths * u,
    ;
    assert(0x8_0000 * binary32_error::distance(xe) <= uu) by (nonlinear_arith)
        requires
            xe == x * e,
            0 <= x <= u,
            0x8_0000 * binary32_error::distance(e) <= u,
            uu == u * u,
            u > 0,
    {
        assert(binary32_error::distance(xe) <= x * binary32_error::distance(e));
        assert(x * (0x8_0000 * binary32_error::distance(e)) <= u * u);
    }
    let d = 100 * product - hundredths * x;
    assert(d * u == 100 * pu - (hundredths * x) * u) by (nonlinear_arith)
        requires
            d == 100 * product - hundredths * x,
            pu == product * u,
    ;
    binary32_error::lemma_scaled_distance(d, u);
    let dd = binary32_error::distance(d);
    assert(0x4000 * (dd * u) <= uu);
    assert(0x4000 * dd <= u) by (nonlinear_arith)
        requires
            0x4000 * (dd * u) <= uu,
            uu == u * u,
            u > 0,
    ;
}

/// With at least two frames of lead, and but for a shooter that moves fast, the drop
/// that a frame asks for is seven tenths of the part of three thresholds that the
/// divergence rate fills, and three tenths of the power budget that is used up, of the
/// way from native resolution to the floor, but for one part in ten thousand. At three
/// thresholds and full power budget that is `0.7 * (1 - floor)`.
pub proof fn law_drop_is_the_weighted_pressure(
    rate: Binary32,
    lead_frames: u32,
    norm_variance: Binary32,
    dispatch_budget: Binary32,
    genre: GenreMode,
)
    requires
        !rate.nan(),
        lead_frames >= 2,
        !(genre.is_fps_spec() && Binary32::fraction(10, 100).below(norm_variance)),
        dispatch_budget.finite(),
        !dispatch_budget.negative(),
        dispatch_budget.units() <= Binary32::units_in_one(),
    ensures
        ({
            let u = Binary32::units_in_one();
            let thresholds = 3 * genre.divergence_threshold_spec().size() as int;
            let target = render_budget::target_scale_spec(
                rate,
                lead_frames,
                norm_variance,
                dispatch_budget,
                genre,
            );
            let floor = genre.resolution_floor_spec();
            let pressure = 70 * (filled(rate, thresholds) * u) + 30 * ((u
                - dispatch_budget.units()) * thresholds);
            &&& target.finite()
            &&& thresholds > 0
            &&& 100 * binary32_error::distance(
                100 * ((u * (u - target.units())) * thresholds) - pressure * (u - floor.units()),
            ) <= thresholds * (u * u)
        }),
{
    let u = Binary32::units_in_one() as int;
    let uu = u * u;
    let one = Binary32::whole(1);
    let thresholds = 3 * genre.divergence_threshold_spec().size() as int;
    let floor = genre.resolution_floor_spec();
    let x = rate.absolute().quotient(
        genre.divergence_threshold_spec().product(Binary32::whole(3)),
    ).smaller(one);
    let target = render_budget::target_scale_spec(
        rate,
        lead_frames,
        norm_variance,
        dispatch_budget,
        genre,
    );
    lemma_pow2_pos(149);
    lemma_transition(rate, genre);
    lemma_drop(x, dispatch_budget, genre);
    binary32_laws::lemma_one();
    genre_governor::lemma_table_bits();
    genre_governor::law_resolution_floor_range(genre);
    binary32_laws::lemma_half();
    binary32_laws::lemma_order_is_by_units(floor, one);
    let g = u - floor.units();
    let tau = u - dispatch_budget.units();
    let fu = filled(rate, thresholds) * u;
    let xs = x.units();
    let a = 100 * (u * (u - target.units()));
    let p = 70 * xs + 30 * tau;
    let e = a - p * g;
    let et = e * thresholds;
    assert(0x800 * binary32_error::distance(et) <= thresholds * uu) by {
        binary32_error::lemma_scaled_distance(e, thresholds);
        let de = binary32_error::distance(e);
        assert(0x800 * (de * thresholds) <= thresholds * uu) by (nonlinear_arith)
            requires
                0x800 * de <= uu,
                thresholds > 0,
        ;
    }
    let h = xs * thresholds - fu;
    let hg = h * g;
    let tt = thresholds * u;
    assert(0x4_0000 * binary32_error::distance(hg) <= thresholds * uu) by (nonlinear_arith)
        requires
            hg == h * g,
            0x4_0000 * binary32_error::distance(h) <= thresholds * u,
            0 <= g <= u,
            uu == u * u,
            u > 0,
            thresholds > 0,
    {
        assert(binary32_error::distance(hg) <= binary32_error::distance(h) * g);
        assert((0x4_0000 * binary32_error::distance(h)) * g <= (thresholds * u) * g);
        assert((thresholds * u) * g <= (thresholds * u) * u);
        assert((thresholds * u) * u == thresholds * (u * u));
    }
    let pressure = 70 * fu + 30 * (tau * thresholds);
    assert(p * thresholds == pressure + 70 * h) by (nonlinear_arith)
        requires
            p == 70 * xs + 30 * tau,
            pressure == 70 * fu + 30 * (tau * thresholds),
            h == xs * thresholds - fu,
    ;
    assert(et == a * thresholds - (p * thresholds) * g) by (nonlinear_arith)
        requires
            et == e * thresholds,
            e == a - p * g,
    ;
    assert((p * thresholds) * g == pressure * g + 70 * hg) by (nonlinear_arith)
        requires
            p * thresholds == pressure + 70 * h,
            hg == h * g,
    ;
    assert(a * thresholds == 100 * ((u * (u - target.units())) * thresholds)) by (nonlinear_arith)
        requires
            a == 100 * (u * (u - target.units())),
    ;
    assert(thresholds * uu >= 0) by (nonlinear_arith)
        requires
            thresholds > 0,
            uu == u * u,
    ;
}

/// A frame is skipped exactly where the one before it was not, the scene hardly moves,
/// no transition peaks within three frames and the entropy is not high, and where the
/// game is no competitive shooter.
pub proof fn law_calm_frames_are_skipped(
    skips: u32,
    norm_variance: Binary32,
    lead_frames: u32,
    h_normalized: Binary32,
    genre: GenreMode,
)
    requires
        norm_variance.finite(),
        h_normalized.finite(),
    ensures
        ({
            let u = Binary32::units_in_one();
            let v = norm_variance.units();
            let h = h_normalized.units();
            let skip = render_budget::may_skip(
                skips,
                norm_variance,
                lead_frames,
                h_normalized,
                genre,
            );
            &&& skips > 0 ==> !skip
            &&& genre == GenreMode::FpsCompetitive ==> !skip
            &&& lead_frames == 1 || lead_frames == 2 || lead_frames == 3 ==> !skip
            &&& 10_000 * v > 501 * u ==> !skip
            &&& 10_000 * h > 7_001 * u ==> !skip
            &&& skips == 0 && genre != GenreMode::FpsCompetitive && (lead_frames == 0 || lead_frames
                > 3) && 10_000 * v < 499 * u && 10_000 * h < 6_999 * u ==> skip
        }),
{
    binary32_error::lemma_fraction_error(5, 100);
    binary32_error::lemma_fraction_error(70, 100);
    binary32_laws::lemma_order_is_by_units(Binary32::fraction(5, 100), norm_variance);
    binary32_laws::lemma_order_is_by_units(norm_variance, Binary32::fraction(5, 100));
    binary32_laws::lemma_order_is_by_units(Binary32::fraction(70, 100), h_normalized);
    binary32_laws::lemma_order_is_by_units(h_normalized, Binary32::fraction(70, 100));
}

/// A power budget above one asks for the same as one, and a budget below zero for the
/// same as none.
pub proof fn law_budget_counts_from_zero_to_one(
    rate: Binary32,
    lead_frames: u32,
    norm_variance: Binary32,
    dispatch_budget: Binary32,
    genre: GenreMode,
)
    ensures
        ({
            let target = render_budget::target_scale_spec(
                rate,
                lead_frames,
                norm_variance,
                dispatch_budget,
                genre,
            );
            &&& Binary32::whole(1).at_most(dispatch_budget) ==> target
                == render_budget::target_scale_spec(
                rate,
                lead_frames,
                norm_variance,
                Binary32::whole(1),
                genre,
            )
            &&& dispatch_budget.at_most(Binary32::nil()) ==> target
                == render_budget::target_scale_spec(
                rate,
                lead_frames,
                norm_variance,
                Binary32::nil(),
                genre,
            )
        }),
{
    let one = Binary32::whole(1);
    let b = dispatch_budget;
    let rest = one.difference(b);
    binary32_laws::lemma_one();
    binary32_laws::lemma_nothing_left();
    binary32_laws::lemma_whole_exact(1);
    lemma_pow2_pos(149);
    reveal(Binary32::sum);
    let total = one.units() - b.units();
    if one.at_most(b) && b.finite() && b != one {
        binary32_laws::lemma_order_is_by_units(b, one);
        binary32_laws::lemma_order_is_by_units(one, b);
        assert(b.opposite().units() == -b.units());
        binary32_laws::lemma_rounded(true, (-total) as nat, 1);
        assert(rest.negative());
        rounding::lemma_nearest_exact(1, 1, 1);
        rounding::lemma_nearest_monotone(1, 1, (-total) as nat, 1);
        assert(rest.below(Binary32::nil()));
    }
    if b.at_most(Binary32::nil()) && b.finite() {
        binary32_laws::lemma_order_is_by_units(b, Binary32::nil());
        assert(b.opposite().units() == -b.units());
        assert(Binary32::nil().opposite().units() == 0);
        binary32_laws::lemma_rounded(false, total as nat, 1);
        binary32_laws::lemma_rounded(false, one.size(), 1);
        rounding::lemma_nearest_exact(one.size(), 1, one.code());
        rounding::lemma_nearest_monotone(one.size(), 1, total as nat, 1);
        assert(one.difference(Binary32::nil()) == one);
    }
}

/// A rate that is no number asks for what an endless one asks for.
pub proof fn law_unknown_rates_ask_for_the_most(
    rate: Binary32,
    lead_frames: u32,
    norm_variance: Binary32,
    dispatch_budget: Binary32,
    genre: GenreMode,
)
    requires
        rate.nan(),
    ensures
        render_budget::target_scale_spec(
            rate,
            lead_frames,
            norm_variance,
            dispatch_budget,
            genre,
        ) == render_budget::target_scale_spec(
            Binary32::signed(false, 0x7F80_0000),
            lead_frames,
            norm_variance,
            dispatch_budget,
            genre,
        ),
{
    let range = genre.divergence_threshold_spec().product(Binary32::whole(3));
    let endless = Binary32::signed(false, 0x7F80_0000);
    reveal(Binary32::quotient);
    binary32_laws::lemma_one();
    genre_governor::lemma_table_bits();
    binary32_laws::lemma_whole(3);
    binary32_laws::lemma_product_monotone(
        genre.divergence_threshold_spec(),
        Binary32::whole(3),
        Binary32::whole(1),
        Binary32::whole(3),
    );
    binary32_laws::lemma_times_one(Binary32::whole(3));
    binary32_laws::lemma_signs(genre.divergence_threshold_spec(), Binary32::whole(3));
    assert(range.finite() && !range.negative());
    assert(endless.absolute().quotient(range).smaller(Binary32::whole(1)) == Binary32::whole(1));
    assert(rate.absolute().quotient(range).smaller(Binary32::whole(1)) == Binary32::whole(1));
}

} // verus!
