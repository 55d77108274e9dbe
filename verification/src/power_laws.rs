//! What the power telemetry amounts to: degrees left, the share of the ceiling that is
//! drawn, and what a profile is scaled to.

use vstd::arithmetic::power2::{lemma_pow2_adds, lemma_pow2_pos, pow2};
use vstd::prelude::*;

use crate::ally_x_power;
use crate::ally_x_power::{AllyXPowerReader, PowerEvent, PowerTelemetrySample};
use crate::binary32::Binary32;
use crate::binary32_error;
use crate::binary32_laws;

verus! {

/// The headroom is what is left of the throttle temperature above the hotter of the
/// two dies, and nothing where a die is hotter than that.
pub proof fn law_headroom_is_to_the_hotter_die(sample: PowerTelemetrySample)
    requires
        sample.tj_max_c.finite(),
        sample.gpu_temp_c.finite(),
        sample.cpu_temp_c.finite(),
        sample.tj_max_c.size() <= pow2(200),
        sample.gpu_temp_c.size() <= pow2(200),
        sample.cpu_temp_c.size() <= pow2(200),
    ensures
        ({
            let hottest = if sample.gpu_temp_c.units() < sample.cpu_temp_c.units() {
                sample.cpu_temp_c.units()
            } else {
                sample.gpu_temp_c.units()
            };
            let left = sample.tj_max_c.units() - hottest;
            let headroom = sample.thermal_headroom_c_spec();
            &&& headroom.finite()
            &&& left <= 0 ==> headroom.units() == 0
            &&& left > 0 ==> 0xFF_FFFF * binary32_error::distance(headroom.units() - left) <= left
                + 0xFF_FFFF
        }),
{
    let g = sample.gpu_temp_c;
    let c = sample.cpu_temp_c;
    let hottest = g.larger(c);
    binary32_laws::lemma_order_is_by_units(g, c);
    binary32_laws::lemma_order_is_by_units(c, g);
    lemma_pow2_adds(1, 200);
    vstd::arithmetic::power2::lemma2_to64();
    vstd::arithmetic::power2::lemma_pow2_strictly_increases(201, 259);
    binary32_error::lemma_difference_error(sample.tj_max_c, hottest);
    let left = sample.tj_max_c.difference(hottest);
    binary32_laws::lemma_order_is_by_units(left, Binary32::nil());
    binary32_laws::lemma_order_is_by_units(Binary32::nil(), left);
    assert(Binary32::nil().units() == 0);
    if sample.tj_max_c.units() == hottest.units() {
        binary32_error::lemma_no_difference(sample.tj_max_c, hottest);
    }
}

/// The dispatch budget is the share of the ceiling that is drawn: nothing without a
/// ceiling or a draw, all of it from the ceiling on, and in between the draw over the
/// ceiling.
pub proof fn law_budget_is_the_share_of_the_ceiling(
    sample: PowerTelemetrySample,
    tdp_ceiling: Binary32,
)
    requires
        sample.actual_watts.finite(),
        tdp_ceiling.finite(),
        sample.actual_watts.size() <= pow2(200),
        tdp_ceiling.size() <= pow2(200),
        tdp_ceiling.units() > 0 ==> tdp_ceiling.units() >= pow2(100),
    ensures
        ({
            let u = Binary32::units_in_one();
            let watts = sample.actual_watts.units();
            let ceiling = tdp_ceiling.units();
            let budget = sample.dispatch_budget_spec(tdp_ceiling);
            &&& budget.finite()
            &&& ceiling <= 0 || watts <= 0 ==> budget.units() == 0
            &&& ceiling > 0 && watts >= ceiling ==> budget == Binary32::whole(1)
            &&& ceiling > 0 && 0 < watts < ceiling ==> 0xFF_FFFF * binary32_error::distance(
                budget.units() * ceiling - watts * u,
            ) <= watts * u + 0xFF_FFFF * ceiling
        }),
{
    let u = Binary32::units_in_one();
    let watts = sample.actual_watts;
    binary32_laws::lemma_one();
    lemma_pow2_pos(149);
    binary32_laws::lemma_order_is_by_units(tdp_ceiling, Binary32::nil());
    assert(Binary32::nil().units() == 0);
    if tdp_ceiling.units() > 0 {
        let w = watts.size() as int;
        let c = tdp_ceiling.units();
        let safe = binary32_error::safe_units() as int;
        lemma_pow2_pos(259);
        lemma_pow2_adds(200, 149);
        lemma_pow2_adds(259, 100);
        vstd::arithmetic::power2::lemma_pow2_strictly_increases(349, 359);
        assert(w * u <= safe * c) by (nonlinear_arith)
            requires
                0 <= w <= pow2(200),
                c >= pow2(100),
                u > 0,
                pow2(200) * u <= safe * pow2(100),
                safe > 0,
        {
            assert(w * u <= pow2(200) * u);
            assert(safe * pow2(100) <= safe * c);
        }
        binary32_error::lemma_quotient_error(watts, tdp_ceiling);
        let share = watts.quotient(tdp_ceiling);
        binary32_laws::lemma_order_is_by_units(watts, watts);
        binary32_laws::lemma_order_is_by_units(share, Binary32::nil());
        binary32_laws::lemma_order_is_by_units(Binary32::nil(), share);
        binary32_laws::lemma_order_is_by_units(share, Binary32::whole(1));
        binary32_laws::lemma_order_is_by_units(tdp_ceiling, watts);
        if watts.units() >= tdp_ceiling.units() {
            binary32_laws::lemma_quotient_at_least_one(watts, tdp_ceiling);
        } else if watts.units() > 0 {
            binary32_laws::lemma_quotient_at_most_one(watts, tdp_ceiling);
        } else if watts.units() == 0 {
            binary32_laws::lemma_zero_over(watts, tdp_ceiling);
        } else {
            assert(share.negative()) by {
                reveal(Binary32::quotient);
                crate::rounding::lemma_magnitude_increases(0, tdp_ceiling.code());
                binary32_laws::lemma_rounded(true, watts.size() * u, tdp_ceiling.size());
            }
        }
    }
}

/// Half and half of a budget.
proof fn lemma_factor(budget: Binary32)
    requires
        budget.finite(),
        0 <= budget.units() <= Binary32::units_in_one(),
    ensures
        ({
            let u = Binary32::units_in_one();
            let half = Binary32::fraction(1, 2);
            let factor = half.sum(half.product(budget));
            &&& factor.finite()
            &&& 0 <= factor.units() <= 2 * u
            &&& 0xFF_FFFF * binary32_error::distance(2 * factor.units() - u - budget.units()) <= 8
                * u
        }),
{
    let u = Binary32::units_in_one() as int;
    let half = Binary32::fraction(1, 2);
    let part = half.product(budget);
    let factor = half.sum(part);
    let b = budget.units();
    let h = half.units();
    binary32_laws::lemma_half();
    vstd::arithmetic::power2::lemma2_to64();
    lemma_pow2_adds(1, 148);
    lemma_pow2_adds(23, 125);
    lemma_pow2_pos(149);
    vstd::arithmetic::power2::lemma_pow2_strictly_increases(63, 149);
    lemma_pow2_adds(3, 149);
    vstd::arithmetic::power2::lemma_pow2_strictly_increases(152, 259);
    crate::rounding::lemma_magnitude_of_parts(0x80_0000, 125);
    assert(2 * h == u);
    let safe = binary32_error::safe_units() as int;
    assert(0 <= h * b <= safe * u) by (nonlinear_arith)
        requires
            2 * h == u,
            0 <= b <= u,
            u <= safe,
    {
        assert(h * b <= u * b);
        assert(u * b <= u * u);
        assert(u * u <= safe * u);
        assert(h * b >= 0);
    }
    binary32_error::lemma_product_error(half, budget);
    let p = part.units();
    let e = 2 * p - b;
    let pu = p * u;
    assert(2 * (pu - h * b) == e * u) by (nonlinear_arith)
        requires
            2 * h == u,
            e == 2 * p - b,
            pu == p * u,
    ;
    binary32_error::lemma_scaled_distance(e, u);
    let d = binary32_error::distance(e);
    let hb = h * b;
    assert(2 * hb == b * u) by (nonlinear_arith)
        requires
            2 * h == u,
            hb == h * b,
    ;
    let off = binary32_error::distance(pu - hb);
    assert(0xFF_FFFF * off <= hb + 0xFF_FFFF * u);
    assert(binary32_error::distance(e * u) == 2 * off);
    let du = d * u;
    let bu = b * u;
    assert(du == 2 * off);
    assert(bu == 2 * hb);
    assert(0xFF_FFFF * du <= bu + 0x1FF_FFFE * u);
    assert(0xFF_FFFF * d <= b + 0x1FF_FFFE) by (nonlinear_arith)
        requires
            0xFF_FFFF * du <= bu + 0x1FF_FFFE * u,
            du == d * u,
            bu == b * u,
            u > 0,
    {
        if 0xFF_FFFF * d > b + 0x1FF_FFFE {
            assert((0xFF_FFFF * d) * u > (b + 0x1FF_FFFE) * u);
        }
    }
    binary32_error::lemma_sum_error(half, part);
}

/// At a budget the dissipation is half of the base and that half again in proportion to
/// the budget; the backreaction is the base in proportion to the budget.
pub proof fn law_patch_scales_with_the_budget(lambda: Binary32, alpha: Binary32, budget: Binary32)
    requires
        lambda.finite(),
        alpha.finite(),
        budget.finite(),
        0 <= lambda.units() <= pow2(200),
        0 <= alpha.units() <= pow2(200),
        0 <= budget.units() <= Binary32::units_in_one(),
    ensures
        ({
            let u = Binary32::units_in_one();
            let b = budget.units();
            let scaled = ally_x_power::scaled_lambda(lambda, budget);
            let damped = ally_x_power::scaled_alpha(alpha, budget);
            &&& scaled.finite()
            &&& damped.finite()
            &&& 1000 * binary32_error::distance(2 * (scaled.units() * u) - lambda.units() * (u + b))
                <= lambda.units() * (u + b) + 2000 * u
            &&& 1000 * binary32_error::distance(damped.units() * u - alpha.units() * b)
                <= alpha.units() * b + 1000 * u
        }),
{
    let u = Binary32::units_in_one() as int;
    let b = budget.units();
    let half = Binary32::fraction(1, 2);
    let factor = half.sum(half.product(budget));
    let f = factor.units();
    let l = lambda.units();
    let a = alpha.units();
    let safe = binary32_error::safe_units() as int;
    lemma_factor(budget);
    lemma_pow2_pos(149);
    vstd::arithmetic::power2::lemma2_to64();
    lemma_pow2_adds(1, 200);
    vstd::arithmetic::power2::lemma_pow2_strictly_increases(201, 259);
    let top = pow2(200) as int;
    let lf = l * f;
    let ab = a * b;
    assert(0 <= lf <= safe * u) by (nonlinear_arith)
        requires
            lf == l * f,
            0 <= l <= top,
            0 <= f <= 2 * u,
            2 * top <= safe,
            u > 0,
    {
        assert(l * f <= l * (2 * u));
        assert((2 * l) * u <= safe * u);
    }
    assert(0 <= ab <= safe * u) by (nonlinear_arith)
        requires
            ab == a * b,
            0 <= a <= top,
            0 <= b <= u,
            2 * top <= safe,
            u > 0,
    {
        assert(a * b <= a * u);
        assert(a * u <= safe * u);
    }
    binary32_error::lemma_product_error(lambda, factor);
    binary32_error::lemma_product_error(alpha, budget);
    let e = 2 * f - u - b;
    lemma_scaled_error(l, e, u);
    let whole = l * (u + b);
    assert(2 * lf == whole + l * e) by (nonlinear_arith)
        requires
            lf == l * f,
            whole == l * (u + b),
            e == 2 * f - u - b,
    ;
    let lu = l * u;
    assert(0 <= lu <= whole) by (nonlinear_arith)
        requires
            lu == l * u,
            whole == l * (u + b),
            l >= 0,
            b >= 0,
            u >= 0,
    ;
}

/// An error, scaled.
proof fn lemma_scaled_error(l: int, e: int, u: int)
    requires
        l >= 0,
        0xFF_FFFF * binary32_error::distance(e) <= 8 * u,
    ensures
        0xFF_FFFF * binary32_error::distance(l * e) <= 8 * (l * u),
{
    let d = binary32_error::distance(e);
    assert(0xFF_FFFF * (l * d) <= 8 * (l * u)) by (nonlinear_arith)
        requires
            l >= 0,
            0xFF_FFFF * d <= 8 * u,
    {
        assert(l * (0xFF_FFFF * d) <= l * (8 * u));
    }
    assert(l * (-e) == -(l * e)) by (nonlinear_arith);
    assert(e >= 0 ==> l * e >= 0) by (nonlinear_arith)
        requires
            l >= 0,
    ;
    assert(e < 0 ==> l * e <= 0) by (nonlinear_arith)
        requires
            l >= 0,
    ;
}

/// Frame generation goes off under a budget of six tenths or a headroom of ten degrees.
/// It goes on above eight tenths and twenty degrees, off the battery.
pub proof fn law_frame_gen_follows_budget_and_headroom(event: PowerEvent)
    requires
        event.new_budget.finite(),
        event.thermal_headroom_c.finite(),
    ensures
        ({
            let u = Binary32::units_in_one();
            let b = event.new_budget.units();
            let left = event.thermal_headroom_c.units();
            let off = event.should_disable_frame_gen_spec();
            let on = event.should_enable_frame_gen_spec();
            &&& left < 10 * u ==> off
            &&& 10_000 * b < 5_999 * u ==> off
            &&& left >= 10 * u && 10_000 * b > 6_001 * u ==> !off
            &&& event.on_battery ==> !on
            &&& left <= 20 * u ==> !on
            &&& 10_000 * b < 7_999 * u ==> !on
            &&& left > 20 * u && 10_000 * b > 8_001 * u && !event.on_battery ==> on
        }),
{
    let b = event.new_budget;
    let left = event.thermal_headroom_c;
    binary32_error::lemma_fraction_error(6, 10);
    binary32_error::lemma_fraction_error(8, 10);
    binary32_laws::lemma_whole(10);
    binary32_laws::lemma_whole(20);
    binary32_laws::lemma_whole_exact(10);
    binary32_laws::lemma_whole_exact(20);
    binary32_laws::lemma_order_is_by_units(Binary32::fraction(6, 10), b);
    binary32_laws::lemma_order_is_by_units(Binary32::fraction(8, 10), b);
    binary32_laws::lemma_order_is_by_units(Binary32::whole(10), left);
    binary32_laws::lemma_order_is_by_units(left, Binary32::whole(20));
}

/// A reading carries the time it was asked for and the throttle temperature of the
/// reader; the rest of it is the same at every time.
pub proof fn law_readings_carry_the_time(reader: AllyXPowerReader, first: u64, second: u64)
    ensures
        reader.reading(first).timestamp_ns == first,
        reader.reading(first).tj_max_c == reader.throttle_temperature(),
        !reader.reading(first).on_battery,
        reader.reading(first) == (PowerTelemetrySample {
            timestamp_ns: first,
            ..reader.reading(second)
        }),
{
}

/// A reader polls once the frames without a reading, this one counted, reach the
/// interval, on every frame where there is no interval, and then starts anew.
pub proof fn law_polls_after_the_interval(waited: nat, interval: nat)
    ensures
        interval == 0 ==> ally_x_power::poll_is_due(waited, interval),
        interval > 0 ==> (ally_x_power::poll_is_due(waited, interval) <==> waited >= interval - 1),
        ally_x_power::poll_is_due(waited, interval) ==> ally_x_power::wait_after(waited, interval)
            == 0,
        !ally_x_power::poll_is_due(waited, interval) ==> ally_x_power::wait_after(waited, interval)
            == waited + 1,
{
}

} // verus!
