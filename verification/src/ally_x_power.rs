//! Power and thermal telemetry, and what it does to the wattage profile.
//!
//! The dispatch budget is the share of the power ceiling that is drawn. The
//! dissipation of the profile scales with `0.5 + 0.5 * budget`, so it is halved at
//! most and never goes to zero; the backreaction scales with the budget itself.
//! The time step is never scaled: it belongs to the frame rate.

use vstd::prelude::*;

use crate::binary32::Binary32;
use crate::binary32_laws;
use crate::genre_governor::WattageProfile;

verus! {

/// One reading of the hardware.
#[derive(Clone, Copy, Debug)]
pub struct PowerTelemetrySample {
    /// Power drawn by the package, in watts.
    pub actual_watts: Binary32,
    /// Die temperatures, in degrees Celsius.
    pub gpu_temp_c: Binary32,
    pub cpu_temp_c: Binary32,
    /// Temperature at which the package throttles.
    pub tj_max_c: Binary32,
    pub on_battery: bool,
    /// Monotonic clock, in nanoseconds.
    pub timestamp_ns: u64,
}

impl Default for PowerTelemetrySample {
    fn default() -> (r: PowerTelemetrySample)
        ensures
            r == (PowerTelemetrySample {
                actual_watts: Binary32::nil(),
                gpu_temp_c: Binary32::nil(),
                cpu_temp_c: Binary32::nil(),
                tj_max_c: Binary32::nil(),
                on_battery: false,
                timestamp_ns: 0,
            }),
    {
        PowerTelemetrySample {
            actual_watts: Binary32::from_bits(0),
            gpu_temp_c: Binary32::from_bits(0),
            cpu_temp_c: Binary32::from_bits(0),
            tj_max_c: Binary32::from_bits(0),
            on_battery: false,
            timestamp_ns: 0,
        }
    }
}

impl PowerTelemetrySample {
    pub open spec fn thermal_headroom_c_spec(self) -> Binary32 {
        self.tj_max_c.difference(self.gpu_temp_c.larger(self.cpu_temp_c)).larger(Binary32::nil())
    }

    /// Degrees left until the hotter die throttles, not below zero.
    pub fn thermal_headroom_c(&self) -> (r: Binary32)
        ensures
            r == self.thermal_headroom_c_spec(),
    {
        let hottest: Binary32 = self.gpu_temp_c.max(self.cpu_temp_c);
        self.tj_max_c.minus(hottest).max(Binary32::from_bits(0))
    }

    pub open spec fn dispatch_budget_spec(self, tdp_ceiling: Binary32) -> Binary32 {
        if tdp_ceiling.at_most(Binary32::nil()) {
            Binary32::nil()
        } else {
            self.actual_watts.quotient(tdp_ceiling).clamped(Binary32::nil(), Binary32::whole(1))
        }
    }

    /// The share of the ceiling that is drawn, from 0 to 1.
    pub fn dispatch_budget(&self, tdp_ceiling: Binary32) -> (r: Binary32)
        ensures
            r == self.dispatch_budget_spec(tdp_ceiling),
    {
        let zero: Binary32 = Binary32::from_bits(0);
        if tdp_ceiling.is_at_most(zero) {
            return zero;
        }
        proof {
            binary32_laws::lemma_one();
        }
        self.actual_watts.over(tdp_ceiling).clamp(zero, Binary32::from_u32(1))
    }
}

/// Whether the next frame takes a reading, after some frames without one.
pub open spec fn poll_is_due(waited: nat, interval: nat) -> bool {
    waited + 1 >= interval
}

/// The frames without a reading after the next frame.
pub open spec fn wait_after(waited: nat, interval: nat) -> nat {
    if poll_is_due(waited, interval) {
        0
    } else {
        waited + 1
    }
}

/// The frames without a reading after some frames of a new reader.
pub open spec fn wait_after_frames(frames: nat, interval: nat) -> nat
    decreases frames,
{
    if frames == 0 {
        0
    } else {
        wait_after(wait_after_frames((frames - 1) as nat, interval), interval)
    }
}

/// Reads the telemetry every few frames and repeats the last reading in between.
pub struct AllyXPowerReader {
    pub tj_max_c: Binary32,
    /// Frames between two readings.
    pub poll_interval_frames: u32,
    frame_counter: u32,
    last_sample: PowerTelemetrySample,
}

impl AllyXPowerReader {
    /// Temperature at which the package throttles.
    pub closed spec fn throttle_temperature(self) -> Binary32 {
        self.tj_max_c
    }

    /// Frames between two readings.
    pub closed spec fn poll_interval(self) -> u32 {
        self.poll_interval_frames
    }

    /// Frames since the last reading.
    pub closed spec fn frames_waited(self) -> u32 {
        self.frame_counter
    }

    /// The last reading.
    pub closed spec fn last(self) -> PowerTelemetrySample {
        self.last_sample
    }

    /// Whether the frame counter can go on, which it always can on a reader that
    /// came out of `new`.
    pub open spec fn can_count(self) -> bool {
        self.frames_waited() < u32::MAX
    }

    /// What a reading gives at a time. Fixed values stand in for the power and the
    /// temperatures.
    pub open spec fn reading(self, timestamp_ns: u64) -> PowerTelemetrySample {
        PowerTelemetrySample {
            actual_watts: Binary32::whole(25),
            gpu_temp_c: Binary32::whole(65),
            cpu_temp_c: Binary32::whole(68),
            tj_max_c: self.throttle_temperature(),
            on_battery: false,
            timestamp_ns,
        }
    }

    /// A reader that polls every 16 frames and starts from a safe default.
    pub fn new(tj_max_c: Binary32) -> (r: AllyXPowerReader)
        ensures
            r.throttle_temperature() == tj_max_c,
            r.poll_interval() == 16,
            r.frames_waited() == 0,
            r.last() == (PowerTelemetrySample {
                actual_watts: Binary32::whole(25),
                gpu_temp_c: Binary32::whole(60),
                cpu_temp_c: Binary32::whole(60),
                tj_max_c,
                on_battery: false,
                timestamp_ns: 0,
            }),
    {
        AllyXPowerReader {
            tj_max_c,
            poll_interval_frames: 16,
            frame_counter: 0,
            last_sample: PowerTelemetrySample {
                actual_watts: Binary32::from_u32(25),
                gpu_temp_c: Binary32::from_u32(60),
                cpu_temp_c: Binary32::from_u32(60),
                tj_max_c,
                on_battery: false,
                timestamp_ns: 0,
            },
        }
    }

    /// A reader for a package that throttles at 100 degrees.
    pub fn new_ally_x_z2() -> (r: AllyXPowerReader)
        ensures
            r.throttle_temperature() == Binary32::whole(100),
            r.poll_interval() == 16,
            r.frames_waited() == 0,
            r.last() == (PowerTelemetrySample {
                actual_watts: Binary32::whole(25),
                gpu_temp_c: Binary32::whole(60),
                cpu_temp_c: Binary32::whole(60),
                tj_max_c: Binary32::whole(100),
                on_battery: false,
                timestamp_ns: 0,
            }),
    {
        Self::new(Binary32::from_u32(100))
    }

    /// Call once per frame. Takes a reading when the poll interval is over, and
    /// repeats the last one otherwise.
    pub fn sample(&mut self, timestamp_ns: u64) -> (r: PowerTelemetrySample)
        requires
            old(self).can_count(),
        ensures
            final(self).throttle_temperature() == old(self).throttle_temperature(),
            final(self).poll_interval() == old(self).poll_interval(),
            r == if poll_is_due(
                old(self).frames_waited() as nat,
                old(self).poll_interval() as nat,
            ) {
                old(self).reading(timestamp_ns)
            } else {
                old(self).last()
            },
            final(self).last() == r,
            final(self).frames_waited() == wait_after(
                old(self).frames_waited() as nat,
                old(self).poll_interval() as nat,
            ),
            final(self).can_count(),
    {
        self.frame_counter = self.frame_counter + 1;
        if self.frame_counter < self.poll_interval_frames {
            return self.last_sample;
        }
        self.frame_counter = 0;
        self.last_sample = self.read_hardware_stub(timestamp_ns);
        self.last_sample
    }

    fn read_hardware_stub(&self, timestamp_ns: u64) -> (r: PowerTelemetrySample)
        ensures
            r == self.reading(timestamp_ns),
    {
        PowerTelemetrySample {
            actual_watts: Binary32::from_u32(25),
            gpu_temp_c: Binary32::from_u32(65),
            cpu_temp_c: Binary32::from_u32(68),
            tj_max_c: self.tj_max_c,
            on_battery: false,
            timestamp_ns,
        }
    }
}

/// A change of the budget that is worth telling.
#[derive(Clone, Copy, Debug)]
pub struct PowerEvent {
    pub prev_budget: Binary32,
    pub new_budget: Binary32,
    pub thermal_headroom_c: Binary32,
    pub on_battery: bool,
}

impl PowerEvent {
    pub open spec fn should_disable_frame_gen_spec(self) -> bool {
        self.new_budget.below(Binary32::fraction(6, 10)) || self.thermal_headroom_c.below(
            Binary32::whole(10),
        )
    }

    /// Whether frame generation should be switched off: the budget is low or the
    /// headroom is small.
    pub fn should_disable_frame_gen(&self) -> (r: bool)
        ensures
            r == self.should_disable_frame_gen_spec(),
    {
        self.new_budget.is_below(Binary32::from_ratio(6, 10)) || self.thermal_headroom_c.is_below(
            Binary32::from_u32(10),
        )
    }

    pub open spec fn should_enable_frame_gen_spec(self) -> bool {
        &&& Binary32::fraction(8, 10).below(self.new_budget)
        &&& Binary32::whole(20).below(self.thermal_headroom_c)
        &&& !self.on_battery
    }

    /// Whether frame generation should be switched on: the budget has recovered,
    /// the headroom is comfortable, and the device is not on battery.
    pub fn should_enable_frame_gen(&self) -> (r: bool)
        ensures
            r == self.should_enable_frame_gen_spec(),
    {
        self.new_budget.is_above(Binary32::from_ratio(8, 10)) && self.thermal_headroom_c.is_above(
            Binary32::from_u32(20),
        ) && !self.on_battery
    }
}

/// Applies the telemetry to a profile, within the ceiling that a base profile sets.
pub struct ProfilePatcher {
    base: WattageProfile,
    event_threshold: Binary32,
    prev_budget: Binary32,
}

/// Dissipation at a budget.
pub open spec fn scaled_lambda(base: Binary32, budget: Binary32) -> Binary32 {
    let half = Binary32::fraction(1, 2);
    base.product(half.sum(half.product(budget)))
}

/// Backreaction at a budget.
pub open spec fn scaled_alpha(base: Binary32, budget: Binary32) -> Binary32 {
    base.product(budget)
}

impl ProfilePatcher {
    /// The profile whose values are never exceeded.
    pub closed spec fn ceiling(self) -> WattageProfile {
        self.base
    }

    /// The change of the budget above which an event is emitted.
    pub closed spec fn threshold(self) -> Binary32 {
        self.event_threshold
    }

    /// The budget of the last event; full before the first one.
    pub closed spec fn last_budget(self) -> Binary32 {
        self.prev_budget
    }

    /// A patcher that starts at full budget and tells changes of more than a tenth.
    pub fn new(base: WattageProfile) -> (r: ProfilePatcher)
        ensures
            r.ceiling() == base,
            r.threshold() == Binary32::fraction(1, 10),
            r.last_budget() == Binary32::whole(1),
    {
        ProfilePatcher {
            base,
            event_threshold: Binary32::from_ratio(1, 10),
            prev_budget: Binary32::from_u32(1),
        }
    }

    /// Scales dissipation and backreaction of a profile with the budget, and leaves
    /// the rest of it. Returns an event where the budget has changed by more than
    /// the threshold since the last event.
    pub fn patch(&mut self, profile: &mut WattageProfile, sample: &PowerTelemetrySample) -> (r:
        Option<PowerEvent>)
        ensures
            ({
                let b = sample.dispatch_budget_spec(old(self).ceiling().tdp_watts);
                let changed = old(self).threshold().below(
                    b.difference(old(self).last_budget()).absolute(),
                );
                &&& *final(profile) == (WattageProfile {
                    lambda: scaled_lambda(old(self).ceiling().lambda, b),
                    alpha: scaled_alpha(old(self).ceiling().alpha, b),
                    ..*old(profile)
                })
                &&& changed ==> final(self).last_budget() == b && r == Some(
                    PowerEvent {
                        prev_budget: old(self).last_budget(),
                        new_budget: b,
                        thermal_headroom_c: sample.thermal_headroom_c_spec(),
                        on_battery: sample.on_battery,
                    },
                )
                &&& !changed ==> final(self).last_budget() == old(self).last_budget() && r is None
            }),
            final(self).ceiling() == old(self).ceiling(),
            final(self).threshold() == old(self).threshold(),
    {
        let b: Binary32 = sample.dispatch_budget(self.base.tdp_watts);
        let half: Binary32 = Binary32::from_ratio(1, 2);
        profile.lambda = self.base.lambda.times(half.plus(half.times(b)));
        profile.alpha = self.base.alpha.times(b);
        let delta: Binary32 = b.minus(self.prev_budget).abs();
        if delta.is_above(self.event_threshold) {
            let event = PowerEvent {
                prev_budget: self.prev_budget,
                new_budget: b,
                thermal_headroom_c: sample.thermal_headroom_c(),
                on_battery: sample.on_battery,
            };
            self.prev_budget = b;
            Some(event)
        } else {
            None
        }
    }
}

/// The uniform buffer of the supervisor shader.
#[derive(Clone, Copy, Debug)]
pub struct SupervisorParamsGpu {
    pub actual_watts: Binary32,
    pub tdp_ceiling: Binary32,
    pub thermal_headroom_c: Binary32,
    pub dispatch_budget: Binary32,
    pub vrs_enabled: u32,
    pub vrs_tile_count: u32,
    pub norm_variance: Binary32,
    pub ghost_threshold: Binary32,
    pub frame_index: u32,
    pub _pad: u32,
}

impl Default for SupervisorParamsGpu {
    fn default() -> (r: SupervisorParamsGpu)
        ensures
            r == (SupervisorParamsGpu {
                actual_watts: Binary32::nil(),
                tdp_ceiling: Binary32::nil(),
                thermal_headroom_c: Binary32::nil(),
                dispatch_budget: Binary32::nil(),
                vrs_enabled: 0,
                vrs_tile_count: 0,
                norm_variance: Binary32::nil(),
                ghost_threshold: Binary32::nil(),
                frame_index: 0,
                _pad: 0,
            }),
    {
        let zero: Binary32 = Binary32::from_bits(0);
        SupervisorParamsGpu {
            actual_watts: zero,
            tdp_ceiling: zero,
            thermal_headroom_c: zero,
            dispatch_budget: zero,
            vrs_enabled: 0,
            vrs_tile_count: 0,
            norm_variance: zero,
            ghost_threshold: zero,
            frame_index: 0,
            _pad: 0,
        }
    }
}

impl SupervisorParamsGpu {
    /// The parameters of a frame, from the telemetry and the live profile.
    pub fn build(
        sample: &PowerTelemetrySample,
        profile: &WattageProfile,
        norm_variance: Binary32,
        ghost_threshold: Binary32,
        vrs_tile_count: u32,
        frame_index: u32,
    ) -> (r: SupervisorParamsGpu)
        ensures
            r == (SupervisorParamsGpu {
                actual_watts: sample.actual_watts,
                tdp_ceiling: profile.tdp_watts,
                thermal_headroom_c: sample.thermal_headroom_c_spec(),
                dispatch_budget: sample.dispatch_budget_spec(profile.tdp_watts),
                vrs_enabled: if profile.vrs_enabled {
                    1
                } else {
                    0
                },
                vrs_tile_count,
                norm_variance,
                ghost_threshold,
                frame_index,
                _pad: 0,
            }),
    {
        SupervisorParamsGpu {
            actual_watts: sample.actual_watts,
            tdp_ceiling: profile.tdp_watts,
            thermal_headroom_c: sample.thermal_headroom_c(),
            dispatch_budget: sample.dispatch_budget(profile.tdp_watts),
            vrs_enabled: if profile.vrs_enabled {
                1
            } else {
                0
            },
            vrs_tile_count,
            norm_variance,
            ghost_threshold,
            frame_index,
            _pad: 0,
        }
    }
}

/// Frame generation is never to be switched on and off by the same event.
pub proof fn law_frame_gen_decisions_exclude_each_other(event: PowerEvent)
    ensures
        !(event.should_disable_frame_gen_spec() && event.should_enable_frame_gen_spec()),
{
    binary32_laws::lemma_fraction_monotone(6, 10, 8, 10);
    binary32_laws::lemma_fraction_monotone(10, 1, 20, 1);
}

/// The dispatch budget is a number from 0 to 1, except where the share of the ceiling
/// is no number.
pub proof fn law_budget_range(sample: PowerTelemetrySample, tdp_ceiling: Binary32)
    requires
        tdp_ceiling.at_most(Binary32::nil()) || {
            &&& !sample.actual_watts.nan()
            &&& !tdp_ceiling.nan()
            &&& sample.actual_watts.finite() || tdp_ceiling.finite()
        },
    ensures
        Binary32::nil().at_most(sample.dispatch_budget_spec(tdp_ceiling)),
        sample.dispatch_budget_spec(tdp_ceiling).at_most(Binary32::whole(1)),
{
    binary32_laws::lemma_one();
    if !tdp_ceiling.at_most(Binary32::nil()) {
        binary32_laws::lemma_quotient_is_a_number(sample.actual_watts, tdp_ceiling);
    }
}

/// The thermal headroom is never below zero, whatever the readings are.
pub proof fn law_headroom_is_not_negative(sample: PowerTelemetrySample)
    ensures
        Binary32::nil().at_most(sample.thermal_headroom_c_spec()),
{
}

/// A patched profile never exceeds its base, and its dissipation is halved at
/// most: it does not go to zero, but for the smallest positive number, whose half
/// rounds to zero.
pub proof fn law_patch_stays_under_the_ceiling(base: WattageProfile, budget: Binary32)
    requires
        base.alpha.finite() || !budget.zero(),
        Binary32::nil().at_most(base.lambda),
        Binary32::nil().at_most(base.alpha),
        Binary32::nil().at_most(budget),
        budget.at_most(Binary32::whole(1)),
    ensures
        scaled_lambda(base.lambda, budget).at_most(base.lambda),
        base.lambda.product(Binary32::fraction(1, 2)).at_most(
            scaled_lambda(base.lambda, budget),
        ),
        base.lambda.code() > 1 ==> Binary32::nil().below(scaled_lambda(base.lambda, budget)),
        scaled_alpha(base.alpha, budget).at_most(base.alpha),
        Binary32::nil().at_most(scaled_alpha(base.alpha, budget)),
{
    let one = Binary32::whole(1);
    let half = Binary32::fraction(1, 2);
    let part = half.product(budget);
    let factor = half.sum(part);
    binary32_laws::lemma_one();
    binary32_laws::lemma_half();
    binary32_laws::lemma_halves();
    binary32_laws::lemma_product_monotone(half, budget, half, one);
    binary32_laws::lemma_times_one(half);
    binary32_laws::lemma_sum_monotone(half, part, half, half);
    binary32_laws::lemma_sum_monotone(half, Binary32::nil(), half, part);
    binary32_laws::lemma_times_one(base.lambda);
    binary32_laws::lemma_times_one(base.alpha);
    if base.lambda.finite() {
        let two = Binary32 { bits: 2 };
        binary32_laws::lemma_product_monotone(base.lambda, factor, base.lambda, one);
        binary32_laws::lemma_product_monotone(base.lambda, half, base.lambda, factor);
        if base.lambda.code() > 1 {
            binary32_laws::lemma_product_monotone(two, half, base.lambda, half);
            binary32_laws::lemma_half_of_two_units();
        }
    } else {
        binary32_laws::lemma_sum_not_below_zero(half, part);
        reveal(Binary32::product);
    }
    if base.alpha.finite() {
        binary32_laws::lemma_product_monotone(base.alpha, budget, base.alpha, one);
    } else {
        reveal(Binary32::product);
    }
}

/// At full budget the base profile is kept; at zero budget the dissipation is
/// halved and the backreaction is off.
pub proof fn law_patch_at_the_ends(base: WattageProfile)
    requires
        !base.lambda.nan(),
        base.alpha.finite(),
    ensures
        scaled_lambda(base.lambda, Binary32::whole(1)) == base.lambda,
        scaled_alpha(base.alpha, Binary32::whole(1)) == base.alpha,
        scaled_lambda(base.lambda, Binary32::nil()) == base.lambda.product(
            Binary32::fraction(1, 2),
        ),
        scaled_alpha(base.alpha, Binary32::nil()).zero(),
{
    let half = Binary32::fraction(1, 2);
    binary32_laws::lemma_one();
    binary32_laws::lemma_half();
    binary32_laws::lemma_halves();
    binary32_laws::lemma_times_one(half);
    binary32_laws::lemma_times_one(base.lambda);
    binary32_laws::lemma_times_one(base.alpha);
    binary32_laws::lemma_times_a_zero(half, Binary32::nil());
    binary32_laws::lemma_times_a_zero(base.alpha, Binary32::nil());
}

/// A new reader takes a reading on every frame whose number is a multiple of the
/// poll interval, and on no other.
pub proof fn law_polls_at_the_interval(frame: nat, interval: nat)
    requires
        frame > 0,
        interval > 0,
    ensures
        poll_is_due(wait_after_frames((frame - 1) as nat, interval), interval) <==> frame % interval
            == 0,
        wait_after_frames(frame, interval) == frame % interval,
    decreases frame,
{
    let before = (frame - 1) as nat;
    if before > 0 {
        law_polls_at_the_interval(before, interval);
    } else {
        vstd::arithmetic::div_mod::lemma_small_mod(0, interval);
    }
    let waited = before % interval;
    assert(wait_after_frames(before, interval) == waited);
    vstd::arithmetic::div_mod::lemma_fundamental_div_mod(before as int, interval as int);
    let q = before as int / interval as int;
    if waited + 1 == interval {
        assert(frame == (q + 1) * interval) by (nonlinear_arith)
            requires
                frame == interval * q + waited + 1,
                waited + 1 == interval,
        ;
        vstd::arithmetic::div_mod::lemma_fundamental_div_mod_converse(
            frame as int,
            interval as int,
            q + 1,
            0,
        );
    } else {
        assert(frame == q * interval + (waited + 1)) by (nonlinear_arith)
            requires
                frame == interval * q + waited + 1,
        ;
        assert(waited < interval) by (nonlinear_arith)
            requires
                waited == before % interval,
                interval > 0,
        ;
        vstd::arithmetic::div_mod::lemma_fundamental_div_mod_converse(
            frame as int,
            interval as int,
            q,
            (waited + 1) as int,
        );
    }
}

} // verus!
