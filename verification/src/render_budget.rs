//! Pre-emptive render quality scaling.
//!
//! The lead time of a scene transition is used to drop the render resolution
//! before the transition peaks, and to skip frames that frame generation covers.
//! Scale changes are smoothed, so the resolution does not flicker.

use vstd::prelude::*;

use crate::binary32::Binary32;
use crate::binary32_laws;
use crate::genre_governor;
use crate::genre_governor::GenreMode;

verus! {

/// A recommendation for the renderer.
#[derive(Clone, Copy, Debug)]
pub struct RenderBudgetOutput {
    /// Render scale, from the floor of the genre to 1.
    pub resolution_scale: Binary32,
    /// Whether nothing needs to be drawn this frame.
    pub skip_frame: bool,
    /// Display frames per rendered frame.
    pub afmf2_multiplier: u8,
    /// Frames until the peak of the transition.
    pub transition_lead_frames: u32,
}

/// Smooths the render scale and spaces out skipped frames.
pub struct RenderBudgetAllocator {
    current_scale: Binary32,
    scale_ema: Binary32,
    consecutive_skips: u32,
}

/// The scale that a frame asks for, before smoothing. Native where a shooter
/// moves fast or where the transition is too near; otherwise the transition
/// drives 70% and the power budget 30% of the drop towards the floor.
pub open spec fn target_scale_spec(
    divergence_rate: Binary32,
    lead_frames: u32,
    norm_variance: Binary32,
    dispatch_budget: Binary32,
    genre: GenreMode,
) -> Binary32 {
    let one = Binary32::whole(1);
    let floor = genre.resolution_floor_spec();
    if genre.is_fps_spec() && Binary32::fraction(10, 100).below(norm_variance) {
        one
    } else if lead_frames < 2 {
        one
    } else {
        let transition = divergence_rate.absolute().quotient(
            genre.divergence_threshold_spec().product(Binary32::whole(3)),
        ).smaller(one);
        let thermal = one.difference(dispatch_budget).clamped(Binary32::nil(), one);
        let combined = transition.product(Binary32::fraction(70, 100)).sum(
            thermal.product(Binary32::fraction(30, 100)),
        );
        one.difference(combined.product(one.difference(floor))).larger(floor)
    }
}

/// The scale after one step of smoothing, not below the floor.
pub open spec fn smoothed_scale(
    current: Binary32,
    ema: Binary32,
    target: Binary32,
    floor: Binary32,
) -> Binary32 {
    ema.product(current).sum(Binary32::whole(1).difference(ema).product(target)).larger(floor)
}

/// Whether a frame may be skipped: never for a competitive shooter, never twice in
/// a row, and not in motion, just before the peak of a transition, or in a complex
/// scene.
pub open spec fn may_skip(
    consecutive_skips: u32,
    norm_variance: Binary32,
    lead_frames: u32,
    h_normalized: Binary32,
    genre: GenreMode,
) -> bool {
    &&& genre != GenreMode::FpsCompetitive
    &&& consecutive_skips == 0
    &&& !Binary32::fraction(5, 100).below(norm_variance)
    &&& !(1 <= lead_frames <= 3)
    &&& !Binary32::fraction(70, 100).below(h_normalized)
}

impl RenderBudgetAllocator {
    /// The present scale.
    pub closed spec fn scale(self) -> Binary32 {
        self.current_scale
    }

    /// The weight of the present scale against a new one.
    pub closed spec fn ema(self) -> Binary32 {
        self.scale_ema
    }

    /// The number of frames skipped in a row.
    pub closed spec fn skips(self) -> u32 {
        self.consecutive_skips
    }

    /// The smoothing weight is four fifths, the scale does not exceed native
    /// resolution, and at most one frame in a row was skipped.
    #[verifier::type_invariant]
    pub closed spec fn is_settled(self) -> bool {
        &&& self.scale_ema == Binary32::fraction(80, 100)
        &&& self.current_scale.at_most(Binary32::whole(1))
        &&& !self.current_scale.negative()
        &&& self.consecutive_skips <= 1
    }

    /// An allocator at native resolution.
    pub fn new() -> (r: RenderBudgetAllocator)
        ensures
            r.scale() == Binary32::whole(1),
            r.ema() == Binary32::fraction(80, 100),
            r.skips() == 0,
    {
        proof {
            binary32_laws::lemma_one();
        }
        RenderBudgetAllocator {
            current_scale: Binary32::from_u32(1),
            scale_ema: Binary32::from_ratio(80, 100),
            consecutive_skips: 0,
        }
    }

    fn target_scale(
        &self,
        divergence_rate: Binary32,
        lead_frames: u32,
        norm_variance: Binary32,
        dispatch_budget: Binary32,
        genre: GenreMode,
    ) -> (r: Binary32)
        ensures
            r == target_scale_spec(
                divergence_rate,
                lead_frames,
                norm_variance,
                dispatch_budget,
                genre,
            ),
    {
        let one: Binary32 = Binary32::from_u32(1);
        let floor: Binary32 = genre.resolution_floor();
        if genre.is_fps() && norm_variance.is_above(Binary32::from_ratio(10, 100)) {
            return one;
        }
        if lead_frames < 2 {
            return one;
        }
        proof {
            binary32_laws::lemma_one();
        }
        let transition: Binary32 = divergence_rate.abs().over(
            genre.divergence_threshold().times(Binary32::from_u32(3)),
        ).min(one);
        let thermal: Binary32 = one.minus(dispatch_budget).clamp(Binary32::from_bits(0), one);
        let combined: Binary32 = transition.times(Binary32::from_ratio(70, 100)).plus(
            thermal.times(Binary32::from_ratio(30, 100)),
        );
        let drop: Binary32 = combined.times(one.minus(floor));
        one.minus(drop).max(floor)
    }

    fn should_skip(
        &self,
        norm_variance: Binary32,
        lead_frames: u32,
        h_normalized: Binary32,
        genre: GenreMode,
    ) -> (r: bool)
        ensures
            r == may_skip(self.skips(), norm_variance, lead_frames, h_normalized, genre),
    {
        if genre == GenreMode::FpsCompetitive {
            return false;
        }
        if self.consecutive_skips > 0 {
            return false;
        }
        if norm_variance.is_above(Binary32::from_ratio(5, 100)) {
            return false;
        }
        if lead_frames > 0 && lead_frames <= 3 {
            return false;
        }
        if h_normalized.is_above(Binary32::from_ratio(70, 100)) {
            return false;
        }
        true
    }

    /// Takes in a frame and recommends a scale, whether to skip the frame, and how
    /// many frames to generate.
    pub fn tick(
        &mut self,
        divergence_rate: Binary32,
        lead_frames: u32,
        norm_variance: Binary32,
        dispatch_budget: Binary32,
        h_normalized: Binary32,
        genre: GenreMode,
    ) -> (r: RenderBudgetOutput)
        ensures
            r.resolution_scale == smoothed_scale(
                old(self).scale(),
                old(self).ema(),
                target_scale_spec(
                    divergence_rate,
                    lead_frames,
                    norm_variance,
                    dispatch_budget,
                    genre,
                ),
                genre.resolution_floor_spec(),
            ),
            r.skip_frame == may_skip(
                old(self).skips(),
                norm_variance,
                lead_frames,
                h_normalized,
                genre,
            ),
            r.afmf2_multiplier == genre.afmf2_target_multiplier_spec(norm_variance),
            r.transition_lead_frames == lead_frames,
            final(self).scale() == r.resolution_scale,
            final(self).ema() == old(self).ema(),
            final(self).skips() == if r.skip_frame {
                old(self).skips() + 1
            } else {
                0
            },
            genre.resolution_floor_spec().at_most(r.resolution_scale),
            r.resolution_scale.at_most(Binary32::whole(1)),
    {
        proof {
            use_type_invariant(&*self);
        }
        let target: Binary32 = self.target_scale(
            divergence_rate,
            lead_frames,
            norm_variance,
            dispatch_budget,
            genre,
        );
        let one: Binary32 = Binary32::from_u32(1);
        let floor: Binary32 = genre.resolution_floor();
        proof {
            law_target_range(divergence_rate, lead_frames, norm_variance, dispatch_budget, genre);
            law_smoothing_keeps_the_range(self.current_scale, target, genre);
        }
        let scale: Binary32 = self.scale_ema.times(self.current_scale).plus(
            one.minus(self.scale_ema).times(target),
        ).max(floor);
        let skip: bool = self.should_skip(norm_variance, lead_frames, h_normalized, genre);
        let consecutive_skips: u32 = if skip {
            self.consecutive_skips + 1
        } else {
            0
        };
        *self =
        RenderBudgetAllocator {
            current_scale: scale,
            scale_ema: self.scale_ema,
            consecutive_skips,
        };
        RenderBudgetOutput {
            resolution_scale: scale,
            skip_frame: skip,
            afmf2_multiplier: genre.afmf2_target_multiplier(norm_variance),
            transition_lead_frames: lead_frames,
        }
    }
}

/// The scale that a frame asks for lies between the floor of the genre and native
/// resolution, whatever the inputs are.
pub proof fn law_target_range(
    divergence_rate: Binary32,
    lead_frames: u32,
    norm_variance: Binary32,
    dispatch_budget: Binary32,
    genre: GenreMode,
)
    ensures
        ({
            let target = target_scale_spec(
                divergence_rate,
                lead_frames,
                norm_variance,
                dispatch_budget,
                genre,
            );
            &&& genre.resolution_floor_spec().at_most(target)
            &&& target.at_most(Binary32::whole(1))
            &&& !target.negative()
        }),
{
    let one = Binary32::whole(1);
    let floor = genre.resolution_floor_spec();
    genre_governor::law_resolution_floor_range(genre);
    genre_governor::lemma_table_bits();
    binary32_laws::lemma_one();
    binary32_laws::lemma_whole(3);
    let threshold = genre.divergence_threshold_spec().product(Binary32::whole(3));
    let share = divergence_rate.absolute().quotient(threshold);
    let transition = share.smaller(one);
    let thermal = one.difference(dispatch_budget).clamped(Binary32::nil(), one);
    let seven = Binary32::fraction(70, 100);
    let three = Binary32::fraction(30, 100);
    let a = transition.product(seven);
    let b = thermal.product(three);
    let combined = a.sum(b);
    let drop = combined.product(one.difference(floor));
    binary32_laws::lemma_fraction_monotone(30, 100, 70, 100);
    binary32_laws::lemma_signs(genre.divergence_threshold_spec(), Binary32::whole(3));
    binary32_laws::lemma_signs(divergence_rate.absolute(), threshold);
    binary32_laws::lemma_signs(transition, seven);
    binary32_laws::lemma_taken_from_one(dispatch_budget);
    binary32_laws::lemma_signs(thermal, three);
    binary32_laws::lemma_signs(a, b);
    binary32_laws::lemma_floor_leaves_something(floor);
    binary32_laws::lemma_signs(combined, one.difference(floor));
    binary32_laws::lemma_taken_from_one(drop);
}

/// One step of smoothing keeps a scale between the floor and native resolution.
pub proof fn law_smoothing_keeps_the_range(current: Binary32, target: Binary32, genre: GenreMode)
    requires
        !current.negative(),
        current.at_most(Binary32::whole(1)),
        !target.negative(),
        target.at_most(Binary32::whole(1)),
    ensures
        ({
            let floor = genre.resolution_floor_spec();
            let scale = smoothed_scale(current, Binary32::fraction(80, 100), target, floor);
            &&& floor.at_most(scale)
            &&& scale.at_most(Binary32::whole(1))
            &&& !scale.negative()
        }),
{
    let one = Binary32::whole(1);
    let ema = Binary32::fraction(80, 100);
    let rest = one.difference(ema);
    let a = ema.product(current);
    let b = rest.product(target);
    genre_governor::law_resolution_floor_range(genre);
    genre_governor::lemma_table_bits();
    binary32_laws::lemma_one();
    binary32_laws::lemma_four_fifths();
    binary32_laws::lemma_product_monotone(ema, current, ema, one);
    binary32_laws::lemma_product_monotone(rest, target, rest, one);
    binary32_laws::lemma_times_one(ema);
    binary32_laws::lemma_times_one(rest);
    binary32_laws::lemma_signs(ema, current);
    binary32_laws::lemma_signs(rest, target);
    binary32_laws::lemma_sum_monotone(a, b, ema, rest);
    binary32_laws::lemma_signs(a, b);
}

/// One step of smoothing is the weighted mean, but for one part in four million.
proof fn lemma_smoothing_is_close(current: Binary32, target: Binary32)
    requires
        Binary32::fraction(1, 2).at_most(current),
        current.at_most(Binary32::whole(1)),
        Binary32::fraction(1, 2).at_most(target),
        target.at_most(Binary32::whole(1)),
    ensures
        ({
            let u = Binary32::units_in_one();
            let ema = Binary32::fraction(80, 100);
            let rest = Binary32::whole(1).difference(ema);
            let s = ema.product(current).sum(rest.product(target));
            let exact = ema.size() * current.size() + rest.size() * target.size();
            &&& s.finite()
            &&& !s.negative()
            &&& 4_000_000 * (s.size() * u) <= 4_000_000 * exact + u * u
            &&& 4_000_000 * exact <= 4_000_000 * (s.size() * u) + u * u
            &&& ema.size() + rest.size() == u
            &&& 5 * rest.size() <= u
        }),
{
    let u = Binary32::units_in_one();
    let one = Binary32::whole(1);
    let half = Binary32::fraction(1, 2);
    let ema = Binary32::fraction(80, 100);
    let rest = one.difference(ema);
    binary32_laws::lemma_one();
    binary32_laws::lemma_half();
    binary32_laws::lemma_four_fifths();
    binary32_laws::lemma_fifth_sizes();
    vstd::arithmetic::power2::lemma_pow2_pos(149);
    binary32_laws::lemma_order_is_by_units(current, one);
    binary32_laws::lemma_order_is_by_units(target, one);
    binary32_laws::lemma_order_is_by_units(half, current);
    binary32_laws::lemma_order_is_by_units(half, target);
    binary32_laws::lemma_product_of_parts_is_close(ema, current);
    binary32_laws::lemma_product_of_parts_is_close(rest, target);
    let a = ema.product(current);
    let b = rest.product(target);
    binary32_laws::lemma_sum_of_parts_is_close(a, b);
    let s = a.sum(b);
    let au = a.size() * u;
    let bu = b.size() * u;
    let su = s.size() * u;
    let x = ema.size() * current.size();
    let y = rest.size() * target.size();
    let uu = u * u;
    assert(su * 0xFF_FFFF <= (au + bu) * 0x100_0000) by (nonlinear_arith)
        requires
            s.size() * 0xFF_FFFF <= (a.size() + b.size()) * 0x100_0000,
            su == s.size() * u,
            au == a.size() * u,
            bu == b.size() * u,
    ;
    assert((au + bu) * 0x100_0000 <= su * 0x100_0001) by (nonlinear_arith)
        requires
            (a.size() + b.size()) * 0x100_0000 <= s.size() * 0x100_0001,
            su == s.size() * u,
            au == a.size() * u,
            bu == b.size() * u,
    ;
    assert(x + y <= uu) by (nonlinear_arith)
        requires
            x == ema.size() * current.size(),
            y == rest.size() * target.size(),
            uu == u * u,
            current.size() <= u,
            target.size() <= u,
            ema.size() + rest.size() == u,
    {
        assert(ema.size() * current.size() <= ema.size() * u);
        assert(rest.size() * target.size() <= rest.size() * u);
    }
}

/// One step of smoothing moves the scale by no more than a fifth of the way between
/// the floor and native resolution, but for a millionth, so the resolution does not
/// jump.
pub proof fn law_smoothing_moves_a_fifth_at_most(
    current: Binary32,
    target: Binary32,
    genre: GenreMode,
)
    requires
        genre.resolution_floor_spec().at_most(current),
        current.at_most(Binary32::whole(1)),
        genre.resolution_floor_spec().at_most(target),
        target.at_most(Binary32::whole(1)),
    ensures
        ({
            let u = Binary32::units_in_one();
            let floor = genre.resolution_floor_spec();
            let scale = smoothed_scale(current, Binary32::fraction(80, 100), target, floor);
            let room = 1_000_000 * (u - floor.units()) + 5 * u;
            &&& 5_000_000 * (scale.units() - current.units()) <= room
            &&& 5_000_000 * (current.units() - scale.units()) <= room
        }),
{
    let u = Binary32::units_in_one();
    let floor = genre.resolution_floor_spec();
    let one = Binary32::whole(1);
    let ema = Binary32::fraction(80, 100);
    let rest = one.difference(ema);
    genre_governor::law_resolution_floor_range(genre);
    genre_governor::lemma_table_bits();
    binary32_laws::lemma_half();
    binary32_laws::lemma_one();
    vstd::arithmetic::power2::lemma_pow2_pos(149);
    lemma_smoothing_is_close(current, target);
    let s = ema.product(current).sum(rest.product(target));
    let scale = smoothed_scale(current, ema, target, floor);
    binary32_laws::lemma_order_is_by_units(floor, current);
    binary32_laws::lemma_order_is_by_units(floor, target);
    binary32_laws::lemma_order_is_by_units(current, one);
    binary32_laws::lemma_order_is_by_units(target, one);
    binary32_laws::lemma_order_is_by_units(s, floor);
    let e = ema.size() as int;
    let r = rest.size() as int;
    let c = current.size() as int;
    let t = target.size() as int;
    let f = floor.size() as int;
    let m = s.size() as int;
    // The step, but for rounding, is `rest * (target - current)`.
    assert(e * c + r * t == u * c + r * (t - c)) by (nonlinear_arith)
        requires
            e + r == u,
    ;
    assert(5 * (r * (t - c)) <= u * (u - f) && -(5 * (r * (t - c))) <= u * (u - f))
        by (nonlinear_arith)
        requires
            0 <= 5 * r <= u,
            f <= c <= u,
            f <= t <= u,
    {
        assert(5 * r * (t - c) <= 5 * r * (u - f));
        assert(5 * r * (c - t) <= 5 * r * (u - f));
        assert(5 * r * (u - f) <= u * (u - f));
    }
    assert((m - c) * u == m * u - u * c) by (nonlinear_arith);
    assert(u * (1_000_000 * (u - f) + 5 * u) == 1_000_000 * (u * (u - f)) + 5 * (u * u))
        by (nonlinear_arith);
    let room = 1_000_000 * (u - f) + 5 * u;
    assert(5_000_000 * ((m - c) * u) <= u * room);
    assert(-(5_000_000 * ((m - c) * u)) <= u * room);
    assert(5_000_000 * (m - c) <= room && 5_000_000 * (c - m) <= room) by (nonlinear_arith)
        requires
            5_000_000 * ((m - c) * u) <= u * room,
            -(5_000_000 * ((m - c) * u)) <= u * room,
            u > 0,
    ;
}

/// A competitive shooter never skips a frame.
pub proof fn law_competitive_never_skips(
    skips: u32,
    norm_variance: Binary32,
    lead_frames: u32,
    h_normalized: Binary32,
)
    ensures
        !may_skip(skips, norm_variance, lead_frames, h_normalized, GenreMode::FpsCompetitive),
{
}

/// After a skipped frame, which leaves one skip more on the count, the next frame
/// is drawn, whatever the inputs and the genres are.
pub proof fn law_no_two_skips_in_a_row(
    skips: u32,
    norm_variance: Binary32,
    lead_frames: u32,
    h_normalized: Binary32,
    genre: GenreMode,
    next_norm_variance: Binary32,
    next_lead_frames: u32,
    next_h_normalized: Binary32,
    next_genre: GenreMode,
)
    requires
        may_skip(skips, norm_variance, lead_frames, h_normalized, genre),
    ensures
        !may_skip(
            (skips + 1) as u32,
            next_norm_variance,
            next_lead_frames,
            next_h_normalized,
            next_genre,
        ),
{
}

/// A shooter that moves fast asks for native resolution, however strong the
/// transition or tight the power budget.
pub proof fn law_fast_shooter_stays_native(
    divergence_rate: Binary32,
    lead_frames: u32,
    norm_variance: Binary32,
    dispatch_budget: Binary32,
    genre: GenreMode,
)
    requires
        genre.is_fps_spec(),
        Binary32::fraction(10, 100).below(norm_variance),
    ensures
        target_scale_spec(divergence_rate, lead_frames, norm_variance, dispatch_budget, genre)
            == Binary32::whole(1),
{
}

/// The resolution that a shooter renders at does not drop while it moves fast, but
/// for a millionth of rounding, and stays native where it is native.
pub proof fn law_fast_shooter_never_drops(
    current: Binary32,
    divergence_rate: Binary32,
    lead_frames: u32,
    norm_variance: Binary32,
    dispatch_budget: Binary32,
    genre: GenreMode,
)
    requires
        genre.is_fps_spec(),
        Binary32::fraction(10, 100).below(norm_variance),
        genre.resolution_floor_spec().at_most(current),
        current.at_most(Binary32::whole(1)),
    ensures
        ({
            let target = target_scale_spec(
                divergence_rate,
                lead_frames,
                norm_variance,
                dispatch_budget,
                genre,
            );
            let scale = smoothed_scale(
                current,
                Binary32::fraction(80, 100),
                target,
                genre.resolution_floor_spec(),
            );
            &&& 1_000_000 * (current.units() - scale.units()) <= Binary32::units_in_one()
            &&& current == Binary32::whole(1) ==> scale == Binary32::whole(1)
        }),
{
    let u = Binary32::units_in_one();
    let floor = genre.resolution_floor_spec();
    let one = Binary32::whole(1);
    let ema = Binary32::fraction(80, 100);
    let rest = one.difference(ema);
    genre_governor::law_resolution_floor_range(genre);
    genre_governor::lemma_table_bits();
    binary32_laws::lemma_half();
    binary32_laws::lemma_one();
    binary32_laws::lemma_four_fifths();
    binary32_laws::lemma_times_one(ema);
    binary32_laws::lemma_times_one(rest);
    vstd::arithmetic::power2::lemma_pow2_pos(149);
    lemma_smoothing_is_close(current, one);
    let s = ema.product(current).sum(rest.product(one));
    let e = ema.size() as int;
    let r = rest.size() as int;
    let c = current.size() as int;
    let m = s.size() as int;
    binary32_laws::lemma_order_is_by_units(current, one);
    binary32_laws::lemma_order_is_by_units(s, floor);
    assert(u * c <= e * c + r * u) by (nonlinear_arith)
        requires
            e + r == u,
            c <= u,
            r >= 0,
    ;
    assert(1_000_000 * (c - m) <= u) by (nonlinear_arith)
        requires
            4_000_000 * (u * c) <= 4_000_000 * (m * u) + u * u,
            u > 0,
    ;
}

} // verus!
