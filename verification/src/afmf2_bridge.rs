//! Confidence signal for the driver's frame interpolation.
//!
//! Interpolation works on rendered frames and does not see a scene transition
//! coming. The entropy divergence does, so it lowers the trust in interpolation
//! before a transition breaks it.

use vstd::prelude::*;

use crate::binary32::Binary32;
use crate::binary32_laws;
use crate::genre_governor::GenreMode;

verus! {

/// Number of tiles of the shading-rate hint.
pub const TILES: usize = 16;

/// What the driver is told about one frame.
#[derive(Clone, Copy, Debug)]
pub struct Afmf2Signal {
    /// Trust in optical flow: one interpolates freely, zero suppresses.
    pub confidence_scalar: Binary32,
    /// Whether a transition is under way whose peak is still to come.
    pub transition_imminent: bool,
    /// Frames until the estimated entropy peak.
    pub lead_frames: u32,
    /// Shading-rate hint per tile: 0 is full rate, 2 a quarter.
    pub tile_confidence: [u8; TILES],
    /// Whether the frame before must not serve as a reference.
    pub prior_frame_ghosted: bool,
    /// Entropy, normalised.
    pub h_normalized: Binary32,
}

/// The confidence before it is moved into its range: one up to the threshold, then
/// falling to zero over three more thresholds.
pub open spec fn raw_confidence(rate: Binary32, threshold: Binary32) -> Binary32 {
    let size = rate.absolute();
    if size.at_most(threshold) {
        Binary32::whole(1)
    } else {
        Binary32::whole(1).difference(
            size.difference(threshold).quotient(threshold.product(Binary32::whole(3))),
        )
    }
}

/// Whether hardly anything moves: then the confidence has a floor.
pub open spec fn is_static(norm_variance: Binary32, h_normalized: Binary32) -> bool {
    norm_variance.below(Binary32::fraction(2, 100)) && h_normalized.below(
        Binary32::fraction(30, 100),
    )
}

/// The confidence of a frame.
pub open spec fn confidence(
    rate: Binary32,
    threshold: Binary32,
    h_normalized: Binary32,
    norm_variance: Binary32,
) -> Binary32 {
    raw_confidence(rate, threshold).clamped(
        if is_static(norm_variance, h_normalized) {
            Binary32::fraction(85, 100)
        } else {
            Binary32::nil()
        },
        Binary32::whole(1),
    )
}

impl Default for Afmf2Signal {
    fn default() -> (r: Afmf2Signal)
        ensures
            r.confidence_scalar == Binary32::nil(),
            !r.transition_imminent,
            r.lead_frames == 0,
            r.tile_confidence@ == Seq::new(TILES as nat, |i: int| 0u8),
            !r.prior_frame_ghosted,
            r.h_normalized == Binary32::nil(),
    {
        Afmf2Signal {
            confidence_scalar: Binary32::from_bits(0),
            transition_imminent: false,
            lead_frames: 0,
            tile_confidence: [0u8;TILES],
            prior_frame_ghosted: false,
            h_normalized: Binary32::from_bits(0),
        }
    }
}

impl Afmf2Signal {
    pub open spec fn reference_frame_ok_spec(self) -> bool {
        !self.prior_frame_ghosted && Binary32::fraction(50, 100).below(self.confidence_scalar)
    }

    pub open spec fn suggested_mode_spec(self) -> Seq<char> {
        if !self.reference_frame_ok_spec() {
            "disabled"@
        } else if Binary32::fraction(80, 100).below(self.confidence_scalar) {
            "interpolate"@
        } else {
            "reduce_confidence"@
        }
    }

    /// The signal of one frame, from the divergence rate and its threshold, the
    /// frames until the peak, the scene statistics, the error of the frame before
    /// and its threshold, and the shading-rate hints.
    pub fn compute(
        divergence_rate: Binary32,
        divergence_threshold: Binary32,
        lead_frames: u32,
        h_normalized: Binary32,
        norm_variance: Binary32,
        prior_frame_ghost_err: Binary32,
        ghost_err_threshold: Binary32,
        vrs_hints: &[u8; TILES],
    ) -> (r: Afmf2Signal)
        ensures
            r.confidence_scalar == confidence(
                divergence_rate,
                divergence_threshold,
                h_normalized,
                norm_variance,
            ),
            r.transition_imminent == (divergence_threshold.below(divergence_rate.absolute())
                && lead_frames > 0),
            r.lead_frames == lead_frames,
            r.tile_confidence == *vrs_hints,
            r.prior_frame_ghosted == ghost_err_threshold.below(prior_frame_ghost_err),
            r.h_normalized == h_normalized,
    {
        let div_abs: Binary32 = divergence_rate.abs();
        let one: Binary32 = Binary32::from_u32(1);
        let suppression_range: Binary32 = divergence_threshold.times(Binary32::from_u32(3));
        let raw: Binary32 = if div_abs.is_at_most(divergence_threshold) {
            one
        } else {
            one.minus(div_abs.minus(divergence_threshold).over(suppression_range))
        };
        let low: Binary32 = if norm_variance.is_below(Binary32::from_ratio(2, 100))
            && h_normalized.is_below(Binary32::from_ratio(30, 100)) {
            Binary32::from_ratio(85, 100)
        } else {
            Binary32::from_bits(0)
        };
        proof {
            lemma_range();
        }
        Afmf2Signal {
            confidence_scalar: raw.clamp(low, one),
            transition_imminent: div_abs.is_above(divergence_threshold) && lead_frames > 0,
            lead_frames,
            tile_confidence: *vrs_hints,
            prior_frame_ghosted: prior_frame_ghost_err.is_above(ghost_err_threshold),
            h_normalized,
        }
    }

    /// Whether this frame is a safe reference to interpolate from.
    pub fn reference_frame_ok(&self) -> (r: bool)
        ensures
            r == self.reference_frame_ok_spec(),
    {
        !self.prior_frame_ghosted && self.confidence_scalar.is_above(Binary32::from_ratio(50, 100))
    }

    /// Name of the frame generation mode for the driver.
    pub fn suggested_mode(&self) -> (r: &'static str)
        ensures
            r@ == self.suggested_mode_spec(),
    {
        if !self.reference_frame_ok() {
            "disabled"
        } else if self.confidence_scalar.is_above(Binary32::from_ratio(80, 100)) {
            "interpolate"
        } else {
            "reduce_confidence"
        }
    }
}

/// Puts the signal of a frame together.
pub struct Afmf2Bridge {
    vrs_snapshot: [u8; TILES],
}

impl View for Afmf2Bridge {
    type V = [u8; TILES];

    /// The shading-rate hints taken in last.
    closed spec fn view(&self) -> [u8; TILES] {
        self.vrs_snapshot
    }
}

impl Afmf2Bridge {
    /// A bridge with all tiles at full rate.
    pub fn new() -> (r: Afmf2Bridge)
        ensures
            r@@ == Seq::new(TILES as nat, |i: int| 0u8),
    {
        Afmf2Bridge { vrs_snapshot: [0u8;TILES] }
    }

    /// Takes in the shading-rate hints of the supervisor.
    pub fn update_vrs(&mut self, hints: &[u8; TILES])
        ensures
            final(self)@ == *hints,
    {
        self.vrs_snapshot = *hints;
    }

    /// The signal of this frame, with the thresholds of a genre.
    pub fn build(
        &self,
        divergence_rate: Binary32,
        lead_frames: u32,
        h_normalized: Binary32,
        norm_variance: Binary32,
        prior_ghost_err: Binary32,
        genre: GenreMode,
    ) -> (r: Afmf2Signal)
        ensures
            r.confidence_scalar == confidence(
                divergence_rate,
                genre.divergence_threshold_spec(),
                h_normalized,
                norm_variance,
            ),
            r.transition_imminent == (genre.divergence_threshold_spec().below(
                divergence_rate.absolute(),
            ) && lead_frames > 0),
            r.lead_frames == lead_frames,
            r.tile_confidence == self@,
            r.prior_frame_ghosted == genre.ghost_threshold_spec().below(prior_ghost_err),
            r.h_normalized == h_normalized,
    {
        Afmf2Signal::compute(
            divergence_rate,
            genre.divergence_threshold(),
            lead_frames,
            h_normalized,
            norm_variance,
            prior_ghost_err,
            genre.ghost_threshold(),
            &self.vrs_snapshot,
        )
    }
}

proof fn lemma_range()
    ensures
        Binary32::whole(1) == (Binary32 { bits: 0x3F80_0000 }),
        Binary32::fraction(85, 100) == (Binary32 { bits: 0x3F59_999A }),
{
    vstd::arithmetic::power2::lemma2_to64();
    binary32_laws::lemma_one();
    binary32_laws::lemma_fraction_bits(85, 100, 0xD9_999A, 125, 0x100_0000);
}

/// What a rate has above the threshold.
proof fn lemma_excess(rate: Binary32, threshold: Binary32)
    requires
        threshold.finite(),
        Binary32::nil().below(threshold),
        threshold.below(rate.absolute()),
    ensures
        !rate.absolute().difference(threshold).nan(),
        !rate.absolute().difference(threshold).negative(),
        rate.finite() ==> rate.absolute().difference(threshold).finite(),
{
    reveal(Binary32::sum);
    let size = rate.absolute();
    if rate.finite() {
        binary32_laws::lemma_order_is_by_units(threshold, size);
        let total = size.units() + threshold.opposite().units();
        binary32_laws::lemma_rounded(false, total as nat, 1);
        crate::rounding::lemma_nearest_exact(size.size(), 1, size.code());
        crate::rounding::lemma_nearest_monotone(total as nat, 1, size.size(), 1);
    }
}

proof fn lemma_raw_is_a_number(rate: Binary32, threshold: Binary32)
    requires
        !rate.nan(),
        threshold.finite(),
        Binary32::nil().below(threshold),
        rate.finite() || threshold.product(Binary32::whole(3)).finite(),
    ensures
        !raw_confidence(rate, threshold).nan(),
        !threshold.product(Binary32::whole(3)).nan(),
        !threshold.product(Binary32::whole(3)).negative(),
        !threshold.product(Binary32::whole(3)).zero(),
{
    lemma_range();
    let one = Binary32::whole(1);
    let three = Binary32::whole(3);
    binary32_laws::lemma_whole(3);
    binary32_laws::lemma_fraction_monotone(1, 1, 3, 1);
    binary32_laws::lemma_product_monotone(threshold, one, threshold, three);
    binary32_laws::lemma_times_one(threshold);
    binary32_laws::lemma_signs(threshold, three);
    if threshold.below(rate.absolute()) {
        lemma_excess(rate, threshold);
        reveal(Binary32::sum);
        reveal(Binary32::quotient);
        let x = rate.absolute().difference(threshold);
        let range = threshold.product(three);
        if x.finite() && range.finite() {
            binary32_laws::lemma_quotient_is_a_number(x, range);
        }
        let y = x.quotient(range);
        assert(!y.nan());
        if y.finite() {
            let total = one.units() + y.opposite().units();
            binary32_laws::lemma_rounded(true, (-total) as nat, 1);
            binary32_laws::lemma_rounded(false, total as nat, 1);
        }
    }
}

/// Up to the threshold the confidence is one.
pub proof fn law_calm_frames_are_trusted(
    rate: Binary32,
    threshold: Binary32,
    h_normalized: Binary32,
    norm_variance: Binary32,
)
    requires
        rate.absolute().at_most(threshold),
    ensures
        confidence(rate, threshold, h_normalized, norm_variance) == Binary32::whole(1),
{
    lemma_range();
}

/// The confidence lies between zero and one, and on a static scene it is at least
/// 0.85, whatever the divergence.
pub proof fn law_confidence_range(
    rate: Binary32,
    threshold: Binary32,
    h_normalized: Binary32,
    norm_variance: Binary32,
)
    requires
        !rate.nan(),
        threshold.finite(),
        Binary32::nil().below(threshold),
        rate.finite() || threshold.product(Binary32::whole(3)).finite(),
    ensures
        Binary32::nil().at_most(confidence(rate, threshold, h_normalized, norm_variance)),
        confidence(rate, threshold, h_normalized, norm_variance).at_most(Binary32::whole(1)),
        is_static(norm_variance, h_normalized) ==> Binary32::fraction(85, 100).at_most(
            confidence(rate, threshold, h_normalized, norm_variance),
        ),
{
    lemma_range();
    lemma_raw_is_a_number(rate, threshold);
}

/// For every genre the confidence lies between zero and one at every rate.
pub proof fn law_confidence_range_of_genres(
    genre: GenreMode,
    rate: Binary32,
    h_normalized: Binary32,
    norm_variance: Binary32,
)
    requires
        !rate.nan(),
    ensures
        ({
            let threshold = genre.divergence_threshold_spec();
            let c = confidence(rate, threshold, h_normalized, norm_variance);
            &&& Binary32::nil().at_most(c)
            &&& c.at_most(Binary32::whole(1))
            &&& is_static(norm_variance, h_normalized) ==> Binary32::fraction(85, 100).at_most(c)
        }),
{
    let threshold = genre.divergence_threshold_spec();
    crate::genre_governor::lemma_table_bits();
    binary32_laws::lemma_one();
    binary32_laws::lemma_whole(3);
    let three = Binary32::whole(3);
    binary32_laws::lemma_product_monotone(threshold, three, Binary32::whole(1), three);
    binary32_laws::lemma_times_one(three);
    law_confidence_range(rate, threshold, h_normalized, norm_variance);
}

/// Of two rates, the one farther from zero does not get the higher confidence.
pub proof fn law_confidence_falls(
    rate: Binary32,
    faster: Binary32,
    threshold: Binary32,
    h_normalized: Binary32,
    norm_variance: Binary32,
)
    requires
        rate.absolute().at_most(faster.absolute()),
        threshold.finite(),
        Binary32::nil().below(threshold),
        faster.finite() || threshold.product(Binary32::whole(3)).finite(),
    ensures
        confidence(faster, threshold, h_normalized, norm_variance).at_most(
            confidence(rate, threshold, h_normalized, norm_variance),
        ),
{
    lemma_range();
    lemma_raw_is_a_number(rate, threshold);
    lemma_raw_is_a_number(faster, threshold);
    let range = threshold.product(Binary32::whole(3));
    let x1 = rate.absolute().difference(threshold);
    let x2 = faster.absolute().difference(threshold);
    if threshold.below(rate.absolute()) && rate.absolute() != faster.absolute() {
        lemma_excess(rate, threshold);
        lemma_excess(faster, threshold);
        if faster.finite() {
            binary32_laws::lemma_sum_monotone(
                rate.absolute(),
                threshold.opposite(),
                faster.absolute(),
                threshold.opposite(),
            );
            binary32_laws::lemma_quotient_monotone(x1, x2, range);
        } else {
            binary32_laws::lemma_quotient_monotone(x1, x1, range);
            lemma_infinite_excess(faster, threshold);
        }
        binary32_laws::lemma_difference_from_one_falls(x1.quotient(range), x2.quotient(range));
    } else if threshold.below(faster.absolute()) && !threshold.below(rate.absolute()) {
        lemma_excess(faster, threshold);
        binary32_laws::lemma_signs(x2, range);
        binary32_laws::lemma_taken_from_one(x2.quotient(range));
    }
}

/// An infinite rate lies infinitely many ranges above the threshold.
proof fn lemma_infinite_excess(rate: Binary32, threshold: Binary32)
    requires
        rate.infinite(),
        threshold.finite(),
        threshold.product(Binary32::whole(3)).finite(),
        !threshold.product(Binary32::whole(3)).negative(),
    ensures
        rate.absolute().difference(threshold).quotient(threshold.product(Binary32::whole(3)))
            == Binary32::signed(false, 0x7F80_0000),
{
    reveal(Binary32::sum);
    reveal(Binary32::quotient);
}

/// From four times the threshold on, a scene that is not static gets no confidence.
pub proof fn law_hard_transitions_are_not_trusted(
    rate: Binary32,
    threshold: Binary32,
    h_normalized: Binary32,
    norm_variance: Binary32,
)
    requires
        !rate.nan(),
        threshold.finite(),
        Binary32::nil().below(threshold),
        rate.infinite() || rate.size() >= 4 * threshold.size(),
        rate.finite() || threshold.product(Binary32::whole(3)).finite(),
        !is_static(norm_variance, h_normalized),
    ensures
        confidence(rate, threshold, h_normalized, norm_variance) == Binary32::nil(),
{
    lemma_range();
    lemma_raw_is_a_number(rate, threshold);
    let one = Binary32::whole(1);
    let size = rate.absolute();
    let range = threshold.product(Binary32::whole(3));
    let x = size.difference(threshold);
    if rate.finite() {
        binary32_laws::lemma_order_is_by_units(threshold, Binary32::nil());
        binary32_laws::lemma_order_is_by_units(Binary32::nil(), threshold);
        binary32_laws::lemma_order_is_by_units(size, threshold);
        lemma_excess(rate, threshold);
        binary32_laws::lemma_thrice(threshold, size);
        binary32_laws::lemma_quotient_at_least_one(x, range);
    } else {
        lemma_infinite_excess(rate, threshold);
    }
    binary32_laws::lemma_difference_from_one_falls(one, x.quotient(range));
    binary32_laws::lemma_nothing_left();
    binary32_laws::lemma_taken_from_one(x.quotient(range));
}

/// A ghosted frame is never interpolated from, nor is one without confidence; what
/// is interpolated freely has a confidence above 0.80.
pub proof fn law_modes(signal: Afmf2Signal)
    ensures
        signal.prior_frame_ghosted ==> signal.suggested_mode_spec() == "disabled"@,
        signal.confidence_scalar.at_most(Binary32::fraction(50, 100))
            ==> signal.suggested_mode_spec() == "disabled"@,
        signal.suggested_mode_spec() == "interpolate"@ ==> signal.reference_frame_ok_spec()
            && Binary32::fraction(80, 100).below(signal.confidence_scalar),
        signal.suggested_mode_spec() != "disabled"@ <==> signal.reference_frame_ok_spec(),
{
    reveal_strlit("disabled");
    reveal_strlit("interpolate");
    reveal_strlit("reduce_confidence");
    assert("disabled"@.len() == 8);
    assert("interpolate"@.len() == 11);
    assert("reduce_confidence"@.len() == 17);
}

} // verus!
