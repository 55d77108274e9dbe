//! Confidence signal and render budget.

use dvsm_spectral_io::{Afmf2Bridge, Afmf2Signal, Binary32, GenreMode, RenderBudgetAllocator};

fn number(x: f32) -> Binary32 {
    Binary32::from_bits(x.to_bits())
}

fn value(x: Binary32) -> f32 {
    f32::from_bits(x.to_bits())
}

fn confidence(rate: f32, threshold: f32, h: f32, variance: f32) -> f32 {
    let s = Afmf2Signal::compute(
        number(rate),
        number(threshold),
        4,
        number(h),
        number(variance),
        number(0.0),
        number(0.05),
        &[0u8; 16],
    );
    value(s.confidence_scalar)
}

#[test]
fn confidence_falls_from_one_to_zero() {
    assert_eq!(confidence(0.0, 0.15, 0.5, 0.5), 1.0);
    assert_eq!(confidence(0.15, 0.15, 0.5, 0.5), 1.0);
    assert_eq!(confidence(-0.15, 0.15, 0.5, 0.5), 1.0);
    assert!((confidence(0.30, 0.15, 0.5, 0.5) - 0.67).abs() < 0.01);
    assert_eq!(confidence(0.30, 0.15, 0.5, 0.5), 1.0 - (0.30_f32 - 0.15) / (0.15_f32 * 3.0));
    assert_eq!(confidence(0.62, 0.15, 0.5, 0.5), 0.0);
    assert_eq!(confidence(-5.0, 0.15, 0.5, 0.5), 0.0);
    let mut last = 1.0;
    for i in 0..200 {
        let c = confidence(i as f32 / 100.0, 0.22, 0.5, 0.5);
        assert!(c <= last && (0.0..=1.0).contains(&c));
        last = c;
    }
}

#[test]
fn confidence_is_zero_at_four_thresholds() {
    for threshold in [0.12_f32, 0.15, 0.18, 0.22, 0.5] {
        assert_eq!(confidence(4.0 * threshold, threshold, 0.5, 0.5), 0.0);
    }
}

#[test]
fn static_scenes_keep_a_floor() {
    assert_eq!(confidence(5.0, 0.15, 0.29, 0.019), 0.85);
    assert_eq!(confidence(5.0, 0.15, 0.30, 0.019), 0.0);
    assert_eq!(confidence(5.0, 0.15, 0.29, 0.02), 0.0);
    assert_eq!(confidence(0.1, 0.15, 0.29, 0.019), 1.0);
}

#[test]
fn confidence_without_a_number() {
    assert!(confidence(f32::NAN, 0.15, 0.5, 0.5).is_nan());
    assert_eq!(confidence(f32::INFINITY, 0.15, 0.5, 0.5), 0.0);
}

#[test]
fn signal_passes_on_what_it_gets() {
    let mut bridge = Afmf2Bridge::new();
    let s = bridge.build(
        number(0.1),
        3,
        number(0.4),
        number(0.3),
        number(0.01),
        GenreMode::FpsTactical,
    );
    assert_eq!(s.tile_confidence, [0u8; 16]);
    let mut hints = [1u8; 16];
    hints[5] = 2;
    bridge.update_vrs(&hints);
    let s = bridge.build(
        number(-0.2),
        3,
        number(0.4),
        number(0.3),
        number(0.05),
        GenreMode::FpsTactical,
    );
    assert_eq!(s.tile_confidence, hints);
    assert_eq!(s.lead_frames, 3);
    assert_eq!(value(s.h_normalized), 0.4);
    assert!(s.transition_imminent);
    assert!(s.prior_frame_ghosted);
    let expected = 1.0 - (0.2_f32 - 0.18) / (0.18_f32 * 3.0);
    assert_eq!(value(s.confidence_scalar), expected);
    // At the peak nothing is imminent; at the threshold nothing is ghosted.
    let s = bridge.build(
        number(0.2),
        0,
        number(0.4),
        number(0.3),
        number(0.04),
        GenreMode::FpsTactical,
    );
    assert!(!s.transition_imminent);
    assert!(!s.prior_frame_ghosted);
    let s = bridge.build(
        number(0.18),
        9,
        number(0.4),
        number(0.3),
        number(0.04),
        GenreMode::FpsTactical,
    );
    assert!(!s.transition_imminent);
}

#[test]
fn modes_of_the_driver() {
    let mut s = Afmf2Signal::default();
    assert_eq!(s.suggested_mode(), "disabled");
    s.confidence_scalar = number(0.5);
    assert!(!s.reference_frame_ok());
    assert_eq!(s.suggested_mode(), "disabled");
    s.confidence_scalar = number(0.51);
    assert!(s.reference_frame_ok());
    assert_eq!(s.suggested_mode(), "reduce_confidence");
    s.confidence_scalar = number(0.8);
    assert_eq!(s.suggested_mode(), "reduce_confidence");
    s.confidence_scalar = number(0.81);
    assert_eq!(s.suggested_mode(), "interpolate");
    s.prior_frame_ghosted = true;
    assert!(!s.reference_frame_ok());
    assert_eq!(s.suggested_mode(), "disabled");
}

#[test]
fn scale_follows_the_formula() {
    let mut budget = RenderBudgetAllocator::new();
    let out = budget.tick(
        number(0.3),
        5,
        number(0.2),
        number(0.9),
        number(0.5),
        GenreMode::MmoOpenWorld,
    );
    let transition = (0.3_f32 / (0.12_f32 * 3.0)).min(1.0);
    let thermal = (1.0 - 0.9_f32).clamp(0.0, 1.0);
    let combined = transition * 0.70 + thermal * 0.30;
    let target = (1.0 - combined * (1.0 - 0.50_f32)).max(0.50);
    let expected = (0.80_f32 * 1.0 + (1.0 - 0.80_f32) * target).max(0.50);
    assert_eq!(value(out.resolution_scale), expected);
    assert_eq!(out.transition_lead_frames, 5);
    assert_eq!(out.afmf2_multiplier, 2);
    assert!(!out.skip_frame);
}

#[test]
fn scale_settles_between_the_floor_and_native() {
    for genre in [
        GenreMode::FpsCompetitive,
        GenreMode::FpsTactical,
        GenreMode::MmoOpenWorld,
        GenreMode::MmoInstance,
    ] {
        let mut budget = RenderBudgetAllocator::new();
        let mut last = 1.0;
        for _ in 0..200 {
            let out = budget.tick(
                number(9.0),
                5,
                number(0.08),
                number(0.0),
                number(0.5),
                genre,
            );
            let scale = value(out.resolution_scale);
            assert!(scale <= last && scale >= value(genre.resolution_floor()));
            last = scale;
        }
        assert!(last - value(genre.resolution_floor()) < 0.001);
        for _ in 0..200 {
            let out = budget.tick(
                number(9.0),
                1,
                number(0.08),
                number(0.0),
                number(0.5),
                genre,
            );
            last = value(out.resolution_scale);
            assert!(last <= 1.0);
        }
        assert!(last > 0.999);
    }
}

#[test]
fn fast_shooters_render_natively() {
    let mut budget = RenderBudgetAllocator::new();
    for _ in 0..50 {
        let out = budget.tick(
            number(9.0),
            30,
            number(0.11),
            number(0.0),
            number(0.5),
            GenreMode::FpsCompetitive,
        );
        assert_eq!(value(out.resolution_scale), 1.0);
    }
}

#[test]
fn skips_are_spaced_out() {
    let mut budget = RenderBudgetAllocator::new();
    let mut skips = Vec::new();
    for _ in 0..6 {
        let out = budget.tick(
            number(0.0),
            0,
            number(0.01),
            number(1.0),
            number(0.2),
            GenreMode::MmoOpenWorld,
        );
        skips.push(out.skip_frame);
        assert_eq!(out.afmf2_multiplier, 4);
    }
    assert_eq!(skips, vec![true, false, true, false, true, false]);
}

#[test]
fn frames_that_are_not_skipped() {
    let skip = |variance: f32, lead: u32, h: f32, genre: GenreMode| {
        let mut budget = RenderBudgetAllocator::new();
        let out = budget.tick(number(0.0), lead, number(variance), number(1.0), number(h), genre);
        out.skip_frame
    };
    assert!(skip(0.05, 0, 0.70, GenreMode::FpsTactical));
    assert!(skip(0.05, 4, 0.70, GenreMode::MmoInstance));
    assert!(!skip(0.01, 0, 0.2, GenreMode::FpsCompetitive));
    assert!(!skip(0.051, 0, 0.2, GenreMode::FpsTactical));
    assert!(!skip(0.01, 1, 0.2, GenreMode::FpsTactical));
    assert!(!skip(0.01, 3, 0.2, GenreMode::FpsTactical));
    assert!(!skip(0.01, 0, 0.71, GenreMode::FpsTactical));
}

#[test]
fn fast_shooters_climb_back_to_native() {
    for genre in [GenreMode::FpsCompetitive, GenreMode::FpsTactical] {
        let mut budget = RenderBudgetAllocator::new();
        let mut last = 1.0;
        for _ in 0..60 {
            let out =
                budget.tick(number(9.0), 30, number(0.08), number(0.0), number(0.5), genre);
            last = value(out.resolution_scale);
        }
        assert!(last < 0.8);
        for _ in 0..200 {
            let out =
                budget.tick(number(9.0), 30, number(0.11), number(0.0), number(0.5), genre);
            let scale = value(out.resolution_scale);
            assert!(scale >= last - 1e-6 && scale <= 1.0);
            last = scale;
        }
        assert!(last > 0.999);
    }
}

#[test]
fn scale_moves_a_fifth_of_its_range_at_most() {
    for genre in [
        GenreMode::FpsCompetitive,
        GenreMode::FpsTactical,
        GenreMode::MmoOpenWorld,
        GenreMode::MmoInstance,
    ] {
        let step = 0.2 * (1.0 - value(genre.resolution_floor())) + 1e-6;
        let mut budget = RenderBudgetAllocator::new();
        let mut last = 1.0;
        for frame in 0..300u32 {
            let lead = if frame / 7 % 2 == 0 { 9 } else { 0 };
            let out =
                budget.tick(number(9.0), lead, number(0.08), number(0.0), number(0.5), genre);
            let scale = value(out.resolution_scale);
            assert!((scale - last).abs() <= step);
            last = scale;
        }
    }
}

#[test]
fn instances_get_four_display_frames_on_a_stable_camera() {
    let mut budget = RenderBudgetAllocator::new();
    let genre = GenreMode::MmoInstance;
    let out = budget.tick(number(0.0), 0, number(0.01), number(1.0), number(0.2), genre);
    assert_eq!(out.afmf2_multiplier, 4);
    let out = budget.tick(number(0.0), 0, number(0.03), number(1.0), number(0.2), genre);
    assert_eq!(out.afmf2_multiplier, 2);
}
