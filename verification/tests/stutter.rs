//! Frame time spikes and what is done about them.

use dvsm_spectral_io::{
    Binary32, CpuStutterGuard, FrameBudgetSplit, FrametimeSpikeDetector, StutterAction,
};

fn number(x: f32) -> Binary32 {
    Binary32::from_bits(x.to_bits())
}

fn value(x: Binary32) -> f32 {
    f32::from_bits(x.to_bits())
}

#[test]
fn spikes_need_a_baseline() {
    let mut d = FrametimeSpikeDetector::new();
    assert_eq!(value(d.mean_us()), 0.0);
    assert_eq!(value(d.p99_us()), 0.0);
    for _ in 0..14 {
        assert!(!d.update(number(4000.0)));
    }
    assert!(!d.update(number(90000.0)));
    assert_eq!(d.spike_count, 0);
    assert!(d.update(number(90000.0)));
    assert_eq!(d.spike_count, 1);
    assert!(d.spike_this_frame);
    assert!(!d.update(number(4000.0)));
    assert!(!d.spike_this_frame);
    assert_eq!(d.spike_count, 1);
    d.reset_spike_count();
    assert_eq!(d.spike_count, 0);
}

#[test]
fn spike_is_above_twice_the_mean() {
    let mut d = FrametimeSpikeDetector::new();
    for _ in 0..63 {
        d.update(number(1.0));
    }
    // (63 + x) / 64 == x / 2 at x == 63 / 31.
    assert!(!d.update(number(2.03)));
    let mut d = FrametimeSpikeDetector::new();
    for _ in 0..63 {
        d.update(number(1.0));
    }
    assert!(d.update(number(2.04)));
    assert_eq!(value(d.mean_us()), (63.0_f32 + 2.04) / 64.0);
}

#[test]
fn window_forgets_old_frames() {
    let mut d = FrametimeSpikeDetector::new();
    for i in 0..200 {
        d.update(number(i as f32));
    }
    // The last 64 frames are 136 to 199.
    assert_eq!(value(d.p99_us()), 199.0);
    assert_eq!(value(d.mean_us()), (136.0 + 199.0) / 2.0);
    for _ in 0..64 {
        d.update(number(10.0));
    }
    assert_eq!(value(d.p99_us()), 10.0);
    assert_eq!(value(d.mean_us()), 10.0);
}

#[test]
fn percentile_agrees_with_sorting() {
    let mut d = FrametimeSpikeDetector::new();
    let mut state: u64 = 9;
    let mut frames: Vec<f32> = Vec::new();
    for _ in 0..150 {
        state = state.wrapping_mul(6364136223846793005).wrapping_add(1442695040888963407);
        let x = (state >> 40) as f32 / 1000.0;
        d.update(number(x));
        frames.push(x);
        let from = frames.len().saturating_sub(64);
        let mut window = frames[from..].to_vec();
        window.sort_by(|a, b| a.partial_cmp(b).unwrap());
        let rank = ((window.len() as f32 * 0.99) as usize).min(window.len() - 1);
        assert_eq!(value(d.p99_us()), window[rank]);
    }
}

#[test]
fn percentile_of_one_frame_needs_no_order() {
    let mut d = FrametimeSpikeDetector::new();
    d.update(number(f32::NAN));
    assert!(d.p99_us().is_nan());
}

#[test]
fn frames_without_time_are_no_spikes() {
    let mut d = FrametimeSpikeDetector::new();
    for _ in 0..40 {
        assert!(!d.update(number(0.0)));
    }
    assert_eq!(value(d.mean_us()), 0.0);
}

#[test]
fn share_is_smoothed() {
    let mut split = FrameBudgetSplit::default();
    assert!(!split.cpu_bound);
    split.update(9, 10);
    let first = 0.2_f32 * (9.0_f32 / 10.0) + 0.8_f32 * 0.0;
    assert_eq!(value(split.cpu_fraction), first);
    split.update(3, 10);
    assert_eq!(value(split.cpu_fraction), 0.2_f32 * (3.0_f32 / 10.0) + 0.8_f32 * first);
    let before = value(split.cpu_fraction);
    split.update(5, 0);
    assert_eq!(value(split.cpu_fraction), before);
    for _ in 0..100 {
        split.update(7, 7);
        assert!(value(split.cpu_fraction) <= 1.0);
    }
    assert!(split.cpu_bound);
    assert!(value(split.cpu_fraction) > 0.99);
}

#[test]
fn cpu_bound_above_seventy_percent() {
    let mut split = FrameBudgetSplit::default();
    let mut frames = 0;
    while !split.cpu_bound {
        split.update(10, 10);
        frames += 1;
    }
    // 1 - 0.8^n > 0.70 from the sixth frame on.
    assert_eq!(frames, 6);
}

#[test]
fn actions_of_the_guard() {
    let mut guard = CpuStutterGuard::new();
    for _ in 0..20 {
        assert_eq!(guard.update(number(4000.0), 1, 10), StutterAction::Nominal);
    }
    assert_eq!(guard.update(number(40000.0), 1, 10), StutterAction::ReducePrefetch);
    assert_eq!(guard.cpu_bound_run(), 0);
    while guard.cpu_bound_run() == 0 {
        guard.update(number(4000.0), 10, 10);
    }
    assert_eq!(guard.update(number(40000.0), 10, 10), StutterAction::SuspendPrefetch);
    assert!(!guard.is_elevated());
    while guard.cpu_bound_run() < 8 {
        assert_eq!(guard.update(number(4000.0), 10, 10), StutterAction::Nominal);
    }
    assert!(!guard.is_elevated());
    assert_eq!(guard.update(number(40000.0), 10, 10), StutterAction::ElevateThreadPriority);
    assert_eq!(guard.cpu_bound_run(), 9);
    assert!(guard.is_elevated());
    // Elevation outlasts the spike and ends with the run.
    assert_eq!(guard.update(number(4000.0), 10, 10), StutterAction::Nominal);
    assert!(guard.is_elevated());
    while guard.cpu_bound_run() > 0 {
        assert!(guard.is_elevated());
        guard.update(number(4000.0), 0, 10);
    }
    assert!(!guard.is_elevated());
    assert!(!guard.budget.cpu_bound);
    assert_eq!(guard.detector.spike_count, 3);
}

#[test]
fn suspends_on_the_eighth_frame_of_a_run() {
    let mut guard = CpuStutterGuard::new();
    for _ in 0..20 {
        guard.update(number(4000.0), 0, 10);
    }
    while guard.cpu_bound_run() < 7 {
        guard.update(number(4000.0), 10, 10);
    }
    assert_eq!(guard.update(number(40000.0), 10, 10), StutterAction::SuspendPrefetch);
    assert_eq!(guard.cpu_bound_run(), 8);
    assert!(!guard.is_elevated());
}
