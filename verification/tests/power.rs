//! Power telemetry and profile patching.

use dvsm_spectral_io::{
    AllyXPowerReader, Binary32, FrameGenMode, GenreMode, PowerEvent, PowerTelemetrySample,
    ProfilePatcher, SupervisorParamsGpu,
};

fn number(x: f32) -> Binary32 {
    Binary32::from_bits(x.to_bits())
}

fn value(x: Binary32) -> f32 {
    f32::from_bits(x.to_bits())
}

fn reading(watts: f32, gpu: f32, cpu: f32) -> PowerTelemetrySample {
    PowerTelemetrySample {
        actual_watts: number(watts),
        gpu_temp_c: number(gpu),
        cpu_temp_c: number(cpu),
        tj_max_c: number(100.0),
        on_battery: false,
        timestamp_ns: 7,
    }
}

#[test]
fn headroom_goes_by_the_hotter_die() {
    assert_eq!(value(reading(25.0, 65.0, 68.0).thermal_headroom_c()), 32.0);
    assert_eq!(value(reading(25.0, 91.5, 68.0).thermal_headroom_c()), 8.5);
    assert_eq!(value(reading(25.0, 103.0, 68.0).thermal_headroom_c()), 0.0);
}

#[test]
fn budget_is_the_clamped_share_of_the_ceiling() {
    assert_eq!(value(reading(12.5, 60.0, 60.0).dispatch_budget(number(25.0))), 0.5);
    assert_eq!(value(reading(40.0, 60.0, 60.0).dispatch_budget(number(25.0))), 1.0);
    assert_eq!(value(reading(-3.0, 60.0, 60.0).dispatch_budget(number(25.0))), 0.0);
    assert_eq!(value(reading(25.0, 60.0, 60.0).dispatch_budget(number(0.0))), 0.0);
    assert_eq!(value(reading(25.0, 60.0, 60.0).dispatch_budget(number(-1.0))), 0.0);
}

#[test]
fn default_reading_is_zero() {
    let s = PowerTelemetrySample::default();
    assert_eq!(value(s.actual_watts), 0.0);
    assert_eq!(s.timestamp_ns, 0);
    assert!(!s.on_battery);
    let p = SupervisorParamsGpu::default();
    assert_eq!(value(p.dispatch_budget), 0.0);
    assert_eq!(p.frame_index, 0);
}

#[test]
fn reader_polls_every_sixteenth_frame() {
    let mut reader = AllyXPowerReader::new_ally_x_z2();
    assert_eq!(reader.poll_interval_frames, 16);
    assert_eq!(value(reader.tj_max_c), 100.0);
    for frame in 1..=48u64 {
        let s = reader.sample(1000 * frame);
        let polled = frame / 16 * 16;
        assert_eq!(s.timestamp_ns, 1000 * polled);
        assert_eq!(value(s.actual_watts), 25.0);
        if polled == 0 {
            assert_eq!(value(s.gpu_temp_c), 60.0);
            assert_eq!(value(s.cpu_temp_c), 60.0);
        } else {
            assert_eq!(value(s.gpu_temp_c), 65.0);
            assert_eq!(value(s.cpu_temp_c), 68.0);
        }
        assert_eq!(value(s.tj_max_c), 100.0);
    }
}

#[test]
fn reader_without_an_interval_polls_every_frame() {
    let mut reader = AllyXPowerReader::new(number(95.0));
    reader.poll_interval_frames = 0;
    assert_eq!(reader.sample(5).timestamp_ns, 5);
    assert_eq!(reader.sample(6).timestamp_ns, 6);
    assert_eq!(value(reader.sample(7).tj_max_c), 95.0);
}

#[test]
fn patch_scales_dissipation_and_backreaction() {
    let base = GenreMode::FpsTactical.wattage_profile(number(25.0));
    let mut patcher = ProfilePatcher::new(base);
    let mut profile = base;
    assert!(patcher.patch(&mut profile, &reading(25.0, 60.0, 60.0)).is_none());
    assert_eq!(value(profile.lambda), 0.12);
    assert_eq!(value(profile.alpha), 0.08);

    let event = patcher.patch(&mut profile, &reading(0.0, 60.0, 60.0)).unwrap();
    assert_eq!(value(profile.lambda), 0.12 * 0.5);
    assert_eq!(value(profile.alpha), 0.0);
    assert_eq!(value(event.prev_budget), 1.0);
    assert_eq!(value(event.new_budget), 0.0);
    assert_eq!(value(event.thermal_headroom_c), 40.0);

    let event = patcher.patch(&mut profile, &reading(10.0, 60.0, 60.0)).unwrap();
    assert_eq!(value(event.prev_budget), 0.0);
    assert_eq!(value(event.new_budget), 10.0_f32 / 25.0);
    assert_eq!(value(profile.lambda), 0.12_f32 * (0.5 + 0.5 * (10.0_f32 / 25.0)));
    assert_eq!(value(profile.alpha), 0.08_f32 * (10.0_f32 / 25.0));
    // The rest of the profile stays.
    assert_eq!(value(profile.dt), 1.0_f32 / 240.0);
    assert_eq!(value(profile.ema_beta), 0.91);
    assert_eq!(profile.frame_gen, FrameGenMode::Interpolate);
}

#[test]
fn small_changes_of_the_budget_make_no_event() {
    let base = GenreMode::MmoOpenWorld.wattage_profile(number(20.0));
    let mut patcher = ProfilePatcher::new(base);
    let mut profile = base;
    assert!(patcher.patch(&mut profile, &reading(19.0, 60.0, 60.0)).is_none());
    assert!(patcher.patch(&mut profile, &reading(18.2, 60.0, 60.0)).is_none());
    // Since the last event, not since the last frame.
    let event = patcher.patch(&mut profile, &reading(17.0, 60.0, 60.0)).unwrap();
    assert_eq!(value(event.prev_budget), 1.0);
    assert!(patcher.patch(&mut profile, &reading(18.0, 60.0, 60.0)).is_none());
}

#[test]
fn patched_values_never_exceed_the_base() {
    let base = GenreMode::FpsCompetitive.wattage_profile(number(30.0));
    let mut patcher = ProfilePatcher::new(base);
    let mut profile = base;
    for watts in 0..80 {
        patcher.patch(&mut profile, &reading(watts as f32, 60.0, 60.0));
        assert!(value(profile.lambda) <= value(base.lambda));
        assert!(value(profile.lambda) >= 0.5 * value(base.lambda));
        assert!(value(profile.alpha) <= value(base.alpha));
        assert!(value(profile.alpha) >= 0.0);
    }
}

#[test]
fn frame_generation_decisions() {
    let event = |budget: f32, headroom: f32, on_battery: bool| PowerEvent {
        prev_budget: number(1.0),
        new_budget: number(budget),
        thermal_headroom_c: number(headroom),
        on_battery,
    };
    assert!(event(0.59, 50.0, false).should_disable_frame_gen());
    assert!(event(0.9, 9.9, false).should_disable_frame_gen());
    assert!(!event(0.6, 10.0, false).should_disable_frame_gen());
    assert!(event(0.81, 20.5, false).should_enable_frame_gen());
    assert!(!event(0.81, 20.5, true).should_enable_frame_gen());
    assert!(!event(0.8, 20.5, false).should_enable_frame_gen());
    assert!(!event(0.81, 20.0, false).should_enable_frame_gen());
    for budget in 0..=20 {
        for headroom in 0..=40 {
            let e = event(budget as f32 / 20.0, headroom as f32, false);
            assert!(!(e.should_enable_frame_gen() && e.should_disable_frame_gen()));
        }
    }
}

#[test]
fn shader_parameters() {
    let mut profile = GenreMode::MmoInstance.wattage_profile(number(20.0));
    let p = SupervisorParamsGpu::build(
        &reading(15.0, 70.0, 75.0),
        &profile,
        number(0.25),
        number(0.05),
        16,
        99,
    );
    assert_eq!(value(p.actual_watts), 15.0);
    assert_eq!(value(p.tdp_ceiling), 20.0);
    assert_eq!(value(p.thermal_headroom_c), 25.0);
    assert_eq!(value(p.dispatch_budget), 0.75);
    assert_eq!(p.vrs_enabled, 1);
    assert_eq!(p.vrs_tile_count, 16);
    assert_eq!(value(p.norm_variance), 0.25);
    assert_eq!(value(p.ghost_threshold), 0.05);
    assert_eq!(p.frame_index, 99);
    assert_eq!(p._pad, 0);
    profile.vrs_enabled = false;
    let p = SupervisorParamsGpu::build(
        &reading(15.0, 70.0, 75.0),
        &profile,
        number(0.25),
        number(0.05),
        16,
        99,
    );
    assert_eq!(p.vrs_enabled, 0);
}
