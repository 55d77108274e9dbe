//! The table of genres.

use dvsm_spectral_io::{Binary32, FrameGenMode, GenreGovernor, GenreMode};

fn number(x: f32) -> Binary32 {
    Binary32::from_bits(x.to_bits())
}

fn value(x: Binary32) -> f32 {
    f32::from_bits(x.to_bits())
}

const GENRES: [GenreMode; 4] = [
    GenreMode::FpsCompetitive,
    GenreMode::FpsTactical,
    GenreMode::MmoOpenWorld,
    GenreMode::MmoInstance,
];

#[test]
fn table_values() {
    let ghost = [0.03_f32, 0.04, 0.06, 0.05];
    let divergence = [0.22_f32, 0.18, 0.12, 0.15];
    let salience = [0.35_f32, 0.30, 0.18, 0.22];
    let ttl = [8u16, 12, 32, 20];
    let floor = [0.75_f32, 0.67, 0.50, 0.60];
    let fps = [true, true, false, false];
    for i in 0..4 {
        let g = GENRES[i];
        assert_eq!(value(g.ghost_threshold()), ghost[i]);
        assert_eq!(value(g.divergence_threshold()), divergence[i]);
        assert_eq!(value(g.salience_threshold()), salience[i]);
        assert_eq!(g.prefetch_ttl_frames(), ttl[i]);
        assert_eq!(value(g.resolution_floor()), floor[i]);
        assert_eq!(g.is_fps(), fps[i]);
    }
}

#[test]
fn profiles() {
    let dt = [1.0_f32 / 360.0, 1.0 / 240.0, 1.0 / 120.0, 1.0 / 120.0];
    let lambda = [0.14_f32, 0.12, 0.09, 0.11];
    let alpha = [0.10_f32, 0.08, 0.06, 0.07];
    let beta = [0.88_f32, 0.91, 0.97, 0.94];
    for i in 0..4 {
        let p = GENRES[i].wattage_profile(number(25.0));
        assert_eq!(value(p.tdp_watts), 25.0);
        assert_eq!(value(p.dt), dt[i]);
        assert_eq!(value(p.lambda), lambda[i]);
        assert_eq!(value(p.alpha), alpha[i]);
        assert_eq!(value(p.e_target), 1.0);
        assert_eq!(value(p.ema_beta), beta[i]);
        assert_eq!(p.frame_gen, FrameGenMode::Interpolate);
        assert!(p.vrs_enabled);
    }
}

#[test]
fn shooters_trade_smoothness_for_latency() {
    for shooter in [GenreMode::FpsCompetitive, GenreMode::FpsTactical] {
        for world in [GenreMode::MmoOpenWorld, GenreMode::MmoInstance] {
            assert!(value(shooter.ghost_threshold()) < value(world.ghost_threshold()));
            assert!(value(shooter.divergence_threshold()) > value(world.divergence_threshold()));
            assert!(value(shooter.salience_threshold()) > value(world.salience_threshold()));
            assert!(value(shooter.resolution_floor()) > value(world.resolution_floor()));
            assert!(shooter.prefetch_ttl_frames() < world.prefetch_ttl_frames());
        }
    }
}

#[test]
fn four_display_frames_on_a_stable_camera_in_online_worlds() {
    for g in GENRES {
        let stable = g.afmf2_target_multiplier(number(0.019));
        let moving = g.afmf2_target_multiplier(number(0.02));
        let unknown = g.afmf2_target_multiplier(number(f32::NAN));
        assert_eq!(stable, if g.is_fps() { 2 } else { 4 });
        assert_eq!(moving, 2);
        assert_eq!(unknown, 2);
    }
    assert_eq!(GenreMode::MmoInstance.afmf2_target_multiplier(number(0.01)), 4);
    assert_eq!(GenreMode::MmoOpenWorld.afmf2_target_multiplier(number(0.01)), 4);
    assert_eq!(GenreMode::FpsTactical.afmf2_target_multiplier(number(0.01)), 2);
}

#[test]
fn switching_keeps_the_ceiling_and_nothing_else() {
    let mut governor = GenreGovernor::new(GenreMode::MmoOpenWorld, number(17.5));
    assert_eq!(value(governor.profile.lambda), 0.09);
    governor.profile.lambda = number(5.0);
    governor.switch_mode(GenreMode::FpsTactical);
    governor.switch_mode(GenreMode::MmoInstance);
    assert_eq!(governor.mode, GenreMode::MmoInstance);
    assert_eq!(value(governor.profile.tdp_watts), 17.5);
    assert_eq!(value(governor.profile.lambda), 0.11);
    assert_eq!(value(governor.profile.ema_beta), 0.94);
}
