//! Invariants of the spectral I/O layer.

use dvsm_spectral_io::{
    h_max, mode_energies, Binary32, CompressionFormat, GhostClass, GovFrameResult, MarkovSalience,
    ModeClassifier, PrefetchJob, PrefetchQueue, SpectralEntropyState, SpectralIOGovernor,
    BUCKET_COUNT, DIM,
};

fn number(x: f32) -> Binary32 {
    Binary32::from_bits(x.to_bits())
}

fn value(x: Binary32) -> f32 {
    f32::from_bits(x.to_bits())
}

fn vector(z: &[f32; DIM]) -> [Binary32; DIM] {
    let mut r = [number(0.0); DIM];
    for k in 0..DIM {
        r[k] = number(z[k]);
    }
    r
}

fn logarithms(z: &[Binary32; DIM], norm_sq: Binary32) -> [Binary32; DIM] {
    let energies = mode_energies(z, norm_sq);
    let mut r = [number(0.0); DIM];
    for k in 0..DIM {
        r[k] = number(value(energies[k]).log2());
    }
    r
}

fn update(e: &mut SpectralEntropyState, z: &[f32; DIM], norm_sq: f32, dt: f32) -> bool {
    let v = vector(z);
    let logs = logarithms(&v, number(norm_sq));
    e.update(&v, number(norm_sq), number(dt), &logs)
}

fn tick(gov: &mut SpectralIOGovernor, z: &[f32; DIM], norm_sq: f32, dt: f32) -> GovFrameResult {
    let v = vector(z);
    let logs = logarithms(&v, number(norm_sq));
    gov.tick(&v, number(norm_sq), number(dt), &logs)
}

#[test]
fn inv_s1_entropy_bounds() {
    let mut e = SpectralEntropyState::default();
    let dt = 1.0 / 240.0;

    let v = 1.0 / (DIM as f32).sqrt();
    let z_uniform = [v; DIM];
    update(&mut e, &z_uniform, 1.0, dt);
    let h = value(e.h_current);
    assert!((h - value(h_max())).abs() < 0.01, "uniform H should be ~4.0, got {}", h);

    let mut z_spike = [0.0_f32; DIM];
    z_spike[0] = 1.0;
    update(&mut e, &z_spike, 1.0, dt);
    let h = value(e.h_current);
    assert!(h < 0.01, "spike H should be ~0, got {}", h);

    assert!(h >= 0.0 && h <= value(h_max()) + 0.01);
}

#[test]
fn inv_s2_ghost_classifier_ordering() {
    let mut mc = ModeClassifier::default();
    for _ in 0..100 {
        let mut z = [0.0_f32; DIM];
        z[0] = 0.5;
        z[1] = 0.0;
        mc.update(&vector(&z));
    }
    for i in 0..100u32 {
        let mut z = [0.0_f32; DIM];
        z[0] = 0.5;
        z[2] = if i % 2 == 0 { 0.8 } else { 0.1 };
        mc.update(&vector(&z));
    }
    assert_eq!(mc.classify(0), GhostClass::Echo, "stable mode should be Echo");
    assert_eq!(mc.classify(1), GhostClass::Collapsed, "zero mode should be Collapsed");
    assert!(mc.mip_bias(2) >= mc.mip_bias(0), "Diffuse bias should be >= Echo bias");
    assert_eq!(mc.mip_bias(1), 2, "Collapsed should have bias=2");
}

#[test]
fn inv_s3_markov_salience_normalization() {
    let mut ms = MarkovSalience::new();
    for i in 0..200u32 {
        ms.observe(number((i % 8) as f32 / 8.0 + 0.05));
    }
    let s = ms.salience();
    let sum: f32 = s.iter().map(|x| value(*x)).sum();
    assert!((sum - 1.0).abs() < 0.01, "salience should sum to 1.0, got {}", sum);
    assert_eq!(s.len(), BUCKET_COUNT);
}

#[test]
fn inv_s4_queue_ttl_expiry() {
    let mut q = PrefetchQueue::new();
    q.enqueue(PrefetchJob {
        group_id: 0,
        priority: number(1.0),
        ttl_frames: 1,
        format_hint: CompressionFormat::BC7,
        _pad: 0,
    });
    q.enqueue(PrefetchJob {
        group_id: 1,
        priority: number(0.5),
        ttl_frames: 10,
        format_hint: CompressionFormat::BC7,
        _pad: 0,
    });
    assert_eq!(q.len(), 2);
    q.tick_ttl();
    assert_eq!(q.len(), 1, "ttl=0 job should expire");
    let remaining = q.dequeue().unwrap();
    assert_eq!(remaining.group_id, 1);
}

#[test]
fn inv_s5_governor_trigger_on_spike() {
    let mut gov = SpectralIOGovernor::new(16);
    let dt = 1.0 / 240.0;

    let v = 1.0 / (DIM as f32).sqrt();
    let z_uniform = [v; DIM];
    for _ in 0..10 {
        tick(&mut gov, &z_uniform, 1.0, dt);
    }

    let mut z_spike = [0.001_f32; DIM];
    z_spike[0] = 0.999;
    let norm_sq: f32 = z_spike.iter().map(|x| x * x).sum();
    let result = tick(&mut gov, &z_spike, norm_sq, dt);

    assert!(
        value(result.divergence_rate).abs() > 0.0,
        "divergence should be nonzero after entropy spike"
    );
}
