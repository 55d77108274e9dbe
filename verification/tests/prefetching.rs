//! Entropy, mode classes, Markov chain, queue and governor.

use dvsm_spectral_io::markov_salience::GROUP_LIMIT;
use dvsm_spectral_io::prefetch_queue::QUEUE_CAPACITY;
use dvsm_spectral_io::{
    divergence_threshold, h_max, mode_energies, salience_threshold, Binary32, CompressionFormat,
    GhostClass, GovFrameResult, HeaplessVec, MarkovSalience, MipHintBuffer, ModeClassifier,
    PrefetchJob, PrefetchQueue, SpectralEntropyState, SpectralIOGovernor, DIM,
};

fn number(x: f32) -> Binary32 {
    Binary32::from_bits(x.to_bits())
}

fn value(x: Binary32) -> f32 {
    f32::from_bits(x.to_bits())
}

fn vector(z: &[f32; DIM]) -> [Binary32; DIM] {
    let mut r = [number(0.0); DIM];
    for k in 0..DIM {
        r[k] = number(z[k]);
    }
    r
}

fn logarithms(z: &[Binary32; DIM], norm_sq: Binary32) -> [Binary32; DIM] {
    let energies = mode_energies(z, norm_sq);
    let mut r = [number(0.0); DIM];
    for k in 0..DIM {
        r[k] = number(value(energies[k]).log2());
    }
    r
}

fn tick(gov: &mut SpectralIOGovernor, z: &[f32; DIM], norm_sq: f32, dt: f32) -> GovFrameResult {
    let v = vector(z);
    let logs = logarithms(&v, number(norm_sq));
    gov.tick(&v, number(norm_sq), number(dt), &logs)
}

fn job(group_id: u32, ttl_frames: u16) -> PrefetchJob {
    PrefetchJob {
        group_id,
        priority: number(0.5),
        ttl_frames,
        format_hint: CompressionFormat::ASTC,
        _pad: 0,
    }
}

fn groups_in(q: &mut PrefetchQueue) -> Vec<u32> {
    let mut r = Vec::new();
    while let Some(j) = q.dequeue() {
        r.push(j.group_id);
    }
    r
}

/// A state vector with all modes equal: the largest entropy.
const EVEN: [f32; DIM] = [0.25; DIM];

/// A state vector with one mode: no entropy.
const SINGLE: [f32; DIM] = [1.0, 0.0, 0.0, 0.0, 0.0, 0.0, 0.0, 0.0, 0.0, 0.0, 0.0, 0.0, 0.0, 0.0, 0.0, 0.0];

#[test]
fn constants() {
    assert_eq!(value(h_max()), 4.0);
    assert_eq!(value(divergence_threshold()), 0.15);
    assert_eq!(value(salience_threshold()), 0.25);
}

#[test]
fn energies_are_shares() {
    let e = mode_energies(&vector(&EVEN), number(1.0));
    for k in 0..DIM {
        assert_eq!(value(e[k]), 1.0 / 16.0);
    }
    let mut z = [0.0_f32; DIM];
    z[3] = -0.3;
    assert_eq!(value(mode_energies(&vector(&z), number(0.7))[3]), 0.3_f32 * 0.3 / 0.7);
}

#[test]
fn entropy_at_its_ends() {
    let mut e = SpectralEntropyState::default();
    let even = vector(&EVEN);
    let single = vector(&SINGLE);
    let one = number(1.0);
    let dt = number(0.5);
    assert!(e.update(&even, one, dt, &logarithms(&even, one)));
    assert_eq!(value(e.h_current), 4.0);
    assert_eq!(value(e.divergence_rate), 8.0);
    assert_eq!(value(e.peak_divergence), 8.0);
    assert_eq!(value(e.h_normalized()), 1.0);
    assert_eq!(e.estimated_lead_frames(), 0);
    assert!(e.update(&single, one, dt, &logarithms(&single, one)));
    assert_eq!(value(e.h_current), 0.0);
    assert_eq!(value(e.h_prev), 4.0);
    assert_eq!(value(e.divergence_rate), -8.0);
    assert_eq!(e.peak_age, 1);
}

#[test]
fn silence_triggers_nothing() {
    let mut e = SpectralEntropyState::default();
    let even = vector(&EVEN);
    let logs = logarithms(&even, number(1.0));
    e.update(&even, number(1.0), number(0.5), &logs);
    let before = e;
    assert!(!e.update(&even, number(9e-10), number(0.5), &logs));
    assert_eq!(value(e.h_current), 0.0);
    assert_eq!(value(e.divergence_rate), 0.0);
    assert_eq!(value(e.h_prev), value(before.h_prev));
    assert_eq!(value(e.peak_divergence), 8.0);
    assert_eq!(value(e.h_normalized()), 0.0);
}

#[test]
fn no_time_step_means_no_rate() {
    let mut e = SpectralEntropyState::default();
    let even = vector(&EVEN);
    let logs = logarithms(&even, number(1.0));
    assert!(!e.update(&even, number(1.0), number(0.0), &logs));
    assert_eq!(value(e.h_current), 4.0);
    assert_eq!(value(e.divergence_rate), 0.0);
}

#[test]
fn peaks_are_forgotten() {
    let mut e = SpectralEntropyState::default();
    let even = vector(&EVEN);
    let logs = logarithms(&even, number(1.0));
    e.update(&even, number(1.0), number(1.0), &logs);
    assert_eq!(value(e.peak_divergence), 4.0);
    for age in 1..=120 {
        e.update(&even, number(1.0), number(1.0), &logs);
        assert_eq!(e.peak_age, age);
        assert_eq!(value(e.peak_divergence), 4.0);
    }
    e.update(&even, number(1.0), number(1.0), &logs);
    assert_eq!(e.peak_age, 0);
    assert_eq!(value(e.peak_divergence), 0.0);
}

#[test]
fn lead_time_is_the_distance_to_the_peak_over_the_rate() {
    let mut e = SpectralEntropyState::default();
    e.peak_divergence = number(10.0);
    e.divergence_rate = number(-2.0);
    assert_eq!(e.estimated_lead_frames(), 4);
    e.divergence_rate = number(0.1);
    assert_eq!(e.estimated_lead_frames(), 60);
    e.divergence_rate = number(10.0);
    assert_eq!(e.estimated_lead_frames(), 0);
    e.divergence_rate = number(11.0);
    assert_eq!(e.estimated_lead_frames(), 0);
    e.divergence_rate = number(9e-7);
    assert_eq!(e.estimated_lead_frames(), 0);
}

#[test]
fn classifier_runs_welford() {
    let mut mc = ModeClassifier::default();
    let values = [0.3_f32, -0.5, 0.9];
    let (mut n, mut mean, mut m2) = (0u32, 0.0_f32, 0.0_f32);
    for v in values {
        let mut z = [0.0_f32; DIM];
        z[7] = v;
        mc.update(&vector(&z));
        let x = v.abs();
        n += 1;
        let d = x - mean;
        mean += d / n as f32;
        m2 += d * (x - mean);
    }
    assert_eq!(mc.n[7], 3);
    assert_eq!(value(mc.mean[7]), mean);
    assert_eq!(value(mc.m2[7]), m2);
    assert_eq!(mc.classify(7), GhostClass::Diffuse);
    assert_eq!(mc.mip_bias(7), 1);
    assert_eq!(mc.mip_bias(0), 2);
    assert_eq!(mc.global_mip_bias(), 2);
    let mut expected = [2u8; DIM];
    expected[7] = 1;
    assert_eq!(mc.mip_bias_array(), expected);
}

#[test]
fn steady_modes_are_echoes_or_collapsed() {
    let mut mc = ModeClassifier::default();
    let mut z = [0.0_f32; DIM];
    for k in 0..DIM {
        z[k] = 0.3 / (k + 1) as f32 / (k + 1) as f32;
    }
    z[1] = -z[1];
    for _ in 0..500 {
        mc.update(&vector(&z));
    }
    for k in 0..DIM {
        assert_eq!(value(mc.mean[k]), z[k].abs());
        assert_eq!(value(mc.m2[k]), 0.0);
        let expected = if z[k].abs() < 0.01 { GhostClass::Collapsed } else { GhostClass::Echo };
        assert_eq!(mc.classify(k), expected);
    }
    assert_eq!(mc.classify(0), GhostClass::Echo);
    assert_eq!(mc.classify(DIM - 1), GhostClass::Collapsed);
}

#[test]
fn class_biases() {
    assert_eq!(GhostClass::Echo.bias(), 0);
    assert_eq!(GhostClass::Diffuse.bias(), 1);
    assert_eq!(GhostClass::Collapsed.bias(), 2);
}

#[test]
fn buckets_divide_the_range_evenly() {
    for i in 0..800 {
        let h = i as f32 / 800.0;
        assert_eq!(MarkovSalience::bucket(number(h)), ((h * 8.0) as usize).min(7));
    }
    assert_eq!(MarkovSalience::bucket(number(0.125)), 1);
    assert_eq!(MarkovSalience::bucket(number(0.124_999)), 0);
    assert_eq!(MarkovSalience::bucket(number(1.0)), 7);
    assert_eq!(MarkovSalience::bucket(number(9.0)), 7);
    assert_eq!(MarkovSalience::bucket(number(-1.0)), 0);
    assert_eq!(MarkovSalience::bucket(number(f32::NAN)), 0);
    assert_eq!(MarkovSalience::bucket(number(f32::INFINITY)), 7);
}

#[test]
fn chain_counts_transitions() {
    let mut ms = MarkovSalience::new();
    assert_eq!(ms.prefetch_mask(), 0);
    for s in ms.salience() {
        assert_eq!(value(s), 0.125);
    }
    for h in [0.2_f32, 0.4, 0.2, 0.4, 0.2, 0.9, 0.2] {
        ms.observe(number(h));
    }
    // Buckets 1, 3, 1, 3, 1, 7, 1, from bucket 0.
    assert_eq!(ms.current_bucket, 1);
    assert_eq!(ms.transitions[0][1], 1);
    assert_eq!(ms.transitions[1][3], 2);
    assert_eq!(ms.transitions[1][7], 1);
    assert_eq!(ms.transitions[3][1], 2);
    assert_eq!(ms.total[1], 3);
    let s = ms.salience();
    assert_eq!(value(s[3]), 2.0_f32 / 3.0);
    assert_eq!(value(s[7]), 1.0_f32 / 3.0);
    assert_eq!(value(s[0]), 0.0);
    assert_eq!(ms.prefetch_mask(), 0b1000_1000);
    let copy = ms.clone();
    assert_eq!(copy.total, ms.total);
    assert_eq!(copy.transitions, ms.transitions);
}

#[test]
fn a_quarter_is_not_enough() {
    let mut ms = MarkovSalience::new();
    ms.current_bucket = 2;
    ms.transitions[2] = [0, 1, 1, 1, 1, 0, 0, 0];
    ms.total[2] = 4;
    assert_eq!(ms.prefetch_mask(), 0);
    assert_eq!(ms.prioritized_groups(64, 64).len(), 0);
    ms.transitions[2] = [0, 4_194_304, 4_194_303, 4_194_304, 4_194_304, 0, 0, 0];
    ms.total[2] = 16_777_215;
    assert_eq!(ms.prefetch_mask(), 0b0001_1010);
}

#[test]
fn groups_come_by_salience() {
    let mut ms = MarkovSalience::new();
    ms.current_bucket = 0;
    ms.transitions[0] = [0, 3, 0, 4, 0, 3, 0, 0];
    ms.total[0] = 10;
    assert_eq!(ms.prefetch_mask(), 0b0010_1010);
    let all = ms.prioritized_groups(16, 100);
    assert_eq!(all.as_slice(), &[3, 11, 1, 5, 9, 13]);
    let few = ms.prioritized_groups(16, 3);
    assert_eq!(few.as_slice(), &[3, 11, 1]);
    assert_eq!(ms.prioritized_groups(2, 4).as_slice(), &[1]);
    assert_eq!(ms.prioritized_groups(0, 4).len(), 0);
    assert_eq!(ms.prioritized_groups(16, 0).len(), 0);
    // Groups beyond the limit are not considered.
    let many = ms.prioritized_groups(1000, 1000);
    assert_eq!(many.len(), 24);
    assert!(many.as_slice().iter().all(|g| (*g as usize) < GROUP_LIMIT));
}

#[test]
fn short_vector_refuses_what_does_not_fit() {
    let mut v: HeaplessVec<u32, 3> = HeaplessVec::new();
    assert_eq!(v.len(), 0);
    assert_eq!(v.push(5), Ok(()));
    assert_eq!(v.push(6), Ok(()));
    assert_eq!(v.push(7), Ok(()));
    assert_eq!(v.push(8), Err(()));
    assert_eq!(v.as_slice(), &[5, 6, 7]);
    assert_eq!(v.len(), 3);
}

#[test]
fn queue_is_first_in_first_out() {
    let mut q = PrefetchQueue::new();
    assert!(q.is_empty());
    assert!(q.dequeue().is_none());
    for i in 0..5 {
        q.enqueue(job(i, 9));
    }
    assert!(!q.is_empty());
    assert_eq!(q.dequeue().unwrap().group_id, 0);
    q.enqueue(job(5, 9));
    assert_eq!(q.len(), 5);
    assert_eq!(groups_in(&mut q), vec![1, 2, 3, 4, 5]);
    assert!(q.is_empty());
}

#[test]
fn full_queue_drops_the_oldest() {
    let mut q = PrefetchQueue::new();
    for i in 0..40 {
        q.enqueue(job(i, 9));
    }
    assert_eq!(q.len(), QUEUE_CAPACITY);
    let expected: Vec<u32> = (8..40).collect();
    assert_eq!(groups_in(&mut q), expected);
}

#[test]
fn jobs_live_as_long_as_they_say() {
    let mut q = PrefetchQueue::new();
    for i in 0..30 {
        q.enqueue(job(i, (i % 6) as u16));
    }
    for ticks in 1..=6u16 {
        q.tick_ttl();
        let expected = 30 / 6 * (5usize.saturating_sub(ticks as usize));
        assert_eq!(q.len(), expected);
    }
    assert!(q.is_empty());
}

#[test]
fn full_queue_keeps_working_after_a_tick() {
    let mut q = PrefetchQueue::new();
    for i in 0..QUEUE_CAPACITY as u32 {
        q.enqueue(job(i, 5));
    }
    q.tick_ttl();
    assert_eq!(q.len(), QUEUE_CAPACITY);
    q.enqueue(job(99, 7));
    assert_eq!(q.len(), QUEUE_CAPACITY);
    let first = q.dequeue().unwrap();
    assert_eq!(first.group_id, 1);
    assert_eq!(first.ttl_frames, 4);
    let rest = groups_in(&mut q);
    assert_eq!(rest.last(), Some(&99));
    assert_eq!(rest.len(), QUEUE_CAPACITY - 1);
}

#[test]
fn mip_hints_describe_the_classifier() {
    let blank = MipHintBuffer::default();
    assert_eq!(blank.per_mode, [0u8; DIM]);
    assert_eq!(blank.global, 0);
    let mut mc = ModeClassifier::default();
    mc.update(&vector(&EVEN));
    let hints = MipHintBuffer::from_classifier(&mc, number(0.5));
    assert_eq!(hints.per_mode, [0u8; DIM]);
    assert_eq!(hints.global, 0);
    assert_eq!(hints.h_u8, 127);
    mc = ModeClassifier::default();
    mc.update(&vector(&SINGLE));
    let hints = MipHintBuffer::from_classifier(&mc, number(2.0));
    assert_eq!(hints.per_mode[0], 0);
    assert_eq!(hints.per_mode[1], 2);
    assert_eq!(hints.global, 2);
    assert_eq!(hints.h_u8, 255);
    assert_eq!(MipHintBuffer::from_classifier(&mc, number(-1.0)).h_u8, 0);
}

#[test]
fn governor_starts_empty() {
    let gov = SpectralIOGovernor::new(16);
    assert_eq!(gov.total_groups, 16);
    assert_eq!(gov.max_jobs_per_trigger, 4);
    assert_eq!(gov.default_ttl, 16);
    assert_eq!(gov.format_hint, CompressionFormat::BC7);
    assert!(gov.queue.is_empty());
    let r = GovFrameResult::default();
    assert!(!r.triggered);
    assert_eq!(r.jobs_enqueued, 0);
    assert_eq!(CompressionFormat::default(), CompressionFormat::Unknown);
    assert_eq!(PrefetchJob::default().ttl_frames, 0);
}

#[test]
fn governor_enqueues_on_a_trigger() {
    let mut gov = SpectralIOGovernor::new(16);
    let dt = 1.0 / 240.0;
    // The first frame leaves bucket 0 for bucket 7, where nothing is known yet.
    let r = tick(&mut gov, &EVEN, 1.0, dt);
    assert!(r.triggered);
    assert_eq!(r.jobs_enqueued, 0);
    assert_eq!(value(r.h_normalized), 1.0);
    assert_eq!(r.mip_hints.h_u8, 255);
    // Staying in bucket 7 makes it its own successor, but triggers nothing.
    for _ in 0..3 {
        let r = tick(&mut gov, &EVEN, 1.0, dt);
        assert!(!r.triggered);
        assert_eq!(r.jobs_enqueued, 0);
    }
    // Back to bucket 0, whose only known successor is bucket 7.
    let r = tick(&mut gov, &SINGLE, 1.0, dt);
    assert!(r.triggered);
    assert_eq!(r.jobs_enqueued, 2);
    assert_eq!(value(r.divergence_rate), -4.0_f32 / (1.0 / 240.0));
    let mut out = [PrefetchJob::default(); 4];
    assert_eq!(gov.drain_jobs(&mut out, 4), 2);
    assert_eq!(out[0].group_id, 7);
    assert_eq!(out[1].group_id, 15);
    assert_eq!(value(out[0].priority), 1.0);
    assert_eq!(out[0].ttl_frames, 16);
    assert_eq!(out[0].format_hint, CompressionFormat::BC7);
    assert!(gov.queue.is_empty());
}

#[test]
fn lead_time_lengthens_the_life_of_jobs() {
    let mut gov = SpectralIOGovernor::new(64);
    tick(&mut gov, &EVEN, 1.0, 1.0);
    gov.entropy.peak_divergence = number(44.0);
    gov.max_jobs_per_trigger = 3;
    let r = tick(&mut gov, &SINGLE, 1.0, 1.0);
    // (44 - 4) / 4 frames ahead of the peak.
    assert_eq!(r.jobs_enqueued, 3);
    assert_eq!(gov.queue.dequeue().unwrap().ttl_frames, 26);
    gov.default_ttl = 55;
    tick(&mut gov, &EVEN, 1.0, 1.0);
    let r = tick(&mut gov, &SINGLE, 1.0, 1.0);
    assert_eq!(r.jobs_enqueued, 3);
    let mut last = PrefetchJob::default();
    while let Some(j) = gov.queue.dequeue() {
        last = j;
    }
    assert_eq!(last.ttl_frames, 60);
}

#[test]
fn draining_stops_at_the_maximum() {
    let mut gov = SpectralIOGovernor::new(16);
    for i in 0..6 {
        gov.queue.enqueue(job(i, 9));
    }
    let mut out = [PrefetchJob::default(); 8];
    out[7].group_id = 77;
    assert_eq!(gov.drain_jobs(&mut out, 4), 4);
    assert_eq!(out[3].group_id, 3);
    assert_eq!(gov.queue.len(), 2);
    assert_eq!(gov.drain_jobs(&mut out, 100), 2);
    assert_eq!(out[0].group_id, 4);
    assert_eq!(out[1].group_id, 5);
    assert_eq!(out[2].group_id, 2);
    assert_eq!(out[7].group_id, 77);
    assert_eq!(gov.drain_jobs(&mut out, 100), 0);
}

#[test]
fn queue_of_the_governor_stays_within_its_limits() {
    let mut gov = SpectralIOGovernor::new(64);
    gov.max_jobs_per_trigger = 64;
    for frame in 0..300 {
        let z = if frame % 2 == 0 { &EVEN } else { &SINGLE };
        let r = tick(&mut gov, z, 1.0, 1.0 / 240.0);
        assert!(r.jobs_enqueued <= 64);
        assert!(gov.queue.len() <= QUEUE_CAPACITY);
    }
    while let Some(j) = gov.queue.dequeue() {
        assert!(j.ttl_frames <= 60);
        assert!(value(j.priority) > 0.25);
    }
}

#[test]
fn logarithms_of_shares_keep_to_the_tangent() {
    let mut p: f32 = 1.0;
    while p > 1e-9 {
        let log = p.log2() as f64;
        let p64 = p as f64;
        let tangent = 4.0 * p64 + (1.0 / 16.0 - p64) * 1.442_695;
        assert!(log <= 0.0);
        assert!(-p64 * log <= tangent + 1e-6, "{}", p);
        p *= 0.9993;
    }
}

#[test]
fn entropy_stays_in_its_range() {
    let mut state: u64 = 5;
    let mut e = SpectralEntropyState::default();
    for round in 0..2000u32 {
        let mut z = [0.0_f32; DIM];
        for k in 0..DIM {
            state = state.wrapping_mul(6364136223846793005).wrapping_add(1442695040888963407);
            let x = (state >> 40) as f32 / 16_777_216.0 - 0.5;
            z[k] = if round % 3 == 0 { x } else { x * x * x };
        }
        let norm_sq: f32 = z.iter().map(|x| x * x).sum();
        let v = vector(&z);
        let energies = mode_energies(&v, number(norm_sq));
        let shares: f64 = energies.iter().map(|p| value(*p) as f64).sum();
        assert!(shares <= 1.001);
        assert!(energies.iter().all(|p| value(*p) <= 1.0));
        e.update(&v, number(norm_sq), number(0.004), &logarithms(&v, number(norm_sq)));
        let h = value(e.h_current);
        assert!((0.0..=4.01).contains(&h));
        assert!((0.0..=1.0025).contains(&value(e.h_normalized())));
        assert!(value(e.divergence_rate).abs() <= value(e.peak_divergence));
        assert!(e.peak_age <= 120);
        assert!(e.estimated_lead_frames() <= 60);
    }
}

#[test]
fn jobs_come_by_priority() {
    let mut gov = SpectralIOGovernor::new(16);
    gov.max_jobs_per_trigger = 16;
    gov.markov.current_bucket = 3;
    // The frame moves to bucket 7, whose row decides.
    gov.markov.transitions[7] = [0, 3, 0, 0, 4, 0, 3, 0];
    gov.markov.total[7] = 10;
    let r = tick(&mut gov, &EVEN, 1.0, 0.5);
    assert!(r.triggered);
    assert_eq!(r.jobs_enqueued, 6);
    let mut out = [PrefetchJob::default(); 6];
    assert_eq!(gov.drain_jobs(&mut out, 6), 6);
    let groups: Vec<u32> = out.iter().map(|j| j.group_id).collect();
    assert_eq!(groups, vec![4, 12, 1, 6, 9, 14]);
    assert_eq!(value(out[0].priority), 4.0_f32 / 10.0);
    assert_eq!(value(out[2].priority), 3.0_f32 / 10.0);
    for i in 1..6 {
        assert!(value(out[i].priority) <= value(out[i - 1].priority));
    }
}
