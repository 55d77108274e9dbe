//! Binary32 arithmetic against the machine's own.

use dvsm_spectral_io::Binary32;

fn number(x: f32) -> Binary32 {
    Binary32::from_bits(x.to_bits())
}

fn same(found: Binary32, expected: f32) -> bool {
    if expected.is_nan() {
        found.is_nan()
    } else {
        found.to_bits() == expected.to_bits()
    }
}

/// Numbers where rounding, overflow, underflow and signs matter.
fn corners() -> Vec<u32> {
    let mut r: Vec<u32> = Vec::new();
    for low in [0u32, 1, 2, 3, 0x7F_FFFE, 0x7F_FFFF, 0x40_0000, 0x55_5555, 0x2A_AAAB] {
        for exponent in [0u32, 1, 2, 23, 24, 64, 100, 103, 104, 125, 126, 127, 128, 150, 151, 230, 252, 253, 254, 255] {
            r.push(exponent * 0x80_0000 + low);
            r.push(0x8000_0000 + exponent * 0x80_0000 + low);
        }
    }
    r
}

fn next_random(state: &mut u64) -> u32 {
    *state = state.wrapping_mul(6364136223846793005).wrapping_add(1442695040888963407);
    (*state >> 32) as u32
}

fn check_pair(x: u32, y: u32) {
    let a = f32::from_bits(x);
    let b = f32::from_bits(y);
    let p = Binary32::from_bits(x);
    let q = Binary32::from_bits(y);
    assert!(same(p.plus(q), a + b), "{:x} + {:x}", x, y);
    assert!(same(p.minus(q), a - b), "{:x} - {:x}", x, y);
    assert!(same(p.times(q), a * b), "{:x} * {:x}", x, y);
    assert!(same(p.over(q), a / b), "{:x} / {:x}", x, y);
    assert_eq!(p.is_below(q), a < b);
    assert_eq!(p.is_above(q), a > b);
    assert_eq!(p.is_at_most(q), a <= b);
    if a != b {
        assert!(same(p.max(q), a.max(b)));
        assert!(same(p.min(q), a.min(b)));
    }
}

#[test]
fn operations_agree_on_corners() {
    let all = corners();
    for x in all.iter() {
        for y in all.iter() {
            check_pair(*x, *y);
        }
    }
}

#[test]
fn operations_agree_on_random_bits() {
    let mut state: u64 = 1;
    for _ in 0..200_000 {
        let x = next_random(&mut state);
        let y = next_random(&mut state);
        check_pair(x, y);
    }
}

#[test]
fn operations_agree_on_numbers_of_like_size() {
    let mut state: u64 = 2;
    for _ in 0..200_000 {
        let x = 0x3D00_0000 + next_random(&mut state) % 0x400_0000;
        let y = 0x3D00_0000 + next_random(&mut state) % 0x400_0000;
        check_pair(x, y);
        check_pair(x, y + 0x8000_0000);
    }
}

#[test]
fn operations_agree_near_underflow() {
    let mut state: u64 = 3;
    for _ in 0..100_000 {
        let x = next_random(&mut state) % 0x2000_0000;
        let y = 0x2000_0000 + next_random(&mut state) % 0x2000_0000;
        check_pair(x, y);
        check_pair(y, x);
    }
}

#[test]
fn signs_are_dropped_and_flipped() {
    for x in corners() {
        let a = f32::from_bits(x);
        assert_eq!(Binary32::from_bits(x).abs().to_bits(), a.abs().to_bits());
        assert_eq!(Binary32::from_bits(x).negated().to_bits(), (-a).to_bits());
        assert_eq!(Binary32::from_bits(x).is_nan(), a.is_nan());
    }
}

#[test]
fn whole_numbers_are_rounded() {
    let mut state: u64 = 4;
    for _ in 0..50_000 {
        let high = next_random(&mut state) as u64;
        let low = next_random(&mut state) as u64;
        let shift = next_random(&mut state) % 64;
        let n = ((high << 32) | low) >> shift;
        assert!(same(Binary32::from_u64(n), n as f32), "{}", n);
        assert!(same(Binary32::from_u32(low as u32), low as u32 as f32), "{}", low);
    }
    for n in [0u64, 1, 0xFF_FFFF, 0x100_0000, 0x100_0001, 0x100_0003, u32::MAX as u64, u64::MAX] {
        assert!(same(Binary32::from_u64(n), n as f32), "{}", n);
    }
}

#[test]
fn fractions_are_what_decimal_literals_mean() {
    assert!(same(Binary32::from_ratio(15, 100), 0.15));
    assert!(same(Binary32::from_ratio(85, 100), 0.85));
    assert!(same(Binary32::from_ratio(97, 100), 0.97));
    assert!(same(Binary32::from_ratio(4, 1000), 0.004));
    assert!(same(Binary32::from_ratio(1, 1_000_000), 1e-6));
    assert!(same(Binary32::from_ratio(1, 1_000_000_000), 1e-9));
    assert!(same(Binary32::from_ratio(1, 360), 1.0 / 360.0));
    assert!(same(Binary32::from_ratio(0, 7), 0.0));
    for n in 0..200u32 {
        for d in 1..200u32 {
            assert!(same(Binary32::from_ratio(n, d), n as f32 / d as f32), "{}/{}", n, d);
        }
    }
}

#[test]
fn truncation_saturates() {
    for x in corners() {
        let a = f32::from_bits(x);
        for limit in [7u32, 60, 255, 1_000_000, u32::MAX] {
            assert_eq!(Binary32::from_bits(x).truncate(limit), (a as u32).min(limit), "{:x}", x);
        }
    }
    assert_eq!(number(7.999_999).truncate(100), 7);
    assert_eq!(number(-0.5).truncate(100), 0);
    assert_eq!(number(f32::NAN).truncate(100), 0);
    assert_eq!(number(f32::INFINITY).truncate(100), 100);
}

#[test]
fn clamping_moves_into_the_range() {
    let low = number(0.85);
    let high = number(1.0);
    for x in corners() {
        let a = f32::from_bits(x);
        assert!(same(Binary32::from_bits(x).clamp(low, high), a.clamp(0.85, 1.0)));
    }
    assert!(number(f32::NAN).clamp(low, high).is_nan());
}

#[test]
fn max_and_min_pass_over_what_is_no_number() {
    let nan = number(f32::NAN);
    let two = number(2.0);
    assert!(same(nan.max(two), 2.0));
    assert!(same(two.max(nan), 2.0));
    assert!(same(nan.min(two), 2.0));
    assert!(same(two.min(nan), 2.0));
    assert!(nan.max(nan).is_nan());
}

#[test]
fn default_is_zero() {
    assert_eq!(Binary32::default().to_bits(), 0);
}

#[test]
fn rounding_ties_go_to_even() {
    // 2^24 + 1 lies in the middle of two numbers.
    assert_eq!(Binary32::from_u32(0x100_0001).to_bits(), 0x4B80_0000);
    assert_eq!(Binary32::from_u32(0x100_0003).to_bits(), 0x4B80_0002);
    // Half of the smallest number rounds to zero, three halves to two.
    let half = number(0.5);
    assert_eq!(Binary32::from_bits(1).times(half).to_bits(), 0);
    assert_eq!(Binary32::from_bits(3).times(half).to_bits(), 2);
}
