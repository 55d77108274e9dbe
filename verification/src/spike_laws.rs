//! What the spike detector reports, over any run of frames.
//!
//! The mean is that of the last frame times, up to a full window of them, and a
//! spike is a frame that takes more than twice the mean.

use vstd::arithmetic::power2::{lemma_pow2_adds, lemma_pow2_pos, pow2};
use vstd::prelude::*;

use crate::binary32::Binary32;
use crate::binary32_error;
use crate::binary32_laws;
use crate::cpu_stutter_guard::FrametimeSpikeDetector;
use crate::frame_ring;
use crate::frame_ring::{Window, RING_SIZE};

verus! {

/// The exact sum of the first `n` frame times, in units.
pub open spec fn frame_sum(frames: Seq<Binary32>, n: nat) -> int
    decreases n,
{
    if n == 0 {
        0
    } else {
        frame_sum(frames, (n - 1) as nat) + frames[n - 1].units()
    }
}

/// The number of frame times that count: all of them, up to the last 64.
pub open spec fn recent_count(frames: Seq<Binary32>) -> nat {
    if frames.len() < 64 {
        frames.len()
    } else {
        64
    }
}

/// The exact sum of the frame times that count.
pub open spec fn recent_sum(frames: Seq<Binary32>) -> int {
    frame_sum(frames, frames.len()) - frame_sum(
        frames,
        (frames.len() - recent_count(frames)) as nat,
    )
}

/// Whether all frame times are finite, not below zero, and far from overflow.
pub open spec fn are_times(frames: Seq<Binary32>) -> bool {
    forall|k: int|
        0 <= k < frames.len() ==> {
            &&& (#[trigger] frames[k]).finite()
            &&& 0 <= frames[k].units() <= pow2(90) * Binary32::units_in_one()
        }
}

/// Whether the detectors are the states of a new detector that takes in the frames.
pub open spec fn is_run(detectors: Seq<FrametimeSpikeDetector>, frames: Seq<Binary32>) -> bool {
    &&& detectors.len() == frames.len() + 1
    &&& detectors[0].window() == Window::empty()
    &&& detectors[0].spikes() == 0
    &&& forall|t: int|
        0 <= t < frames.len() ==> (#[trigger] detectors[t + 1]).follows(detectors[t], frames[t])
}

proof fn lemma_sum_of_front(frames: Seq<Binary32>, more: Seq<Binary32>, n: nat)
    requires
        n <= frames.len(),
        n <= more.len(),
        forall|k: int| 0 <= k < n ==> frames[k] == more[k],
    ensures
        frame_sum(frames, n) == frame_sum(more, n),
    decreases n,
{
    if n > 0 {
        lemma_sum_of_front(frames, more, (n - 1) as nat);
    }
}

proof fn lemma_sum_of_update(slots: Seq<Binary32>, at: int, x: Binary32, n: nat)
    requires
        0 <= at < slots.len(),
        n <= slots.len(),
    ensures
        frame_sum(slots.update(at, x), n) == frame_sum(slots, n) + if at < n {
            x.units() - slots[at].units()
        } else {
            0
        },
    decreases n,
{
    if n > 0 {
        lemma_sum_of_update(slots, at, x, (n - 1) as nat);
    }
}

/// The slots of a window hold the frame times that count.
proof fn lemma_window_sum(frames: Seq<Binary32>)
    ensures
        frame_ring::window_after(frames).slots.len() == recent_count(frames),
        frame_sum(
            frame_ring::window_after(frames).slots,
            frame_ring::window_after(frames).slots.len(),
        ) == recent_sum(frames),
        are_times(frames) ==> are_times(frame_ring::window_after(frames).slots),
    decreases frames.len(),
{
    frame_ring::law_window_keeps_the_last_frames(frames);
    let window = frame_ring::window_after(frames);
    if frames.len() > 0 {
        let before = frames.drop_last();
        let x = frames.last();
        lemma_window_sum(before);
        frame_ring::law_window_keeps_the_last_frames(before);
        let old_window = frame_ring::window_after(before);
        let n = before.len();
        lemma_sum_of_front(before, frames, n);
        if n < 64 {
            assert(window.slots == old_window.slots.push(x));
            lemma_sum_of_front(old_window.slots, window.slots, n);
        } else {
            lemma_sum_of_front(before, frames, (n - 64) as nat);
            let at = old_window.next;
            assert(window.slots == old_window.slots.update(at, x));
            lemma_sum_of_update(old_window.slots, at, x, 64);
            assert((n - 1 - at) % 64 == 63);
            assert(old_window.slots[at] == before[n - 64]);
        }
    }
    if are_times(frames) {
        assert forall|i: int| 0 <= i < window.slots.len() implies {
            &&& (#[trigger] window.slots[i]).finite()
            &&& 0 <= window.slots[i].units() <= pow2(90) * Binary32::units_in_one()
        } by {
            let k = frames.len() - 1 - (frames.len() - 1 - i) % RING_SIZE as int;
            lemma_index(frames.len() as int, i);
            assert(window.slots[i] == frames[k]);
        }
    }
}

proof fn lemma_index(n: int, i: int)
    requires
        0 <= i < n,
        i < 64,
    ensures
        0 <= n - 1 - (n - 1 - i) % 64 < n,
{
}

/// The rounded sum of frame times.
proof fn lemma_running_sum_error(slots: Seq<Binary32>, n: nat)
    requires
        are_times(slots),
        n <= slots.len(),
        n <= 64,
    ensures
        frame_ring::running_sum(slots, n).finite(),
        0 <= frame_sum(slots, n) <= n * (pow2(90) * Binary32::units_in_one()),
        0x100_0000 * binary32_error::distance(
            frame_ring::running_sum(slots, n).units() - frame_sum(slots, n),
        ) <= n * (2 * frame_sum(slots, n) + 0x200_0000),
    decreases n,
{
    let cap = pow2(90) * Binary32::units_in_one() as int;
    lemma_pow2_adds(90, 149);
    lemma_pow2_pos(239);
    if n == 0 {
        assert(frame_ring::running_sum(slots, 0) == Binary32::signed(true, 0));
        assert(Binary32::signed(true, 0).units() == 0);
        assert(0 * cap == 0);
        assert(0 * (2 * frame_sum(slots, 0) + 0x200_0000) == 0);
    } else {
        let k = (n - 1) as nat;
        lemma_running_sum_error(slots, k);
        let r = frame_ring::running_sum(slots, k);
        let x = slots[k as int];
        let sum = frame_sum(slots, k);
        let next = frame_sum(slots, n);
        assert(n * cap == k * cap + cap) by (nonlinear_arith)
            requires
                n == k + 1,
        ;
        let old_bound = 2 * sum + 0x200_0000;
        let bound = 2 * next + 0x200_0000;
        assert(k * old_bound <= k * bound && n * bound == k * bound + bound && 0 <= k * old_bound
            <= 64 * old_bound) by (nonlinear_arith)
            requires
                n == k + 1,
                0 <= k <= 64,
                0 <= old_bound <= bound,
        ;
        assert(k * cap <= 64 * cap) by (nonlinear_arith)
            requires
                0 <= k <= 64,
                cap >= 0,
        ;
        assert(pow2(259) >= 0x400 * cap) by {
            lemma_pow2_adds(239, 20);
            vstd::arithmetic::power2::lemma2_to64();
        }
        assert(cap >= 0x1000_0000) by {
            vstd::arithmetic::power2::lemma2_to64();
            vstd::arithmetic::power2::lemma_pow2_strictly_increases(28, 239);
        }
        binary32_error::lemma_sum_error(r, x);
    }
}

/// Each frame time is part of the sum.
proof fn lemma_part_of_sum(slots: Seq<Binary32>, at: int, n: nat)
    requires
        are_times(slots),
        0 <= at < n <= slots.len(),
    ensures
        slots[at].units() <= frame_sum(slots, n),
        0 <= frame_sum(slots, (n - 1) as nat),
    decreases n,
{
    assert(frame_sum(slots, 0) == 0);
    if n > 1 {
        lemma_part_of_sum(slots, if at == n - 1 {
            0
        } else {
            at
        }, (n - 1) as nat);
        assert(0 <= slots[0].units());
        assert(0 <= slots[n - 1].units());
    }
}

/// The mean of the slots.
proof fn lemma_mean_error(slots: Seq<Binary32>)
    requires
        are_times(slots),
        0 < slots.len() <= 64,
        frame_sum(slots, slots.len()) >= pow2(60),
    ensures
        frame_ring::mean_of(slots).finite(),
        frame_ring::mean_of(slots).units() > 0,
        10_000 * binary32_error::distance(
            frame_ring::mean_of(slots).units() * slots.len() - frame_sum(slots, slots.len()),
        ) <= frame_sum(slots, slots.len()),
{
    let n = slots.len() as int;
    let u = Binary32::units_in_one() as int;
    let sum = frame_sum(slots, slots.len());
    let r = frame_ring::running_sum(slots, slots.len());
    let count = Binary32::whole(slots.len());
    let mean = frame_ring::mean_of(slots);
    lemma_running_sum_error(slots, slots.len());
    binary32_laws::lemma_whole_exact(slots.len());
    binary32_laws::lemma_whole(slots.len());
    lemma_pow2_pos(149);
    lemma_pow2_adds(90, 149);
    lemma_pow2_adds(239, 20);
    vstd::arithmetic::power2::lemma2_to64();
    vstd::arithmetic::power2::lemma2_to64_rest();
    let cap = pow2(239) as int;
    let bound = 2 * sum + 0x200_0000;
    assert(n * bound <= 64 * bound) by (nonlinear_arith)
        requires
            n <= 64,
            bound >= 0,
    ;
    assert(n * cap <= 64 * cap) by (nonlinear_arith)
        requires
            n <= 64,
            cap >= 0,
    ;
    let x = r.units();
    assert(0 < x <= 0x100 * cap);
    assert(x * u <= pow2(259) * (n * u)) by (nonlinear_arith)
        requires
            0 < x <= pow2(259),
            n >= 1,
            u > 0,
    {
        assert(x * u <= pow2(259) * u);
        assert(pow2(259) * u <= pow2(259) * (n * u));
    }
    binary32_error::lemma_quotient_error(r, count);
    let m = mean.units();
    let e = m * n - x;
    assert(m * (n * u) - x * u == e * u) by (nonlinear_arith)
        requires
            e == m * n - x,
    ;
    assert(n * u >= 0) by (nonlinear_arith)
        requires
            n >= 0,
            u >= 0,
    ;
    assert(0xFF_FFFF * binary32_error::distance(e) <= x + 0xFF_FFFF * n) by {
        binary32_error::lemma_scaled_distance(e, u);
        let a = binary32_error::distance(e);
        assert(0xFF_FFFF * a <= x + 0xFF_FFFF * n) by (nonlinear_arith)
            requires
                0xFF_FFFF * (a * u) <= x * u + 0xFF_FFFF * (n * u),
                u > 0,
        ;
    }
    assert(m * n > 0);
    assert(m > 0) by (nonlinear_arith)
        requires
            m * n > 0,
            n > 0,
    ;
}

/// A frame time over the mean of the slots, against two.
proof fn lemma_ratio(slots: Seq<Binary32>, f: Binary32)
    requires
        are_times(slots),
        0 < slots.len() <= 64,
        frame_sum(slots, slots.len()) >= pow2(60),
        f.finite(),
        0 <= f.units() <= frame_sum(slots, slots.len()),
    ensures
        ({
            let mean = frame_ring::mean_of(slots);
            let sum = frame_sum(slots, slots.len());
            let ratio = f.quotient(mean);
            let time = f.units() * slots.len();
            &&& Binary32::nil().below(mean)
            &&& 1000 * time >= 2002 * sum ==> Binary32::whole(2).below(ratio)
            &&& 1000 * time <= 1998 * sum ==> !Binary32::whole(2).below(ratio)
        }),
{
    lemma_mean_error(slots);
    let n = slots.len() as int;
    let sum = frame_sum(slots, slots.len());
    let mean = frame_ring::mean_of(slots);
    let m = mean.units();
    let u = Binary32::units_in_one() as int;
    lemma_pow2_pos(149);
    let x = f.units();
    let mn = m * n;
    assert(x <= 65 * m) by (nonlinear_arith)
        requires
            x <= sum,
            10_000 * sum <= 10_000 * (m * n) + sum,
            n <= 64,
            m > 0,
    {
        assert(m * n <= m * 64);
    }
    lemma_pow2_adds(7, 149);
    vstd::arithmetic::power2::lemma_pow2_strictly_increases(156, 259);
    vstd::arithmetic::power2::lemma2_to64();
    assert(x * u <= pow2(259) * m) by (nonlinear_arith)
        requires
            0 <= x <= 65 * m,
            65 * u <= pow2(259),
            m > 0,
            u > 0,
    {
        assert(x * u <= (65 * m) * u);
        assert((65 * m) * u == (65 * u) * m);
        assert((65 * u) * m <= pow2(259) * m);
    }
    binary32_laws::lemma_order_is_by_units(mean, Binary32::nil());
    binary32_laws::lemma_order_is_by_units(Binary32::nil(), mean);
    assert(Binary32::nil().units() == 0);
    binary32_error::lemma_quotient_error(f, mean);
    let ratio = f.quotient(mean);
    let q = ratio.units();
    let two = Binary32::whole(2);
    binary32_laws::lemma_whole_exact(2);
    binary32_laws::lemma_order_is_by_units(two, ratio);
    binary32_laws::lemma_order_is_by_units(ratio, two);
    vstd::arithmetic::power2::lemma_pow2_strictly_increases(60, 149);
    vstd::arithmetic::power2::lemma2_to64_rest();
    let qm = q * m;
    let xu = x * u;
    if 1000 * (x * n) >= 2002 * sum {
        assert(1000 * x >= 2001 * m) by (nonlinear_arith)
            requires
                1000 * (x * n) >= 2002 * sum,
                10_000 * (m * n) <= 10_001 * sum,
                n > 0,
                m > 0,
        {
            assert(1000 * (x * n) >= 2001 * (m * n));
        }
        assert(q > 2 * u) by (nonlinear_arith)
            requires
                0xFF_FFFF * (x * u - q * m) <= x * u + 0xFF_FFFF * m,
                1000 * x >= 2001 * m,
                m > 0,
                u >= 0x1000_0000_0000_0000,
        {
            assert(1000 * (x * u) >= 2001 * (m * u));
            assert(m * u >= m * 0x1000_0000_0000_0000);
            assert(q * m > (2 * u) * m);
        }
    }
    if 1000 * (x * n) <= 1998 * sum {
        assert(1000 * x <= 1999 * m) by (nonlinear_arith)
            requires
                1000 * (x * n) <= 1998 * sum,
                10_000 * sum <= 10_000 * (m * n) + sum,
                n > 0,
                m > 0,
        {
            assert(1000 * (x * n) <= 1999 * (m * n));
        }
        assert(q < 2 * u) by (nonlinear_arith)
            requires
                0xFF_FFFF * (q * m - x * u) <= x * u + 0xFF_FFFF * m,
                1000 * x <= 1999 * m,
                m > 0,
                u >= 0x1000_0000_0000_0000,
        {
            assert(1000 * (x * u) <= 1999 * (m * u));
            assert(m * u >= m * 0x1000_0000_0000_0000);
            assert(q * m < (2 * u) * m);
        }
    }
}

/// Over any run of frames, the mean is that of the last 64 frame times, or of all
/// where there are fewer, but for one part in ten thousand. From the sixteenth frame
/// on, however many there are, a frame is a spike where it takes more than twice the
/// mean and none where it takes less, but for one part in a thousand; before, none
/// is. The spikes are counted.
pub proof fn law_spikes_take_twice_the_recent_mean(
    detectors: Seq<FrametimeSpikeDetector>,
    frames: Seq<Binary32>,
)
    requires
        is_run(detectors, frames),
        are_times(frames),
        frames.len() > 0,
        recent_sum(frames) >= pow2(60),
    ensures
        ({
            let last = detectors.last();
            let n = recent_count(frames);
            let sum = recent_sum(frames);
            let time = frames.last().units() * n;
            &&& last.mean_spec().finite()
            &&& 10_000 * binary32_error::distance(last.mean_spec().units() * n - sum) <= sum
            &&& frames.len() < 16 ==> !last.spiked()
            &&& frames.len() >= 16 && 1000 * time >= 2002 * sum ==> last.spiked()
            &&& frames.len() >= 16 && 1000 * time <= 1998 * sum ==> !last.spiked()
            &&& last.spikes() == detectors[detectors.len() - 2].spikes() + if last.spiked() {
                1int
            } else {
                0int
            }
        }),
{
    let t = frames.len() - 1;
    let last = detectors.last();
    let before = detectors[t];
    let f = frames.last();
    lemma_run_window(detectors, frames, frames.len());
    lemma_run_window(detectors, frames, t as nat);
    assert(frames.take(frames.len() as int) =~= frames);
    assert(detectors[t + 1].follows(detectors[t], frames[t]));
    let slots = frame_ring::window_after(frames).slots;
    lemma_window_sum(frames);
    lemma_mean_error(slots);
    frame_ring::law_window_keeps_the_last_frames(frames);
    // The frame itself is one of the slots.
    let at = (frames.len() - 1) % 64;
    assert((frames.len() - 1 - at) % 64 == 0);
    assert(slots[at] == f);
    lemma_part_of_sum(slots, at, slots.len());
    lemma_ratio(slots, f);
}

/// The window of a detector after some frames.
proof fn lemma_run_window(
    detectors: Seq<FrametimeSpikeDetector>,
    frames: Seq<Binary32>,
    n: nat,
)
    requires
        is_run(detectors, frames),
        n <= frames.len(),
    ensures
        detectors[n as int].window() == frame_ring::window_after(frames.take(n as int)),
    decreases n,
{
    if n > 0 {
        let k = n - 1;
        lemma_run_window(detectors, frames, k as nat);
        assert(detectors[k + 1].follows(detectors[k], frames[k]));
        assert(frames.take(n as int).drop_last() =~= frames.take(k));
    }
}

/// Without a mean above zero nothing is a spike, and neither is what is no number.
pub proof fn law_spikes_need_a_mean(detector: FrametimeSpikeDetector, frame_us: Binary32)
    requires
        frame_us.nan() || !Binary32::nil().below(
            frame_ring::mean_of(detector.window().pushed(frame_us).slots),
        ),
    ensures
        !detector.would_spike(frame_us),
{
    reveal(Binary32::quotient);
}

} // verus!
