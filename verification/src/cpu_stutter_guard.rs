//! Detection of CPU-bound frame time spikes, and what to do about them.

use vstd::prelude::*;

use crate::binary32::Binary32;
use crate::binary32_laws;
use crate::frame_ring;
use crate::frame_ring::{FrameRing, Window};

verus! {

/// Frame times that are needed before a spike is reported.
pub const MIN_SAMPLES: usize = 16;

/// Consecutive CPU-bound frames after which a spike elevates the thread priority.
pub const SUSTAINED_FRAMES: u32 = 8;

/// How many times the mean a frame must take to be a spike.
pub open spec fn spike_ratio_spec() -> Binary32 {
    Binary32::whole(2)
}

/// How many times the mean a frame must take to be a spike.
pub fn spike_ratio() -> (r: Binary32)
    ensures
        r == spike_ratio_spec(),
{
    Binary32::from_u32(2)
}

/// Whether a frame time is a spike in the window that it was put into.
pub open spec fn is_spike(slots: Seq<Binary32>, frame_us: Binary32) -> bool {
    let mean = frame_ring::mean_of(slots);
    &&& slots.len() >= MIN_SAMPLES
    &&& Binary32::nil().below(mean)
    &&& spike_ratio_spec().below(frame_us.quotient(mean))
}

/// The rank, counted from zero in ascending order, of the 99th percentile of a number
/// of frame times.
pub open spec fn percentile_rank(count: nat) -> int {
    let rank = Binary32::whole(count).product(Binary32::fraction(99, 100)).truncated(
        u32::MAX as nat,
    );
    if rank < count {
        rank as int
    } else {
        count - 1
    }
}

/// Compares each frame time with the mean of the last ones.
pub struct FrametimeSpikeDetector {
    ring: FrameRing,
    mean: Binary32,
    /// Spikes since the last reset.
    pub spike_count: u32,
    /// Whether the last frame was a spike.
    pub spike_this_frame: bool,
}

impl FrametimeSpikeDetector {
    /// The window of frame times.
    pub closed spec fn window(self) -> Window {
        self.ring@
    }

    /// The mean of the window.
    pub closed spec fn mean_spec(self) -> Binary32 {
        self.mean
    }

    /// Spikes since the last reset.
    pub closed spec fn spikes(self) -> u32 {
        self.spike_count
    }

    /// Whether the last frame was a spike.
    pub closed spec fn spiked(self) -> bool {
        self.spike_this_frame
    }

    /// Whether a frame time would be a spike.
    pub open spec fn would_spike(self, frame_us: Binary32) -> bool {
        is_spike(self.window().pushed(frame_us).slots, frame_us)
    }

    /// Whether the spike counter has room for this frame.
    pub open spec fn has_room(self, frame_us: Binary32) -> bool {
        self.would_spike(frame_us) ==> self.spikes() < u32::MAX
    }

    /// Whether this is the detector after `before` has taken in a frame time.
    pub open spec fn follows(self, before: FrametimeSpikeDetector, frame_us: Binary32) -> bool {
        let spike = before.would_spike(frame_us);
        &&& self.window() == before.window().pushed(frame_us)
        &&& self.mean_spec() == frame_ring::mean_of(self.window().slots)
        &&& self.spiked() == spike
        &&& self.spikes() == before.spikes() + if spike {
            1int
        } else {
            0int
        }
    }

    /// A detector without frame times.
    pub fn new() -> (r: FrametimeSpikeDetector)
        ensures
            r.window() == Window::empty(),
            r.mean_spec() == Binary32::nil(),
            r.spikes() == 0,
            !r.spiked(),
    {
        FrametimeSpikeDetector {
            ring: FrameRing::new(),
            mean: Binary32::from_bits(0),
            spike_count: 0,
            spike_this_frame: false,
        }
    }

    /// Takes in a frame time, in microseconds. Returns whether it is a spike.
    pub fn update(&mut self, frame_us: Binary32) -> (r: bool)
        requires
            old(self).has_room(frame_us),
        ensures
            final(self).follows(*old(self), frame_us),
            r == final(self).spiked(),
    {
        self.ring.push(frame_us);
        self.mean = self.ring.mean();
        self.spike_this_frame = false;
        if self.ring.len() >= MIN_SAMPLES && self.mean.is_above(Binary32::from_bits(0)) {
            let ratio: Binary32 = frame_us.over(self.mean);
            if ratio.is_above(spike_ratio()) {
                self.spike_count = self.spike_count + 1;
                self.spike_this_frame = true;
            }
        }
        self.spike_this_frame
    }

    /// The 99th percentile of the window; zero without frames. In a window of this
    /// size that is the largest frame time.
    pub fn p99_us(&self) -> (r: Binary32)
        requires
            self.window().slots.len() > 1 ==> forall|i: int|
                0 <= i < self.window().slots.len() ==> !(#[trigger] self.window().slots[i]).nan(),
        ensures
            self.window().slots.len() == 0 ==> r == Binary32::nil(),
            self.window().slots.len() > 0 ==> exists|i: int|
                #[trigger] frame_ring::is_largest_slot(self.window().slots, i) && r
                    == self.window().slots[i],
    {
        if self.ring.len() == 0 {
            return Binary32::from_bits(0);
        }
        self.ring.largest()
    }

    /// The mean of the window, in microseconds.
    pub fn mean_us(&self) -> (r: Binary32)
        ensures
            r == self.mean_spec(),
    {
        self.mean
    }

    /// Starts counting spikes anew.
    pub fn reset_spike_count(&mut self)
        ensures
            final(self).spikes() == 0,
            final(self).window() == old(self).window(),
            final(self).mean_spec() == old(self).mean_spec(),
            final(self).spiked() == old(self).spiked(),
    {
        self.spike_count = 0;
    }
}

/// How much of the frame time the CPU owns.
#[derive(Clone, Copy, Debug)]
pub struct FrameBudgetSplit {
    /// Share of the frame time that is CPU work, smoothed.
    pub cpu_fraction: Binary32,
    /// Whether the CPU owns more than 70% of the frame time.
    pub cpu_bound: bool,
    smoothed: Binary32,
}

/// The smoothed share of CPU time after a frame.
pub open spec fn smoothed_share(before: Binary32, cpu_ns: u64, total_ns: u64) -> Binary32 {
    let raw = Binary32::whole(cpu_ns as nat).quotient(Binary32::whole(total_ns as nat));
    Binary32::fraction(2, 10).product(raw).sum(Binary32::fraction(8, 10).product(before))
}

/// Whether a share of CPU time counts as CPU-bound.
pub open spec fn is_cpu_bound(share: Binary32) -> bool {
    Binary32::fraction(70, 100).below(share)
}

impl Default for FrameBudgetSplit {
    fn default() -> (r: FrameBudgetSplit)
        ensures
            r.average() == Binary32::nil(),
            r.fraction() == Binary32::nil(),
            !r.bound(),
    {
        FrameBudgetSplit {
            cpu_fraction: Binary32::from_bits(0),
            cpu_bound: false,
            smoothed: Binary32::from_bits(0),
        }
    }
}

impl FrameBudgetSplit {
    /// The reported share.
    pub closed spec fn fraction(self) -> Binary32 {
        self.cpu_fraction
    }

    /// Whether the frame is reported as CPU-bound.
    pub closed spec fn bound(self) -> bool {
        self.cpu_bound
    }

    /// The share that smoothing goes on from.
    pub closed spec fn average(self) -> Binary32 {
        self.smoothed
    }

    /// Whether a frame would be reported as CPU-bound.
    pub open spec fn bound_after(self, cpu_ns: u64, total_ns: u64) -> bool {
        if total_ns == 0 {
            self.bound()
        } else {
            is_cpu_bound(smoothed_share(self.average(), cpu_ns, total_ns))
        }
    }

    /// Whether this is the split after `before` has taken in a frame.
    pub open spec fn follows(self, before: FrameBudgetSplit, cpu_ns: u64, total_ns: u64) -> bool {
        if total_ns == 0 {
            self == before
        } else {
            &&& self.average() == smoothed_share(before.average(), cpu_ns, total_ns)
            &&& self.fraction() == self.average()
            &&& self.bound() == is_cpu_bound(self.average())
        }
    }

    /// Takes in the CPU time and the whole time of a frame. A frame without
    /// duration changes nothing.
    pub fn update(&mut self, cpu_ns: u64, total_ns: u64)
        ensures
            final(self).follows(*old(self), cpu_ns, total_ns),
    {
        if total_ns == 0 {
            return ;
        }
        let raw: Binary32 = Binary32::from_u64(cpu_ns).over(Binary32::from_u64(total_ns));
        self.smoothed = Binary32::from_ratio(2, 10).times(raw).plus(
            Binary32::from_ratio(8, 10).times(self.smoothed),
        );
        self.cpu_fraction = self.smoothed;
        self.cpu_bound = self.smoothed.is_above(Binary32::from_ratio(70, 100));
    }
}

/// What the guard recommends to the supervisor.
#[derive(Clone, Copy, Debug, PartialEq, Eq, Structural)]
pub enum StutterAction {
    /// The frame time is nominal.
    Nominal,
    /// A spike, but not CPU-bound: prefetch less.
    ReducePrefetch,
    /// A CPU-bound spike: suspend prefetching.
    SuspendPrefetch,
    /// A spike after many CPU-bound frames: raise the thread priority.
    ElevateThreadPriority,
}

/// What a frame calls for, given how many frames in a row were CPU-bound, this one
/// counted.
pub open spec fn action_for(spike: bool, cpu_bound: bool, run: int) -> StutterAction {
    if !spike {
        StutterAction::Nominal
    } else if !cpu_bound {
        StutterAction::ReducePrefetch
    } else if run <= SUSTAINED_FRAMES {
        StutterAction::SuspendPrefetch
    } else {
        StutterAction::ElevateThreadPriority
    }
}

/// The number of CPU-bound frames in a row, this one counted.
pub open spec fn run_after(run: int, cpu_bound: bool) -> int {
    if cpu_bound {
        run + 1
    } else {
        0
    }
}

/// Whether the priority is elevated after a frame: from the frame that calls for it
/// until the first frame that is not CPU-bound.
pub open spec fn elevated_after(elevated: bool, cpu_bound: bool, action: StutterAction) -> bool {
    cpu_bound && (elevated || action == StutterAction::ElevateThreadPriority)
}

/// Turns spikes and CPU-bound frames into actions.
pub struct CpuStutterGuard {
    pub detector: FrametimeSpikeDetector,
    pub budget: FrameBudgetSplit,
    cpu_bound_run: u32,
    elevated: bool,
}

impl CpuStutterGuard {
    pub closed spec fn detector_spec(self) -> FrametimeSpikeDetector {
        self.detector
    }

    pub closed spec fn budget_spec(self) -> FrameBudgetSplit {
        self.budget
    }

    /// CPU-bound frames in a row.
    pub closed spec fn run(self) -> u32 {
        self.cpu_bound_run
    }

    /// Whether the priority elevation is active.
    pub closed spec fn elevation(self) -> bool {
        self.elevated
    }

    /// Whether no counter overflows on this frame.
    pub open spec fn ready_for(self, frame_us: Binary32, cpu_ns: u64, total_ns: u64) -> bool {
        &&& self.detector_spec().has_room(frame_us)
        &&& self.budget_spec().bound_after(cpu_ns, total_ns) ==> self.run() < u32::MAX
    }

    /// A guard that has seen no frame.
    pub fn new() -> (r: CpuStutterGuard)
        ensures
            r.detector_spec().window() == Window::empty(),
            r.detector_spec().mean_spec() == Binary32::nil(),
            r.detector_spec().spikes() == 0,
            !r.detector_spec().spiked(),
            r.budget_spec().average() == Binary32::nil(),
            r.budget_spec().fraction() == Binary32::nil(),
            !r.budget_spec().bound(),
            r.run() == 0,
            !r.elevation(),
    {
        CpuStutterGuard {
            detector: FrametimeSpikeDetector::new(),
            budget: FrameBudgetSplit::default(),
            cpu_bound_run: 0,
            elevated: false,
        }
    }

    /// Call once per frame, with the frame time in microseconds, and the CPU time
    /// and the whole time of the frame in nanoseconds.
    pub fn update(&mut self, frame_us: Binary32, cpu_ns: u64, total_ns: u64) -> (r: StutterAction)
        requires
            old(self).ready_for(frame_us, cpu_ns, total_ns),
        ensures
            final(self).detector_spec().follows(old(self).detector_spec(), frame_us),
            final(self).budget_spec().follows(old(self).budget_spec(), cpu_ns, total_ns),
            final(self).run() == run_after(
                old(self).run() as int,
                final(self).budget_spec().bound(),
            ),
            r == action_for(
                final(self).detector_spec().spiked(),
                final(self).budget_spec().bound(),
                final(self).run() as int,
            ),
            final(self).elevation() == elevated_after(
                old(self).elevation(),
                final(self).budget_spec().bound(),
                r,
            ),
    {
        let spike: bool = self.detector.update(frame_us);
        self.budget.update(cpu_ns, total_ns);
        if self.budget.cpu_bound {
            self.cpu_bound_run = self.cpu_bound_run + 1;
        } else {
            self.cpu_bound_run = 0;
            if self.elevated {
                self.elevated = false;
            }
        }
        if !spike {
            return StutterAction::Nominal;
        }
        if self.budget.cpu_bound {
            if self.cpu_bound_run > SUSTAINED_FRAMES {
                self.try_elevate_thread_priority();
                StutterAction::ElevateThreadPriority
            } else {
                StutterAction::SuspendPrefetch
            }
        } else {
            StutterAction::ReducePrefetch
        }
    }

    fn try_elevate_thread_priority(&mut self)
        ensures
            final(self).elevation(),
            final(self).detector_spec() == old(self).detector_spec(),
            final(self).budget_spec() == old(self).budget_spec(),
            final(self).run() == old(self).run(),
    {
        if self.elevated {
            return ;
        }
        self.elevated = true;
    }

    /// Whether the priority elevation is active.
    pub fn is_elevated(&self) -> (r: bool)
        ensures
            r == self.elevation(),
    {
        self.elevated
    }

    /// CPU-bound frames in a row.
    pub fn cpu_bound_run(&self) -> (r: u32)
        ensures
            r == self.run(),
    {
        self.cpu_bound_run
    }
}

/// No frame is a spike before the window holds enough frame times.
pub proof fn law_no_spike_without_a_baseline(detector: FrametimeSpikeDetector, frame_us: Binary32)
    requires
        detector.window().slots.len() + 1 < MIN_SAMPLES,
    ensures
        !detector.would_spike(frame_us),
{
}

/// The 99th percentile of a window that is not empty is its largest frame time: the
/// rank of the percentile is the last one.
pub proof fn law_percentile_is_the_largest(count: nat)
    requires
        0 < count <= frame_ring::RING_SIZE,
    ensures
        percentile_rank(count) == count - 1,
{
    binary32_laws::lemma_scaled_by_99_percent(count, u32::MAX as nat);
}

/// The smoothed share of CPU time stays between zero and one where the CPU time is
/// part of the frame.
pub proof fn law_share_is_a_fraction(before: Binary32, cpu_ns: u64, total_ns: u64)
    requires
        0 < total_ns,
        cpu_ns <= total_ns,
        Binary32::nil().at_most(before),
        before.at_most(Binary32::whole(1)),
    ensures
        Binary32::nil().at_most(smoothed_share(before, cpu_ns, total_ns)),
        smoothed_share(before, cpu_ns, total_ns).at_most(Binary32::whole(1)),
{
    let one = Binary32::whole(1);
    let a = Binary32::whole(cpu_ns as nat);
    let b = Binary32::whole(total_ns as nat);
    let raw = a.quotient(b);
    let part = Binary32::fraction(2, 10);
    let rest = Binary32::fraction(8, 10);
    binary32_laws::lemma_one();
    binary32_laws::lemma_whole(cpu_ns as nat);
    binary32_laws::lemma_whole(total_ns as nat);
    binary32_laws::lemma_fraction_monotone(cpu_ns as nat, 1, total_ns as nat, 1);
    binary32_laws::lemma_quotient_at_most_one(a, b);
    binary32_laws::lemma_fifths();
    binary32_laws::lemma_times_one(part);
    binary32_laws::lemma_times_one(rest);
    binary32_laws::lemma_product_monotone(part, raw, part, one);
    binary32_laws::lemma_product_monotone(rest, before, rest, one);
    binary32_laws::lemma_sum_monotone(part.product(raw), rest.product(before), part, rest);
    binary32_laws::lemma_sum_not_below_zero(part.product(raw), rest.product(before));
}

/// The priority is elevated only within a long enough run of CPU-bound frames, and a
/// frame that is not CPU-bound ends both the run and the elevation.
pub proof fn law_elevation_lies_within_a_run(
    run: int,
    elevated: bool,
    spike: bool,
    cpu_bound: bool,
)
    requires
        run >= 0,
        elevated ==> run > SUSTAINED_FRAMES,
    ensures
        ({
            let next = run_after(run, cpu_bound);
            let action = action_for(spike, cpu_bound, next);
            let raised = elevated_after(elevated, cpu_bound, action);
            &&& next >= 0
            &&& raised ==> next > SUSTAINED_FRAMES
            &&& !cpu_bound ==> next == 0 && !raised
            &&& action == StutterAction::ElevateThreadPriority ==> raised && spike
        }),
{
}

} // verus!
