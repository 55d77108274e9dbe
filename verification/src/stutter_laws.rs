//! Runs of CPU-bound frames, and what a guard does about them.

use vstd::prelude::*;

use crate::binary32::Binary32;
use crate::cpu_stutter_guard;
use crate::cpu_stutter_guard::StutterAction;
use crate::frame_ring;

verus! {

/// What a guard learns of a frame.
pub struct FrameFinding {
    pub spike: bool,
    pub cpu_bound: bool,
}

/// The count of CPU-bound frames in a row after the first `n` frames.
pub open spec fn run_of(frames: Seq<FrameFinding>, n: nat) -> int
    decreases n,
{
    if n == 0 {
        0
    } else {
        cpu_stutter_guard::run_after(run_of(frames, (n - 1) as nat), frames[n - 1].cpu_bound)
    }
}

/// What a guard calls for on the last of the first `n` frames.
pub open spec fn action_of(frames: Seq<FrameFinding>, n: nat) -> StutterAction {
    cpu_stutter_guard::action_for(
        frames[n - 1].spike,
        frames[n - 1].cpu_bound,
        run_of(frames, n),
    )
}

/// Whether the priority is elevated after the first `n` frames.
pub open spec fn elevation_of(frames: Seq<FrameFinding>, n: nat) -> bool
    decreases n,
{
    if n == 0 {
        false
    } else {
        cpu_stutter_guard::elevated_after(
            elevation_of(frames, (n - 1) as nat),
            frames[n - 1].cpu_bound,
            action_of(frames, n),
        )
    }
}

/// The count is that of the CPU-bound frames since the last frame that was not.
pub proof fn law_run_counts_the_last_frames(frames: Seq<FrameFinding>, n: nat)
    requires
        n <= frames.len(),
    ensures
        0 <= run_of(frames, n) <= n,
        forall|i: int|
            n - run_of(frames, n) <= i < n ==> (#[trigger] frames[i]).cpu_bound,
        run_of(frames, n) < n ==> !frames[n - run_of(frames, n) - 1].cpu_bound,
    decreases n,
{
    if n > 0 {
        law_run_counts_the_last_frames(frames, (n - 1) as nat);
    }
}

/// A frame without a spike calls for nothing. A spike calls for less prefetching where
/// the frame is not CPU-bound, for none where at most 8 frames in a row were, and for a
/// higher priority from the ninth on.
pub proof fn law_actions_answer_spikes(frames: Seq<FrameFinding>, n: nat)
    requires
        0 < n <= frames.len(),
    ensures
        ({
            let frame = frames[n - 1];
            let action = action_of(frames, n);
            let long = n >= 9 && forall|i: int|
                n - 9 <= i < n ==> (#[trigger] frames[i]).cpu_bound;
            &&& !frame.spike <==> action == StutterAction::Nominal
            &&& frame.spike && !frame.cpu_bound <==> action == StutterAction::ReducePrefetch
            &&& frame.spike && frame.cpu_bound && !long <==> action
                == StutterAction::SuspendPrefetch
            &&& frame.spike && long <==> action == StutterAction::ElevateThreadPriority
        }),
{
    law_run_counts_the_last_frames(frames, n);
    let run = run_of(frames, n);
    let long = n >= 9 && forall|i: int| n - 9 <= i < n ==> (#[trigger] frames[i]).cpu_bound;
    if long && run < 9 {
        assert(frames[n - run - 1].cpu_bound);
    }
    if long {
        assert(frames[n - 1].cpu_bound);
    }
}

/// The priority is elevated exactly where some frame of the present run of CPU-bound
/// frames called for it.
pub proof fn law_elevation_lasts_through_the_run(frames: Seq<FrameFinding>, n: nat)
    requires
        n <= frames.len(),
    ensures
        elevation_of(frames, n) <==> exists|j: nat|
            n - run_of(frames, n) < j <= n && #[trigger] action_of(frames, j)
                == StutterAction::ElevateThreadPriority,
    decreases n,
{
    law_run_counts_the_last_frames(frames, n);
    if n > 0 {
        let before = (n - 1) as nat;
        law_elevation_lasts_through_the_run(frames, before);
        law_run_counts_the_last_frames(frames, before);
        if frames[n - 1].cpu_bound {
            assert(n - run_of(frames, n) == before - run_of(frames, before));
            if elevation_of(frames, before) {
                let j = choose|j: nat|
                    before - run_of(frames, before) < j <= before && #[trigger] action_of(frames, j)
                        == StutterAction::ElevateThreadPriority;
                assert(action_of(frames, j) == StutterAction::ElevateThreadPriority);
            } else if action_of(frames, n) != StutterAction::ElevateThreadPriority {
                assert forall|j: nat| n - run_of(frames, n) < j <= n implies #[trigger] action_of(
                    frames,
                    j,
                ) != StutterAction::ElevateThreadPriority by {
                    if j < n {
                        assert(before - run_of(frames, before) < j <= before);
                    }
                }
            }
        }
    }
}

/// The largest frame time of a window is one of its frame times, and none is larger.
pub proof fn law_largest_is_not_exceeded(slots: Seq<Binary32>, i: int)
    requires
        frame_ring::is_largest_slot(slots, i),
        forall|j: int| 0 <= j < slots.len() ==> !(#[trigger] slots[j]).nan(),
    ensures
        0 <= i < slots.len(),
        forall|j: int| 0 <= j < slots.len() ==> (#[trigger] slots[j]).at_most(slots[i]),
{
}

} // verus!
