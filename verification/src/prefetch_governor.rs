//! The spectral I/O governor: from the state vector of a frame to prefetch jobs
//! and mip hints.
//!
//! Each frame updates the entropy, the mode classes and the Markov chain, ages
//! the queued jobs, and, where the entropy changes fast, enqueues jobs for the
//! asset groups that are likely to come next.

use vstd::prelude::*;

use crate::binary32::Binary32;
use crate::entropy::{ModeClassifier, SpectralEntropyState, DIM};
use crate::heapless_vec::HeaplessVec;
use crate::markov_salience;
use crate::markov_salience::{MarkovSalience, BUCKET_COUNT};
use crate::prefetch_queue;
use crate::prefetch_queue::{CompressionFormat, PrefetchJob, PrefetchQueue};

verus! {

/// Longest time to live of a job, in frames.
pub const MAX_TTL_FRAMES: u32 = 60;

/// What the texture streaming layer of the engine is told each frame.
#[derive(Clone, Copy, Debug)]
pub struct MipHintBuffer {
    /// Mip levels that each mode gives up.
    pub per_mode: [u8; DIM],
    /// The largest of them.
    pub global: u8,
    /// The normalised entropy, scaled to a byte for a debug overlay.
    pub h_u8: u8,
    pub _pad: u16,
}

impl Default for MipHintBuffer {
    fn default() -> (r: MipHintBuffer)
        ensures
            r.is_blank(),
    {
        MipHintBuffer { per_mode: [0;DIM], global: 0, h_u8: 0, _pad: 0 }
    }
}

impl MipHintBuffer {
    /// Whether nothing is given up.
    pub open spec fn is_blank(self) -> bool {
        &&& forall|k: int| 0 <= k < DIM ==> #[trigger] self.per_mode[k] == 0
        &&& self.global == 0
        &&& self.h_u8 == 0
        &&& self._pad == 0
    }

    /// Whether these are the hints for a classifier and an entropy.
    pub open spec fn describes(self, classifier: ModeClassifier, h_normalized: Binary32) -> bool {
        &&& forall|k: int| 0 <= k < DIM ==> #[trigger] self.per_mode[k] == classifier.bias_of(k)
        &&& forall|k: int| 0 <= k < DIM ==> #[trigger] self.per_mode[k] <= self.global
        &&& exists|k: int| 0 <= k < DIM && #[trigger] self.per_mode[k] == self.global
        &&& self.h_u8 == h_normalized.product(Binary32::whole(255)).truncated(255)
        &&& self._pad == 0
    }

    /// The hints for a classifier and an entropy.
    pub fn from_classifier(classifier: &ModeClassifier, h_normalized: Binary32) -> (r:
        MipHintBuffer)
        ensures
            r.describes(*classifier, h_normalized),
    {
        let per_mode: [u8; DIM] = classifier.mip_bias_array();
        let global: u8 = classifier.global_mip_bias();
        proof {
            reveal(Binary32::truncated);
        }
        let h_u8: u8 = h_normalized.times(Binary32::from_u32(255)).truncate(255) as u8;
        let r = MipHintBuffer { per_mode, global, h_u8, _pad: 0 };
        proof {
            let k = choose|k: int| 0 <= k < DIM && #[trigger] classifier.bias_of(k) == global;
            assert(r.per_mode[k] == global);
        }
        r
    }
}

/// What the engine gets back from a frame.
#[derive(Clone, Copy, Debug)]
pub struct GovFrameResult {
    pub triggered: bool,
    pub jobs_enqueued: u32,
    pub mip_hints: MipHintBuffer,
    pub divergence_rate: Binary32,
    pub h_normalized: Binary32,
}

impl Default for GovFrameResult {
    fn default() -> (r: GovFrameResult)
        ensures
            !r.triggered,
            r.jobs_enqueued == 0,
            r.mip_hints.is_blank(),
            r.divergence_rate == Binary32::nil(),
            r.h_normalized == Binary32::nil(),
    {
        GovFrameResult {
            triggered: false,
            jobs_enqueued: 0,
            mip_hints: MipHintBuffer::default(),
            divergence_rate: Binary32::from_bits(0),
            h_normalized: Binary32::from_bits(0),
        }
    }
}

/// The governor with all that it tracks.
pub struct SpectralIOGovernor {
    pub entropy: SpectralEntropyState,
    pub classifier: ModeClassifier,
    pub markov: MarkovSalience,
    pub queue: PrefetchQueue,
    pub mip_hints: MipHintBuffer,
    /// Asset groups that the engine has registered.
    pub total_groups: u32,
    /// Most jobs that one trigger enqueues.
    pub max_jobs_per_trigger: u32,
    /// Frames that a job lives, before the lead time is added.
    pub default_ttl: u16,
    pub format_hint: CompressionFormat,
}

impl SpectralIOGovernor {
    /// A governor that has seen no frame, for a number of asset groups.
    pub fn new(total_groups: u32) -> (r: SpectralIOGovernor)
        ensures
            r.entropy == SpectralEntropyState::initial(),
            r.classifier.is_fresh(),
            r.markov.is_fresh(),
            r.markov.consistent(),
            r.queue@ == Seq::<PrefetchJob>::empty(),
            r.mip_hints.is_blank(),
            r.total_groups == total_groups,
            r.max_jobs_per_trigger == 4,
            r.default_ttl == 16,
            r.format_hint == CompressionFormat::BC7,
    {
        SpectralIOGovernor {
            entropy: SpectralEntropyState::default(),
            classifier: ModeClassifier::default(),
            markov: MarkovSalience::new(),
            queue: PrefetchQueue::new(),
            mip_hints: MipHintBuffer::default(),
            total_groups,
            max_jobs_per_trigger: 4,
            default_ttl: 16,
            format_hint: CompressionFormat::BC7,
        }
    }

    /// The time to live of the jobs that a trigger enqueues now.
    pub open spec fn job_ttl(self) -> u16 {
        let ttl = self.default_ttl + self.entropy.estimated_lead_frames_spec();
        if ttl > MAX_TTL_FRAMES {
            MAX_TTL_FRAMES as u16
        } else {
            ttl as u16
        }
    }

    /// The job for an asset group.
    pub open spec fn job_for(self, group: u32) -> PrefetchJob {
        PrefetchJob {
            group_id: group,
            priority: self.markov.salience_of(group as int % BUCKET_COUNT as int),
            ttl_frames: self.job_ttl(),
            format_hint: self.format_hint,
            _pad: 0,
        }
    }

    /// The jobs for asset groups, in their order.
    pub open spec fn jobs_for(self, groups: Seq<u32>) -> Seq<PrefetchJob> {
        groups.map_values(|g: u32| self.job_for(g))
    }

    /// Whether no counter overflows on this frame.
    pub open spec fn ready_for(
        self,
        z: Seq<Binary32>,
        norm_sq: Binary32,
        dt: Binary32,
        log2_energies: Seq<Binary32>,
    ) -> bool {
        let entropy = self.entropy.updated(z, norm_sq, dt, log2_energies).0;
        &&& self.entropy.has_room(z, norm_sq, dt, log2_energies)
        &&& self.classifier.has_room()
        &&& self.markov.has_room(entropy.h_normalized_spec())
    }

    /// Whether this is the governor after `before` has taken in a frame, and the
    /// result is what the engine is told.
    pub open spec fn follows(
        self,
        before: SpectralIOGovernor,
        z: Seq<Binary32>,
        norm_sq: Binary32,
        dt: Binary32,
        log2_energies: Seq<Binary32>,
        result: GovFrameResult,
    ) -> bool {
        let (entropy, trigger) = before.entropy.updated(z, norm_sq, dt, log2_energies);
        let h = entropy.h_normalized_spec();
        let waiting = prefetch_queue::aged_by(before.queue@, 1);
        // What is tracked.
        &&& self.entropy == entropy
        &&& self.classifier.follows(before.classifier, z)
        &&& self.markov.follows(before.markov, h)
        &&& self.mip_hints.describes(self.classifier, h)
        // The queue.
        &&& trigger ==> exists|groups: Seq<u32>|
            {
                &&& #[trigger] self.markov.selects(
                    groups,
                    self.total_groups as nat,
                    self.max_jobs_per_trigger as nat,
                )
                &&& result.jobs_enqueued == groups.len()
                &&& self.queue@ == prefetch_queue::newest(waiting + self.jobs_for(groups))
            }
        &&& !trigger ==> result.jobs_enqueued == 0 && self.queue@ == waiting
        // The rest of the result.
        &&& result.triggered == trigger
        &&& result.mip_hints == self.mip_hints
        &&& result.divergence_rate == entropy.divergence_rate
        &&& result.h_normalized == h
        // What stays.
        &&& self.total_groups == before.total_groups
        &&& self.max_jobs_per_trigger == before.max_jobs_per_trigger
        &&& self.default_ttl == before.default_ttl
        &&& self.format_hint == before.format_hint
    }

    /// Takes in a frame: the state vector, its energy, the time step, and the
    /// base-2 logarithms of the mode energies.
    pub fn tick(
        &mut self,
        z: &[Binary32; DIM],
        norm_sq: Binary32,
        dt: Binary32,
        log2_energies: &[Binary32; DIM],
    ) -> (r: GovFrameResult)
        requires
            old(self).ready_for(z@, norm_sq, dt, log2_energies@),
        ensures
            final(self).follows(*old(self), z@, norm_sq, dt, log2_energies@, r),
            old(self).markov.consistent() ==> final(self).markov.consistent(),
    {
        let trigger: bool = self.entropy.update(z, norm_sq, dt, log2_energies);
        self.classifier.update(z);
        let h: Binary32 = self.entropy.h_normalized();
        self.markov.observe(h);
        self.mip_hints = MipHintBuffer::from_classifier(&self.classifier, h);
        self.queue.tick_ttl();
        let ghost aged = *self;
        let jobs_enqueued: u32 = if trigger {
            let n: u32 = self.enqueue_jobs();
            proof {
                let groups = choose|groups: Seq<u32>|
                    {
                        &&& #[trigger] aged.markov.selects(
                            groups,
                            aged.total_groups as nat,
                            aged.max_jobs_per_trigger as nat,
                        )
                        &&& n == groups.len()
                        &&& self.queue@ == prefetch_queue::newest(
                            aged.queue@ + self.jobs_for(groups),
                        )
                    };
                assert(self.markov.selects(
                    groups,
                    self.total_groups as nat,
                    self.max_jobs_per_trigger as nat,
                ));
            }
            n
        } else {
            0
        };
        GovFrameResult {
            triggered: trigger,
            jobs_enqueued,
            mip_hints: self.mip_hints,
            divergence_rate: self.entropy.divergence_rate,
            h_normalized: h,
        }
    }

    /// Enqueues a job for each asset group that is likely to come next.
    fn enqueue_jobs(&mut self) -> (r: u32)
        requires
            old(self).markov.current_bucket < BUCKET_COUNT,
            old(self).queue@.len() <= prefetch_queue::QUEUE_CAPACITY,
        ensures
            exists|groups: Seq<u32>|
                {
                    &&& #[trigger] old(self).markov.selects(
                        groups,
                        old(self).total_groups as nat,
                        old(self).max_jobs_per_trigger as nat,
                    )
                    &&& r == groups.len()
                    &&& final(self).queue@ == prefetch_queue::newest(
                        old(self).queue@ + final(self).jobs_for(groups),
                    )
                },
            *final(self) == (SpectralIOGovernor { queue: final(self).queue, ..*old(self) }),
    {
        let lead: u32 = self.entropy.estimated_lead_frames();
        let sum: u32 = self.default_ttl as u32 + lead;
        let ttl: u16 = if sum > MAX_TTL_FRAMES {
            MAX_TTL_FRAMES as u16
        } else {
            sum as u16
        };
        let selected: HeaplessVec<u32, 64> = self.markov.prioritized_groups(
            self.total_groups,
            self.max_jobs_per_trigger,
        );
        let salience: [Binary32; BUCKET_COUNT] = self.markov.salience();
        let groups: &[u32] = selected.as_slice();
        let len: usize = selected.len();
        let mut i: usize = 0;
        let ghost start = *self;
        let ghost jobs = start.jobs_for(groups@);
        proof {
            assert(start.queue@ + jobs.take(0) =~= start.queue@);
        }
        while i < len
            invariant
                i <= len == groups@.len(),
                start == *old(self),
                *self == (SpectralIOGovernor { queue: self.queue, ..start }),
                ttl == start.job_ttl(),
                jobs == start.jobs_for(groups@),
                forall|j: int|
                    0 <= j < BUCKET_COUNT ==> #[trigger] salience[j] == start.markov.salience_of(j),
                self.queue@ == prefetch_queue::newest(start.queue@ + jobs.take(i as int)),
            decreases len - i,
        {
            let g: u32 = groups[i];
            let job = PrefetchJob {
                group_id: g,
                priority: salience[g as usize % BUCKET_COUNT],
                ttl_frames: ttl,
                format_hint: self.format_hint,
                _pad: 0,
            };
            self.queue.enqueue(job);
            proof {
                assert(job == start.job_for(g));
                assert(jobs.take(i + 1) =~= jobs.take(i as int).push(job));
                prefetch_queue::law_queue_keeps_the_newest(start.queue@, jobs.take(i as int), job);
            }
            i = i + 1;
        }
        proof {
            assert(jobs.take(len as int) =~= jobs);
            assert(self.jobs_for(groups@) =~= jobs);
        }
        len as u32
    }

    /// Moves up to `max` jobs, the oldest first, from the queue to the front of
    /// `out`. Returns how many.
    pub fn drain_jobs(&mut self, out: &mut [PrefetchJob], max: usize) -> (n: usize)
        requires
            max <= old(out)@.len() || old(self).queue@.len() <= old(out)@.len(),
        ensures
            n == if max < old(self).queue@.len() {
                max as nat
            } else {
                old(self).queue@.len()
            },
            final(out)@ == old(self).queue@.take(n as int) + old(out)@.skip(n as int),
            final(self).queue@ == old(self).queue@.skip(n as int),
            *final(self) == (SpectralIOGovernor { queue: final(self).queue, ..*old(self) }),
    {
        let mut n: usize = 0;
        let ghost jobs = self.queue@;
        let ghost slots = out@;
        assert(out@ =~= jobs.take(0) + slots.skip(0));
        assert(jobs.skip(0) =~= jobs);
        while n < max && !self.queue.is_empty()
            invariant
                n <= max,
                n <= jobs.len(),
                max <= slots.len() || jobs.len() <= slots.len(),
                out@.len() == slots.len(),
                out@ == jobs.take(n as int) + slots.skip(n as int),
                self.queue@ == jobs.skip(n as int),
                *self == (SpectralIOGovernor { queue: self.queue, ..*old(self) }),
            decreases max - n,
        {
            match self.queue.dequeue() {
                Some(job) => {
                    let ghost before = out@;
                    out[n] = job;
                    n = n + 1;
                    proof {
                        assert(self.queue@ =~= jobs.skip(n as int));
                        assert(out@ =~= jobs.take(n as int) + slots.skip(n as int));
                    }
                },
                None => {},
            }
        }
        n
    }
}

/// Whether every job expires within the longest time to live.
pub open spec fn live_briefly(jobs: Seq<PrefetchJob>) -> bool {
    forall|i: int| 0 <= i < jobs.len() ==> (#[trigger] jobs[i]).ttl_frames <= MAX_TTL_FRAMES
}

/// A frame enqueues no more jobs than a trigger may, and none without a trigger; the
/// queue keeps within its capacity, and its jobs within their longest time to live.
pub proof fn law_frames_keep_the_limits(
    before: SpectralIOGovernor,
    after: SpectralIOGovernor,
    z: Seq<Binary32>,
    norm_sq: Binary32,
    dt: Binary32,
    log2_energies: Seq<Binary32>,
    result: GovFrameResult,
)
    requires
        after.follows(before, z, norm_sq, dt, log2_energies, result),
        before.queue@.len() <= prefetch_queue::QUEUE_CAPACITY,
        live_briefly(before.queue@),
    ensures
        result.jobs_enqueued <= before.max_jobs_per_trigger,
        !result.triggered ==> result.jobs_enqueued == 0,
        after.queue@.len() <= prefetch_queue::QUEUE_CAPACITY,
        live_briefly(after.queue@),
{
    let waiting = prefetch_queue::aged_by(before.queue@, 1);
    prefetch_queue::lemma_aged_jobs(before.queue@, 1, MAX_TTL_FRAMES as nat);
    if result.triggered {
        let groups = choose|groups: Seq<u32>|
            {
                &&& #[trigger] after.markov.selects(
                    groups,
                    after.total_groups as nat,
                    after.max_jobs_per_trigger as nat,
                )
                &&& result.jobs_enqueued == groups.len()
                &&& after.queue@ == prefetch_queue::newest(waiting + after.jobs_for(groups))
            };
        let all = waiting + after.jobs_for(groups);
        assert forall|i: int| 0 <= i < all.len() implies (#[trigger] all[i]).ttl_frames
            <= MAX_TTL_FRAMES by {
            if i >= waiting.len() {
                assert(all[i] == after.job_for(groups[i - waiting.len()]));
            }
        }
    }
}

/// The job for a more salient bucket comes first, and every job has the salience of
/// its bucket as its priority, above the threshold.
pub proof fn law_jobs_come_by_priority(
    governor: SpectralIOGovernor,
    groups: Seq<u32>,
)
    requires
        governor.markov.selects(
            groups,
            governor.total_groups as nat,
            governor.max_jobs_per_trigger as nat,
        ),
    ensures
        forall|i: int, j: int|
            0 <= i < j < groups.len() ==> (#[trigger] governor.jobs_for(
                groups,
            )[j]).priority.at_most((#[trigger] governor.jobs_for(groups)[i]).priority),
        forall|i: int|
            0 <= i < groups.len() ==> markov_salience::salience_threshold_spec().below(
                (#[trigger] governor.jobs_for(groups)[i]).priority,
            ),
{
    let jobs = governor.jobs_for(groups);
    assert forall|i: int|
        0 <= i < groups.len() implies markov_salience::salience_threshold_spec().below(
        (#[trigger] jobs[i]).priority,
    ) by {
        assert(governor.markov.is_candidate(groups[i] as int, governor.total_groups as nat));
    }
    assert forall|i: int, j: int| 0 <= i < j < groups.len() implies (
    #[trigger] jobs[j]).priority.at_most((#[trigger] jobs[i]).priority) by {
        assert(governor.markov.ranks_before(groups[i] as int, groups[j] as int));
        assert(governor.markov.is_candidate(groups[i] as int, governor.total_groups as nat));
        assert(governor.markov.is_candidate(groups[j] as int, governor.total_groups as nat));
    }
}

} // verus!
