//! The queue of prefetch jobs: a ring of fixed capacity whose jobs expire.

use vstd::prelude::*;

use crate::binary32::Binary32;

verus! {

/// Number of jobs that the queue holds.
pub const QUEUE_CAPACITY: usize = 32;

/// Which decompressor the engine should pick.
#[derive(Clone, Copy, Debug, PartialEq, Eq, Structural)]
pub enum CompressionFormat {
    Unknown,
    /// Desktop.
    BC7,
    /// Mobile and handheld.
    ASTC,
    /// Low-quality fallback.
    BC1,
}

impl Default for CompressionFormat {
    fn default() -> (r: CompressionFormat)
        ensures
            r == CompressionFormat::Unknown,
    {
        CompressionFormat::Unknown
    }
}

/// A work item for the engine.
#[derive(Clone, Copy, Debug)]
pub struct PrefetchJob {
    /// Asset group, as the engine numbers them.
    pub group_id: u32,
    /// From 0 to 1, the salience of the group's bucket.
    pub priority: Binary32,
    /// Frames until the job expires.
    pub ttl_frames: u16,
    pub format_hint: CompressionFormat,
    pub _pad: u8,
}

impl Default for PrefetchJob {
    fn default() -> (r: PrefetchJob)
        ensures
            r == (PrefetchJob {
                group_id: 0,
                priority: Binary32::nil(),
                ttl_frames: 0,
                format_hint: CompressionFormat::Unknown,
                _pad: 0,
            }),
    {
        PrefetchJob {
            group_id: 0,
            priority: Binary32::from_bits(0),
            ttl_frames: 0,
            format_hint: CompressionFormat::Unknown,
            _pad: 0,
        }
    }
}

/// The jobs that fit into the queue: the newest ones.
pub open spec fn newest(jobs: Seq<PrefetchJob>) -> Seq<PrefetchJob> {
    if jobs.len() <= QUEUE_CAPACITY {
        jobs
    } else {
        jobs.skip(jobs.len() - QUEUE_CAPACITY)
    }
}

/// A job with `frames` fewer frames to live.
pub open spec fn aged_job(job: PrefetchJob, frames: nat) -> PrefetchJob {
    PrefetchJob { ttl_frames: (job.ttl_frames - frames) as u16, ..job }
}

/// What is left of the jobs after some frames: those that live longer, in their
/// order.
pub open spec fn aged_by(jobs: Seq<PrefetchJob>, frames: nat) -> Seq<PrefetchJob> {
    jobs.filter(|job: PrefetchJob| job.ttl_frames > frames).map_values(
        |job: PrefetchJob| aged_job(job, frames),
    )
}

/// A first-in-first-out queue of prefetch jobs.
pub struct PrefetchQueue {
    jobs: [PrefetchJob; QUEUE_CAPACITY],
    head: usize,
    tail: usize,
    count: usize,
}

impl View for PrefetchQueue {
    type V = Seq<PrefetchJob>;

    /// The jobs, the oldest first.
    closed spec fn view(&self) -> Seq<PrefetchJob> {
        Seq::new(
            self.count as nat,
            |i: int| self.jobs[(self.head + i) % QUEUE_CAPACITY as int],
        )
    }
}

impl PrefetchQueue {
    #[verifier::type_invariant]
    spec fn is_ring(self) -> bool {
        &&& self.head < QUEUE_CAPACITY
        &&& self.count <= QUEUE_CAPACITY
        &&& self.tail == (self.head + self.count) % QUEUE_CAPACITY as int
    }

    /// An empty queue.
    pub fn new() -> (r: PrefetchQueue)
        ensures
            r@ == Seq::<PrefetchJob>::empty(),
    {
        PrefetchQueue {
            jobs: [PrefetchJob::default();QUEUE_CAPACITY],
            head: 0,
            tail: 0,
            count: 0,
        }
    }

    /// Appends a job. Where the queue is full, the oldest job is dropped: it is the
    /// stalest.
    pub fn enqueue(&mut self, job: PrefetchJob)
        ensures
            final(self)@ == newest(old(self)@.push(job)),
            final(self)@.len() <= QUEUE_CAPACITY,
    {
        proof {
            use_type_invariant(&*self);
        }
        let mut head: usize = self.head;
        let mut count: usize = self.count;
        if count == QUEUE_CAPACITY {
            head = (head + 1) % QUEUE_CAPACITY;
            count = count - 1;
        }
        let tail: usize = self.tail;
        let mut jobs: [PrefetchJob; QUEUE_CAPACITY] = self.jobs;
        jobs[tail] = job;
        *self = PrefetchQueue { jobs, head, tail: (tail + 1) % QUEUE_CAPACITY, count: count + 1 };
        assert(self@ =~= newest(old(self)@.push(job)));
    }

    /// Takes out the oldest job.
    pub fn dequeue(&mut self) -> (r: Option<PrefetchJob>)
        ensures
            r is Some <==> old(self)@.len() > 0,
            r matches Some(job) ==> job == old(self)@[0] && final(self)@ == old(
                self)@.drop_first(),
            r is None ==> final(self)@ == old(self)@,
    {
        proof {
            use_type_invariant(&*self);
        }
        if self.count == 0 {
            return None;
        }
        let job: PrefetchJob = self.jobs[self.head];
        *self =
        PrefetchQueue {
            jobs: self.jobs,
            head: (self.head + 1) % QUEUE_CAPACITY,
            tail: self.tail,
            count: self.count - 1,
        };
        assert(self@ =~= old(self)@.drop_first());
        Some(job)
    }

    /// Ages all jobs by one frame and removes those that have expired.
    pub fn tick_ttl(&mut self)
        ensures
            final(self)@ == aged_by(old(self)@, 1),
            final(self)@.len() <= QUEUE_CAPACITY,
    {
        proof {
            use_type_invariant(&*self);
        }
        let mut kept: [PrefetchJob; QUEUE_CAPACITY] = [PrefetchJob::default();QUEUE_CAPACITY];
        let mut w: usize = 0;
        let mut r: usize = self.head;
        let mut i: usize = 0;
        let ghost jobs = self@;
        proof {
            reveal(Seq::filter);
            assert(kept@.take(0) =~= aged_by(jobs.take(0), 1));
        }
        while i < self.count
            invariant
                i <= self.count <= QUEUE_CAPACITY,
                self.head < QUEUE_CAPACITY,
                *self == *old(self),
                jobs == self@,
                r == (self.head + i) % QUEUE_CAPACITY as int,
                w <= i,
                kept@.take(w as int) == aged_by(jobs.take(i as int), 1),
            decreases self.count - i,
        {
            let job: PrefetchJob = self.jobs[r];
            let ghost before = kept@;
            proof {
                lemma_aged_push(jobs.take(i as int), job, 1);
                assert(jobs.take(i + 1) =~= jobs.take(i as int).push(job));
            }
            if job.ttl_frames > 1 {
                let aged: PrefetchJob = PrefetchJob { ttl_frames: job.ttl_frames - 1, ..job };
                kept[w] = aged;
                w = w + 1;
                assert(kept@.take(w as int) =~= before.take(w - 1).push(aged));
            }
            r = (r + 1) % QUEUE_CAPACITY;
            i = i + 1;
        }
        *self = PrefetchQueue { jobs: kept, head: 0, tail: w % QUEUE_CAPACITY, count: w };
        proof {
            assert(jobs.take(i as int) =~= jobs);
            assert(self@ =~= kept@.take(w as int));
        }
    }

    /// The number of jobs.
    pub fn len(&self) -> (r: usize)
        ensures
            r == self@.len(),
            r <= QUEUE_CAPACITY,
    {
        proof {
            use_type_invariant(self);
        }
        self.count
    }

    /// Whether there is no job.
    pub fn is_empty(&self) -> (r: bool)
        ensures
            r == (self@.len() == 0),
    {
        self.count == 0
    }
}

/// Ageing goes job by job.
proof fn lemma_aged_push(jobs: Seq<PrefetchJob>, job: PrefetchJob, frames: nat)
    ensures
        aged_by(jobs.push(job), frames) == if job.ttl_frames > frames {
            aged_by(jobs, frames).push(aged_job(job, frames))
        } else {
            aged_by(jobs, frames)
        },
{
    reveal(Seq::filter);
    assert(jobs.push(job).drop_last() =~= jobs);
    assert(aged_by(jobs.push(job), frames) =~= if job.ttl_frames > frames {
        aged_by(jobs, frames).push(aged_job(job, frames))
    } else {
        aged_by(jobs, frames)
    });
}

/// Ageing keeps a bound on the number of jobs and on their times to live.
pub proof fn lemma_aged_jobs(jobs: Seq<PrefetchJob>, frames: nat, limit: nat)
    requires
        forall|i: int| 0 <= i < jobs.len() ==> (#[trigger] jobs[i]).ttl_frames <= limit,
    ensures
        aged_by(jobs, frames).len() <= jobs.len(),
        forall|i: int|
            0 <= i < aged_by(jobs, frames).len() ==> (#[trigger] aged_by(jobs, frames)[i]).ttl_frames
                <= limit,
    decreases jobs.len(),
{
    if jobs.len() == 0 {
        reveal(Seq::filter);
    } else {
        let front = jobs.drop_last();
        assert(jobs =~= front.push(jobs.last()));
        lemma_aged_jobs(front, frames, limit);
        lemma_aged_push(front, jobs.last(), frames);
    }
}

/// Ageing by some frames and then by more is ageing by all of them.
proof fn lemma_aged_twice(jobs: Seq<PrefetchJob>, first: nat, second: nat)
    ensures
        aged_by(aged_by(jobs, first), second) == aged_by(jobs, first + second),
    decreases jobs.len(),
{
    reveal(Seq::filter);
    if jobs.len() == 0 {
        assert(aged_by(jobs, first) =~= jobs);
        assert(aged_by(aged_by(jobs, first), second) =~= aged_by(jobs, first + second));
    } else {
        let front = jobs.drop_last();
        let job = jobs.last();
        assert(jobs =~= front.push(job));
        lemma_aged_twice(front, first, second);
        lemma_aged_push(front, job, first);
        lemma_aged_push(front, job, first + second);
        if job.ttl_frames > first {
            lemma_aged_push(aged_by(front, first), aged_job(job, first), second);
        }
    }
}

/// Jobs after a number of frame ticks.
pub open spec fn ticked(jobs: Seq<PrefetchJob>, ticks: nat) -> Seq<PrefetchJob>
    decreases ticks,
{
    if ticks == 0 {
        jobs
    } else {
        aged_by(ticked(jobs, (ticks - 1) as nat), 1)
    }
}

/// A job lives exactly as many ticks as its time to live says: after some ticks
/// the jobs with more time than that are left, in their order and with that much
/// less time, and no others.
pub proof fn law_jobs_expire_on_time(jobs: Seq<PrefetchJob>, ticks: nat)
    requires
        ticks > 0,
    ensures
        ticked(jobs, ticks) == aged_by(jobs, ticks),
    decreases ticks,
{
    if ticks > 1 {
        law_jobs_expire_on_time(jobs, (ticks - 1) as nat);
        lemma_aged_twice(jobs, (ticks - 1) as nat, 1);
    } else {
        assert(ticked(jobs, 0) == jobs);
    }
}

/// Enqueueing job after job keeps the newest of all of them.
pub proof fn law_queue_keeps_the_newest(
    jobs: Seq<PrefetchJob>,
    more: Seq<PrefetchJob>,
    job: PrefetchJob,
)
    ensures
        newest(newest(jobs + more).push(job)) == newest(jobs + more.push(job)),
{
    assert(jobs + more.push(job) =~= (jobs + more).push(job));
    assert(newest(newest(jobs + more).push(job)) =~= newest((jobs + more).push(job)));
}

/// A full queue gives up its oldest jobs and nothing else: what is kept are the last
/// jobs, as many as fit, unchanged and in their order.
pub proof fn law_kept_jobs_are_the_last(jobs: Seq<PrefetchJob>)
    ensures
        jobs.len() <= 32 ==> newest(jobs) == jobs,
        jobs.len() > 32 ==> newest(jobs).len() == 32,
        forall|i: int|
            0 <= i < newest(jobs).len() ==> #[trigger] newest(jobs)[i] == jobs[jobs.len()
                - newest(jobs).len() + i],
{
}

/// Ageing looks at every job by itself: a job with time left stays where it is in the
/// order, with that much less time and otherwise as it was, and a job without goes.
pub proof fn law_jobs_age_one_by_one(jobs: Seq<PrefetchJob>, job: PrefetchJob, frames: nat)
    ensures
        aged_by(Seq::<PrefetchJob>::empty(), frames) == Seq::<PrefetchJob>::empty(),
        job.ttl_frames <= frames ==> aged_by(jobs.push(job), frames) == aged_by(jobs, frames),
        job.ttl_frames > frames ==> {
            let aged = aged_by(jobs.push(job), frames);
            &&& aged.drop_last() == aged_by(jobs, frames)
            &&& aged.len() > 0
            &&& aged.last().ttl_frames + frames == job.ttl_frames
            &&& aged.last().group_id == job.group_id
            &&& aged.last().priority == job.priority
            &&& aged.last().format_hint == job.format_hint
            &&& aged.last()._pad == job._pad
        },
{
    reveal(Seq::filter);
    lemma_aged_push(jobs, job, frames);
    assert(aged_by(Seq::<PrefetchJob>::empty(), frames) =~= Seq::<PrefetchJob>::empty());
    if job.ttl_frames > frames {
        assert(aged_by(jobs, frames).push(aged_job(job, frames)).drop_last() =~= aged_by(
            jobs,
            frames,
        ));
    }
}

} // verus!
