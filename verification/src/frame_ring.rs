//! A rolling window of frame times.

use vstd::prelude::*;

use crate::binary32::Binary32;

verus! {

/// Number of frame times in a full window.
pub const RING_SIZE: usize = 64;

/// The last frame times. A full window overwrites its oldest slot.
pub struct FrameRing {
    slots: [Binary32; RING_SIZE],
    head: usize,
    count: usize,
}

/// The window as its slots and the slot that is written next.
#[verifier::ext_equal]
pub struct Window {
    pub slots: Seq<Binary32>,
    pub next: int,
}

impl Window {
    pub open spec fn empty() -> Window {
        Window { slots: Seq::empty(), next: 0 }
    }

    /// The window after one more frame time.
    pub open spec fn pushed(self, frame_us: Binary32) -> Window {
        Window {
            slots: if self.slots.len() < RING_SIZE {
                self.slots.push(frame_us)
            } else {
                self.slots.update(self.next, frame_us)
            },
            next: (self.next + 1) % RING_SIZE as int,
        }
    }

    /// Whether the slots fill up in order and then are written in turn.
    pub open spec fn is_ring(self) -> bool {
        &&& 0 <= self.next < RING_SIZE
        &&& self.slots.len() <= RING_SIZE
        &&& self.slots.len() < RING_SIZE ==> self.next == self.slots.len()
    }
}

/// The sum of the first `n` frame times, added in order.
pub open spec fn running_sum(slots: Seq<Binary32>, n: nat) -> Binary32
    decreases n,
{
    if n == 0 {
        Binary32::signed(true, 0)
    } else {
        running_sum(slots, (n - 1) as nat).sum(slots[n - 1])
    }
}

/// The mean of the frame times.
pub open spec fn mean_of(slots: Seq<Binary32>) -> Binary32 {
    running_sum(slots, slots.len()).quotient(Binary32::whole(slots.len()))
}

/// Whether the frame time in a slot is the largest, and of equal ones the last.
pub open spec fn is_largest_slot(slots: Seq<Binary32>, i: int) -> bool {
    &&& 0 <= i < slots.len()
    &&& forall|j: int| 0 <= j < i ==> (#[trigger] slots[j]).key() <= slots[i].key()
    &&& forall|j: int| i < j < slots.len() ==> (#[trigger] slots[j]).key() < slots[i].key()
}

impl View for FrameRing {
    type V = Window;

    closed spec fn view(&self) -> Window {
        Window { slots: self.slots@.take(self.count as int), next: self.head as int }
    }
}

impl FrameRing {
    #[verifier::type_invariant]
    spec fn fills_in_order(self) -> bool {
        &&& self.head < RING_SIZE
        &&& self.count <= RING_SIZE
        &&& self.count < RING_SIZE ==> self.head == self.count
    }

    /// An empty window.
    pub fn new() -> (r: FrameRing)
        ensures
            r@ == Window::empty(),
    {
        let r = FrameRing { slots: [Binary32::from_bits(0);RING_SIZE], head: 0, count: 0 };
        assert(r@.slots =~= Seq::empty());
        r
    }

    /// Takes in a frame time.
    pub fn push(&mut self, frame_us: Binary32)
        ensures
            final(self)@ == old(self)@.pushed(frame_us),
            final(self)@.is_ring(),
            final(self)@.slots.len() > 0,
    {
        proof {
            use_type_invariant(&*self);
        }
        let mut slots: [Binary32; RING_SIZE] = self.slots;
        slots[self.head] = frame_us;
        let count: usize = if self.count < RING_SIZE {
            self.count + 1
        } else {
            self.count
        };
        *self = FrameRing { slots, head: (self.head + 1) % RING_SIZE, count };
        assert(self@.slots =~= old(self)@.pushed(frame_us).slots);
    }

    /// The number of frame times.
    pub fn len(&self) -> (r: usize)
        ensures
            r == self@.slots.len(),
            r <= RING_SIZE,
    {
        proof {
            use_type_invariant(self);
        }
        self.count
    }

    /// The mean of the frame times.
    pub fn mean(&self) -> (r: Binary32)
        ensures
            r == mean_of(self@.slots),
    {
        proof {
            use_type_invariant(self);
        }
        let mut sum: Binary32 = Binary32::from_bits(0x8000_0000);
        let mut i: usize = 0;
        while i < self.count
            invariant
                i <= self.count <= RING_SIZE,
                sum == running_sum(self@.slots, i as nat),
            decreases self.count - i,
        {
            sum = sum.plus(self.slots[i]);
            i = i + 1;
        }
        sum.over(Binary32::from_u32(self.count as u32))
    }

    /// The largest frame time.
    pub fn largest(&self) -> (r: Binary32)
        requires
            self@.slots.len() > 0,
            self@.slots.len() > 1 ==> forall|i: int|
                0 <= i < self@.slots.len() ==> !(#[trigger] self@.slots[i]).nan(),
        ensures
            exists|i: int| #[trigger] is_largest_slot(self@.slots, i) && r == self@.slots[i],
    {
        proof {
            use_type_invariant(self);
        }
        let mut at: usize = 0;
        let mut i: usize = 1;
        while i < self.count
            invariant
                at < i <= self.count <= RING_SIZE,
                self@.slots.len() == self.count,
                forall|j: int| 0 <= j < self.count ==> #[trigger] self@.slots[j] == self.slots[j],
                self@.slots.len() > 1 ==> forall|j: int|
                    0 <= j < self@.slots.len() ==> !(#[trigger] self@.slots[j]).nan(),
                is_largest_slot(self@.slots.take(i as int), at as int),
            decreases self.count - i,
        {
            let ghost slots = self@.slots;
            proof {
                assert(!slots[i as int].nan());
                assert(!slots[at as int].nan());
                assert(forall|j: int|
                    0 <= j < i ==> #[trigger] slots.take(i as int)[j] == slots[j]);
                assert forall|j: int| 0 <= j < i && j != at implies (#[trigger] slots[j]).key()
                    <= slots[at as int].key() by {
                    assert(slots.take(i as int)[j] == slots[j]);
                }
                assert forall|j: int| at < j < i implies (#[trigger] slots[j]).key()
                    < slots[at as int].key() by {
                    assert(slots.take(i as int)[j] == slots[j]);
                }
            }
            if !self.slots[i].is_below(self.slots[at]) {
                at = i;
            }
            i = i + 1;
        }
        assert(self@.slots.take(i as int) =~= self@.slots);
        self.slots[at]
    }
}

/// The window after some frame times.
pub open spec fn window_after(frames: Seq<Binary32>) -> Window
    decreases frames.len(),
{
    if frames.len() == 0 {
        Window::empty()
    } else {
        window_after(frames.drop_last()).pushed(frames.last())
    }
}

/// How far back slot `i` reaches after one more frame.
proof fn lemma_reach(n: int, i: int)
    requires
        0 < n,
        0 <= i < RING_SIZE,
    ensures
        i == (n - 1) % RING_SIZE as int ==> (n - 1 - i) % RING_SIZE as int == 0,
        i != (n - 1) % RING_SIZE as int ==> (n - 1 - i) % RING_SIZE as int == (n - 2 - i)
            % RING_SIZE as int + 1,
{
}

/// The window holds the last frame times and nothing else: slot `i` holds the last
/// frame whose number is `i` modulo the window's size.
pub proof fn law_window_keeps_the_last_frames(frames: Seq<Binary32>)
    ensures
        window_after(frames).is_ring(),
        window_after(frames).next == frames.len() % RING_SIZE as nat,
        window_after(frames).slots.len() == if frames.len() < RING_SIZE {
            frames.len() as int
        } else {
            RING_SIZE as int
        },
        forall|i: int|
            0 <= i < window_after(frames).slots.len() ==> #[trigger] window_after(frames).slots[i]
                == frames[frames.len() - 1 - (frames.len() - 1 - i) % RING_SIZE as int],
    decreases frames.len(),
{
    if frames.len() > 0 {
        let before = frames.drop_last();
        law_window_keeps_the_last_frames(before);
        let n = frames.len() as int;
        let old_window = window_after(before);
        let window = window_after(frames);
        assert(window == old_window.pushed(frames.last()));
        assert forall|i: int| 0 <= i < window.slots.len() implies #[trigger] window.slots[i]
            == frames[n - 1 - (n - 1 - i) % RING_SIZE as int] by {
            lemma_reach(n, i);
            if i < old_window.slots.len() {
                assert(old_window.slots[i] == before[n - 2 - (n - 2 - i) % RING_SIZE as int]);
            }
        }
    }
}

} // verus!
