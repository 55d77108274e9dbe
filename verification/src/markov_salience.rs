//! A Markov chain over entropy buckets that predicts which asset groups come next.
//!
//! The normalised entropy is quantised into buckets. Counting the transitions
//! between them gives, for the present bucket, a probability of each next one:
//! its salience. Asset group `g` belongs to bucket `g % BUCKET_COUNT`.

use vstd::prelude::*;

use crate::binary32::Binary32;
use crate::binary32_laws;
use crate::heapless_vec::HeaplessVec;

verus! {

/// Number of entropy buckets.
pub const BUCKET_COUNT: usize = 8;

/// Number of asset groups that are considered.
pub const GROUP_LIMIT: usize = 64;

/// Probability above which a bucket is worth a prefetch.
pub open spec fn salience_threshold_spec() -> Binary32 {
    Binary32::fraction(1, 4)
}

/// Probability above which a bucket is worth a prefetch.
pub fn salience_threshold() -> (r: Binary32)
    ensures
        r == salience_threshold_spec(),
{
    Binary32::from_ratio(1, 4)
}

/// Whether a bit of a mask is set.
pub open spec fn mask_has(mask: u8, bit: u8) -> bool {
    (mask >> bit) & 1 == 1
}

/// Transition counts between entropy buckets.
#[derive(Debug)]
pub struct MarkovSalience {
    /// Number of transitions from one bucket (first index) to another.
    pub transitions: [[u32; BUCKET_COUNT]; BUCKET_COUNT],
    /// The present bucket.
    pub current_bucket: usize,
    /// Number of transitions from each bucket.
    pub total: [u32; BUCKET_COUNT],
}

impl Clone for MarkovSalience {
    fn clone(&self) -> (r: MarkovSalience)
        ensures
            r == *self,
    {
        MarkovSalience {
            transitions: self.transitions,
            current_bucket: self.current_bucket,
            total: self.total,
        }
    }
}

/// One where a condition holds.
pub open spec fn one_if(condition: bool) -> int {
    if condition {
        1
    } else {
        0
    }
}

/// The sum of the first `n` numbers of a row.
pub open spec fn row_sum(row: Seq<u32>, n: nat) -> nat
    decreases n,
{
    if n == 0 {
        0
    } else {
        row_sum(row, (n - 1) as nat) + row[n - 1] as nat
    }
}

impl MarkovSalience {
    pub open spec fn count(self, from: int, to: int) -> u32 {
        self.transitions[from][to]
    }

    /// The present bucket exists, and the totals are those of the rows.
    pub open spec fn consistent(self) -> bool {
        &&& self.current_bucket < BUCKET_COUNT
        &&& forall|i: int|
            0 <= i < BUCKET_COUNT ==> (#[trigger] self.total[i]) as nat == row_sum(
                self.transitions[i]@,
                BUCKET_COUNT as nat,
            )
    }

    /// The bucket of a normalised entropy.
    pub open spec fn bucket_spec(h_normalized: Binary32) -> nat {
        let b = h_normalized.product(Binary32::whole(BUCKET_COUNT as nat)).truncated(
            u32::MAX as nat,
        );
        if b < BUCKET_COUNT {
            b
        } else {
            (BUCKET_COUNT - 1) as nat
        }
    }

    /// The probability of a next bucket; the same for all without a history.
    pub open spec fn salience_of(self, bucket: int) -> Binary32 {
        let from = self.current_bucket as int;
        if self.total[from] == 0 {
            Binary32::fraction(1, BUCKET_COUNT as nat)
        } else {
            Binary32::whole(self.count(from, bucket) as nat).quotient(
                Binary32::whole(self.total[from] as nat),
            )
        }
    }

    /// Whether a bucket is worth a prefetch.
    pub open spec fn salient(self, bucket: int) -> bool {
        salience_threshold_spec().below(self.salience_of(bucket))
    }

    /// Whether nothing was observed yet.
    pub open spec fn is_fresh(self) -> bool {
        &&& self.current_bucket == 0
        &&& forall|i: int, j: int|
            0 <= i < BUCKET_COUNT && 0 <= j < BUCKET_COUNT ==> #[trigger] self.count(i, j) == 0
        &&& forall|i: int| 0 <= i < BUCKET_COUNT ==> #[trigger] self.total[i] == 0
    }

    /// Whether this is the chain after `before` has moved to the bucket of an
    /// entropy: one transition more, and nothing else changed.
    pub open spec fn follows(self, before: MarkovSalience, h_normalized: Binary32) -> bool {
        let from = before.current_bucket;
        let to = Self::bucket_spec(h_normalized);
        &&& self.current_bucket == to
        &&& forall|i: int, j: int|
            0 <= i < BUCKET_COUNT && 0 <= j < BUCKET_COUNT ==> #[trigger] self.count(i, j)
                == before.count(i, j) + one_if(i == from && j == to)
        &&& forall|i: int|
            0 <= i < BUCKET_COUNT ==> #[trigger] self.total[i] == before.total[i] + one_if(
                i == from,
            )
    }

    /// Whether no counter overflows on the move to the bucket of an entropy.
    pub open spec fn has_room(self, h_normalized: Binary32) -> bool {
        &&& self.current_bucket < BUCKET_COUNT
        &&& self.count(self.current_bucket as int, Self::bucket_spec(h_normalized) as int)
            < u32::MAX
        &&& self.total[self.current_bucket as int] < u32::MAX
    }

    /// A chain without a history, in the lowest bucket.
    pub fn new() -> (r: MarkovSalience)
        ensures
            r.is_fresh(),
            r.consistent(),
    {
        let r = MarkovSalience {
            transitions: [[0;BUCKET_COUNT];BUCKET_COUNT],
            current_bucket: 0,
            total: [0;BUCKET_COUNT],
        };
        proof {
            assert forall|i: int| 0 <= i < BUCKET_COUNT implies (#[trigger] r.total[i]) as nat
                == row_sum(r.transitions[i]@, BUCKET_COUNT as nat) by {
                lemma_empty_row(r.transitions[i]@, BUCKET_COUNT as nat);
            }
        }
        r
    }

    /// The bucket of a normalised entropy. What lies outside the range from 0 to 1
    /// goes to the nearest end; what is not a number goes to the lowest bucket.
    pub fn bucket(h_normalized: Binary32) -> (r: usize)
        ensures
            r == Self::bucket_spec(h_normalized),
            r < BUCKET_COUNT,
    {
        let b: usize = h_normalized.times(Binary32::from_u32(8)).truncate(u32::MAX) as usize;
        if b < BUCKET_COUNT {
            b
        } else {
            BUCKET_COUNT - 1
        }
    }

    /// Records the transition to the bucket of a new entropy and moves there.
    pub fn observe(&mut self, new_h_normalized: Binary32)
        requires
            old(self).has_room(new_h_normalized),
        ensures
            final(self).follows(*old(self), new_h_normalized),
            final(self).current_bucket < BUCKET_COUNT,
            old(self).consistent() ==> final(self).consistent(),
    {
        let next: usize = Self::bucket(new_h_normalized);
        let from: usize = self.current_bucket;
        self.transitions[from][next] = self.transitions[from][next] + 1;
        self.total[from] = self.total[from] + 1;
        self.current_bucket = next;
        proof {
            assert(self.transitions[from as int]@ =~= old(self).transitions[from as int]@.update(
                next as int,
                (old(self).transitions[from as int][next as int] + 1) as u32,
            ));
            if old(self).consistent() {
                lemma_row_grows(
                    old(self).transitions[from as int]@,
                    next as int,
                    BUCKET_COUNT as nat,
                );
            }
        }
    }
}

impl MarkovSalience {
    /// Whether one group is more urgent than another: its bucket is more salient,
    /// or as salient and the group comes first.
    pub open spec fn ranks_before(self, g: int, other: int) -> bool {
        let s = self.salience_of(g % BUCKET_COUNT as int);
        let t = self.salience_of(other % BUCKET_COUNT as int);
        t.key() < s.key() || (t.key() == s.key() && g < other)
    }

    /// Whether a list holds the most urgent groups of salient buckets, up to
    /// `max_groups` of the first `total_groups` (and the first `GROUP_LIMIT`), the
    /// most urgent first.
    pub open spec fn selects(
        self,
        groups: Seq<u32>,
        total_groups: nat,
        max_groups: nat,
    ) -> bool {
        &&& groups.len() <= max_groups
        &&& forall|i: int|
            0 <= i < groups.len() ==> self.is_candidate(#[trigger] groups[i] as int, total_groups)
        &&& forall|i: int, j: int|
            0 <= i < j < groups.len() ==> self.ranks_before(
                #[trigger] groups[i] as int,
                #[trigger] groups[j] as int,
            )
        &&& forall|g: int|
            #[trigger]
            self.is_candidate(g, total_groups) && !groups.contains(g as u32) ==> {
                &&& groups.len() == max_groups
                &&& forall|i: int|
                    0 <= i < groups.len() ==> self.ranks_before(#[trigger] groups[i] as int, g)
            }
    }

    /// Whether a group exists, is considered, and belongs to a salient bucket.
    pub open spec fn is_candidate(self, g: int, total_groups: nat) -> bool {
        0 <= g < total_groups && g < GROUP_LIMIT && self.salient(g % BUCKET_COUNT as int)
    }

    /// The probability of each next bucket.
    pub fn salience(&self) -> (r: [Binary32; BUCKET_COUNT])
        requires
            self.current_bucket < BUCKET_COUNT,
        ensures
            forall|j: int|
                0 <= j < BUCKET_COUNT ==> #[trigger] r[j] == self.salience_of(j) && !r[j].nan()
                    && !r[j].negative(),
    {
        let from: usize = self.current_bucket;
        let t: u32 = self.total[from];
        let mut r: [Binary32; BUCKET_COUNT] = [Binary32::from_ratio(1, 8);BUCKET_COUNT];
        proof {
            binary32_laws::lemma_fraction_monotone(1, 8, 1, 8);
        }
        if t != 0 {
            let divisor: Binary32 = Binary32::from_u32(t);
            let mut j: usize = 0;
            while j < BUCKET_COUNT
                invariant
                    j <= BUCKET_COUNT,
                    from == self.current_bucket,
                    from < BUCKET_COUNT,
                    t == self.total[from as int],
                    t != 0,
                    divisor == Binary32::whole(t as nat),
                    forall|i: int|
                        0 <= i < j ==> #[trigger] r[i] == self.salience_of(i) && !r[i].nan()
                            && !r[i].negative(),
                decreases BUCKET_COUNT - j,
            {
                proof {
                    binary32_laws::lemma_natural_quotient(
                        self.transitions[from as int][j as int] as nat,
                        t as nat,
                    );
                }
                r[j] = Binary32::from_u32(self.transitions[from][j]).over(divisor);
                j = j + 1;
            }
        }
        r
    }

    /// The buckets that are worth a prefetch, one bit each.
    pub fn prefetch_mask(&self) -> (r: u8)
        requires
            self.current_bucket < BUCKET_COUNT,
        ensures
            forall|j: u8| j < BUCKET_COUNT ==> #[trigger] mask_has(r, j) == self.salient(j as int),
    {
        let s: [Binary32; BUCKET_COUNT] = self.salience();
        let threshold: Binary32 = salience_threshold();
        let mut mask: u8 = 0;
        let mut j: u8 = 0;
        assert(forall|i: u8| i < 8 ==> !((0u8 >> i) & 1 == 1)) by (bit_vector);
        while j < 8
            invariant
                j <= 8,
                threshold == salience_threshold_spec(),
                forall|i: int| 0 <= i < BUCKET_COUNT ==> #[trigger] s[i] == self.salience_of(i),
                forall|i: u8|
                    i < BUCKET_COUNT ==> #[trigger] mask_has(mask, i) == (i < j && self.salient(
                        i as int,
                    )),
            decreases 8 - j,
        {
            if s[j as usize].is_above(threshold) {
                let ghost before = mask;
                mask = mask | (1u8 << j);
                assert(forall|i: u8|
                    i < 8 ==> ((((before | (1u8 << j)) >> i) & 1 == 1) <==> ((before >> i) & 1 == 1
                        || i == j))) by (bit_vector)
                    requires
                        j < 8,
                ;
                assert forall|i: u8| i < BUCKET_COUNT implies #[trigger] mask_has(mask, i) == (i < j
                    + 1 && self.salient(i as int)) by {
                    assert(mask_has(before, i) == (i < j && self.salient(i as int)));
                }
            }
            j = j + 1;
        }
        mask
    }
}

impl MarkovSalience {
    /// Whether a list holds the numbers below `n`, the most urgent group first.
    spec fn is_ranking(self, order: Seq<u32>, n: nat) -> bool {
        &&& n <= order.len()
        &&& forall|i: int| 0 <= i < n ==> (#[trigger] order[i]) < n
        &&& forall|i: int, j: int|
            0 <= i < j < n ==> self.ranks_before(
                #[trigger] order[i] as int,
                #[trigger] order[j] as int,
            )
        &&& forall|g: u32| g < n ==> #[trigger] order.take(n as int).contains(g)
    }

    /// Whether a list is the front of a ranking that has a salient bucket, looking at
    /// the first `bound` groups.
    spec fn fronts(self, out: Seq<u32>, order: Seq<u32>, bound: nat) -> bool {
        &&& forall|k: int|
            0 <= k < out.len() ==> #[trigger] out[k] == order[k] && self.salient(
                order[k] as int % BUCKET_COUNT as int,
            )
        &&& forall|k: int|
            out.len() <= k < bound ==> !self.salient(
                #[trigger] order[k] as int % BUCKET_COUNT as int,
            )
    }

    /// Putting the next group behind all that are at least as salient keeps a
    /// ranking.
    proof fn lemma_insertion(self, before: Seq<u32>, after: Seq<u32>, at: int, n: nat)
        requires
            self.is_ranking(before, n),
            n < before.len() == after.len(),
            n < u32::MAX,
            0 <= at <= n,
            forall|i: int| 0 <= i < at ==> after[i] == before[i],
            forall|i: int| at < i <= n ==> after[i] == before[i - 1],
            after[at] == n,
            forall|i: int|
                at <= i < n ==> self.salience_of(
                    #[trigger] before[i] as int % BUCKET_COUNT as int,
                ).key() < self.salience_of(n as int % BUCKET_COUNT as int).key(),
            at > 0 ==> self.salience_of(n as int % BUCKET_COUNT as int).key() <= self.salience_of(
                before[at - 1] as int % BUCKET_COUNT as int,
            ).key(),
        ensures
            self.is_ranking(after, n + 1),
    {
        assert forall|i: int| 0 <= i < at implies self.ranks_before(
            #[trigger] before[i] as int,
            n as int,
        ) by {
            if i < at - 1 {
                assert(self.ranks_before(before[i] as int, before[at - 1] as int));
            }
        }
        assert forall|i: int| 0 <= i < n + 1 implies (#[trigger] after[i]) < n + 1 by {
            if i > at {
                assert(before[i - 1] < n);
            } else if i < at {
                assert(before[i] < n);
            }
        }
        assert forall|i: int, j: int| 0 <= i < j < n + 1 implies self.ranks_before(
            #[trigger] after[i] as int,
            #[trigger] after[j] as int,
        ) by {
            if i < at && j < at {
                assert(self.ranks_before(before[i] as int, before[j] as int));
            } else if i < at && j == at {
                assert(self.ranks_before(before[i] as int, n as int));
            } else if i < at {
                assert(self.ranks_before(before[i] as int, before[j - 1] as int));
            } else if i == at {
                assert(before[j - 1] < n);
            } else {
                assert(self.ranks_before(before[i - 1] as int, before[j - 1] as int));
            }
        }
        assert forall|g: u32| g < n + 1 implies #[trigger] after.take((n + 1) as int).contains(
            g,
        ) by {
            let taken = after.take((n + 1) as int);
            if g == n {
                assert(taken[at] == g);
            } else {
                assert(before.take(n as int).contains(g));
                let i = choose|i: int| 0 <= i < n && before.take(n as int)[i] == g;
                if i < at {
                    assert(taken[i] == g);
                } else {
                    assert(taken[i + 1] == g);
                }
            }
        }
    }

    /// Whether these are the saliences of the buckets, all of them numbers.
    spec fn has_saliences(self, s: [Binary32; BUCKET_COUNT]) -> bool {
        forall|j: int|
            0 <= j < BUCKET_COUNT ==> #[trigger] s[j] == self.salience_of(j) && !s[j].nan()
    }

    /// The first `n` groups, the most urgent first, by insertion.
    fn rank(&self, s: &[Binary32; BUCKET_COUNT], n: usize) -> (order: [u32; GROUP_LIMIT])
        requires
            self.has_saliences(*s),
            n <= GROUP_LIMIT,
        ensures
            self.is_ranking(order@, n as nat),
    {
        let mut order: [u32; GROUP_LIMIT] = [0;GROUP_LIMIT];
        let mut g: usize = 0;
        while g < n
            invariant
                g <= n <= GROUP_LIMIT,
                self.has_saliences(*s),
                self.is_ranking(order@, g as nat),
            decreases n - g,
        {
            let ghost before = order@;
            let own: Binary32 = s[g % BUCKET_COUNT];
            let mut at: usize = g;
            while at > 0 && s[order[at - 1] as usize % BUCKET_COUNT].is_below(own)
                invariant
                    at <= g < n <= GROUP_LIMIT,
                    self.is_ranking(before, g as nat),
                    before.len() == GROUP_LIMIT,
                    self.has_saliences(*s),
                    own == self.salience_of(g as int % BUCKET_COUNT as int),
                    !own.nan(),
                    forall|i: int| 0 <= i < at ==> order[i] == before[i],
                    forall|i: int| at < i <= g ==> order[i] == before[i - 1],
                    forall|i: int|
                        at <= i < g ==> self.salience_of(
                            #[trigger] before[i] as int % BUCKET_COUNT as int,
                        ).key() < own.key(),
                decreases at,
            {
                let ghost shifted = order@;
                order[at] = order[at - 1];
                at = at - 1;
                assert forall|i: int| at < i <= g implies order[i] == before[i - 1] by {
                    if i > at + 1 {
                        assert(shifted[i] == before[i - 1]);
                    }
                }
            }
            order[at] = g as u32;
            proof {
                if at > 0 {
                    assert(order[at - 1] == before[at - 1]);
                    let b = before[at - 1] as int % BUCKET_COUNT as int;
                    assert(s[b] == self.salience_of(b));
                }
                self.lemma_insertion(before, order@, at as int, g as nat);
            }
            g = g + 1;
        }
        order
    }

    /// The groups of salient buckets among the first `bound` of a ranking.
    fn salient_front(
        &self,
        s: &[Binary32; BUCKET_COUNT],
        order: &[u32; GROUP_LIMIT],
        n: usize,
        bound: usize,
    ) -> (out: HeaplessVec<u32, 64>)
        requires
            self.has_saliences(*s),
            self.is_ranking(order@, n as nat),
            bound <= n <= GROUP_LIMIT,
        ensures
            out@.len() <= bound,
            self.fronts(out@, order@, bound as nat),
    {
        let mut out: HeaplessVec<u32, 64> = HeaplessVec::new();
        let threshold: Binary32 = salience_threshold();
        let mut i: usize = 0;
        while i < bound
            invariant
                i <= bound <= n <= GROUP_LIMIT,
                threshold == salience_threshold_spec(),
                self.has_saliences(*s),
                self.is_ranking(order@, n as nat),
                out@.len() <= i,
                self.fronts(out@, order@, i as nat),
            decreases bound - i,
        {
            let group: u32 = order[i];
            let ghost b = group as int % BUCKET_COUNT as int;
            assert(s[b] == self.salience_of(b));
            let ghost pushed = out@;
            if s[group as usize % BUCKET_COUNT].is_above(threshold) {
                proof {
                    if out@.len() < i {
                        let k = out@.len() as int;
                        assert(self.ranks_before(order[k] as int, order[i as int] as int));
                        let c = order[k] as int % BUCKET_COUNT as int;
                        assert(s[c] == self.salience_of(c));
                        assert(!self.salient(c));
                    }
                    assert(out@.len() == i);
                }
                let _ = out.push(group);
                assert(out@ == pushed.push(group));
            }
            i = i + 1;
        }
        out
    }

    /// The asset groups to prefetch, the most urgent first: groups of salient
    /// buckets, no more than `max_groups`.
    pub fn prioritized_groups(&self, total_groups: u32, max_groups: u32) -> (r: HeaplessVec<
        u32,
        64,
    >)
        requires
            self.current_bucket < BUCKET_COUNT,
        ensures
            self.selects(r@, total_groups as nat, max_groups as nat),
    {
        let s: [Binary32; BUCKET_COUNT] = self.salience();
        let n: usize = if total_groups > 64 {
            64
        } else {
            total_groups as usize
        };
        let order: [u32; GROUP_LIMIT] = self.rank(&s, n);
        let bound: usize = if (max_groups as usize) < n {
            max_groups as usize
        } else {
            n
        };
        let out: HeaplessVec<u32, 64> = self.salient_front(&s, &order, n, bound);
        proof {
            assert forall|j: int| 0 <= j < BUCKET_COUNT implies !(#[trigger] self.salience_of(
                j,
            )).nan() by {
                assert(s[j] == self.salience_of(j));
            }
            self.lemma_selection(
                order@,
                n as nat,
                out@,
                bound as nat,
                total_groups as nat,
                max_groups as nat,
            );
        }
        out
    }

    /// The salient front of a ranking is what is to be selected.
    proof fn lemma_selection(
        self,
        order: Seq<u32>,
        n: nat,
        out: Seq<u32>,
        bound: nat,
        total_groups: nat,
        max_groups: nat,
    )
        requires
            self.is_ranking(order, n),
            n <= total_groups,
            n <= GROUP_LIMIT,
            n < total_groups ==> n == GROUP_LIMIT,
            out.len() <= bound <= n,
            bound <= max_groups,
            bound == n || bound == max_groups,
            forall|j: int| 0 <= j < BUCKET_COUNT ==> !(#[trigger] self.salience_of(j)).nan(),
            self.fronts(out, order, bound),
        ensures
            self.selects(out, total_groups, max_groups),
    {
        assert forall|i: int| 0 <= i < out.len() implies self.is_candidate(
            #[trigger] out[i] as int,
            total_groups,
        ) by {
            assert(out[i] == order[i]);
        }
        assert forall|i: int, j: int| 0 <= i < j < out.len() implies self.ranks_before(
            #[trigger] out[i] as int,
            #[trigger] out[j] as int,
        ) by {
            assert(self.ranks_before(order[i] as int, order[j] as int));
        }
        assert forall|g: int| #[trigger]
            self.is_candidate(g, total_groups) && !out.contains(g as u32) implies {
            &&& out.len() == max_groups
            &&& forall|i: int|
                0 <= i < out.len() ==> self.ranks_before(#[trigger] out[i] as int, g)
        } by {
            assert(order.take(n as int).contains(g as u32));
            let k = choose|k: int| 0 <= k < n && order.take(n as int)[k] == g as u32;
            assert(order[k] == g);
            if k < out.len() {
                assert(out[k] == g as u32);
            }
            if out.len() < max_groups {
                let m = out.len() as int;
                assert(!self.salient(order[m] as int % BUCKET_COUNT as int));
                if m < k {
                    assert(self.ranks_before(order[m] as int, order[k] as int));
                    assert(!self.salience_of(order[m] as int % BUCKET_COUNT as int).nan());
                }
            }
            assert forall|i: int| 0 <= i < out.len() implies self.ranks_before(
                #[trigger] out[i] as int,
                g,
            ) by {
                assert(self.ranks_before(order[i] as int, order[k] as int));
            }
        }
    }
}

proof fn lemma_empty_row(row: Seq<u32>, n: nat)
    requires
        forall|j: int| 0 <= j < n ==> #[trigger] row[j] == 0,
    ensures
        row_sum(row, n) == 0,
    decreases n,
{
    if n > 0 {
        lemma_empty_row(row, (n - 1) as nat);
    }
}

proof fn lemma_row_grows(row: Seq<u32>, at: int, n: nat)
    requires
        0 <= at < row.len(),
        n <= row.len(),
        row[at] < u32::MAX,
    ensures
        row_sum(row.update(at, (row[at] + 1) as u32), n) == row_sum(row, n) + one_if(at < n),
    decreases n,
{
    if n > 0 {
        lemma_row_grows(row, at, (n - 1) as nat);
    }
}

proof fn lemma_row_covers(row: Seq<u32>, at: int, n: nat)
    requires
        0 <= at < n <= row.len(),
    ensures
        row[at] <= row_sum(row, n),
    decreases n,
{
    if at < n - 1 {
        lemma_row_covers(row, at, (n - 1) as nat);
    }
}

/// The sum of the first `n` saliences, exactly and in units.
pub open spec fn salience_sum(chain: MarkovSalience, n: nat) -> int
    decreases n,
{
    if n == 0 {
        0
    } else {
        salience_sum(chain, (n - 1) as nat) + chain.salience_of(n - 1).units()
    }
}

proof fn lemma_salience_sum_is_close(chain: MarkovSalience, n: nat)
    requires
        chain.consistent(),
        chain.total[chain.current_bucket as int] > 0,
        n <= BUCKET_COUNT,
    ensures
        ({
            let from = chain.current_bucket as int;
            let t = chain.total[from];
            let part = row_sum(chain.transitions[from]@, n) * Binary32::units_in_one();
            let whole = salience_sum(chain, n) * t;
            &&& whole * 0xFFFF_FE00_0001 <= part * 0x1_0000_0100_0000
            &&& part * 0xFFFF_FF00_0000 <= whole * 0x1_0000_0200_0001
        }),
    decreases n,
{
    let from = chain.current_bucket as int;
    let row = chain.transitions[from]@;
    let t = chain.total[from] as int;
    let u = Binary32::units_in_one() as int;
    if n == 0 {
        assert(0 * u == 0);
        assert(0 * t == 0);
    } else {
        let k = (n - 1) as nat;
        lemma_salience_sum_is_close(chain, k);
        let c = row[k as int] as int;
        assert(chain.count(from, k as int) == c);
        lemma_row_covers(row, k as int, BUCKET_COUNT as nat);
        binary32_laws::lemma_share_is_close(c as nat, t as nat);
        let before = salience_sum(chain, k);
        let more = chain.salience_of(k as int).units();
        let counted = row_sum(row, k) as int;
        assert((before + more) * t == before * t + more * t) by (nonlinear_arith);
        assert((counted + c) * u == counted * u + c * u) by (nonlinear_arith);
    }
}

/// The saliences of the next buckets sum up to one, but for rounding: exactly added,
/// they miss it by less than one part in a million.
pub proof fn law_salience_sums_to_one(chain: MarkovSalience)
    requires
        chain.consistent(),
    ensures
        ({
            let one = Binary32::units_in_one();
            let sum = salience_sum(chain, BUCKET_COUNT as nat);
            one * 999_999 < sum * 1_000_000 < one * 1_000_001
        }),
{
    let from = chain.current_bucket as int;
    let t = chain.total[from] as int;
    let u = Binary32::units_in_one() as int;
    let sum = salience_sum(chain, BUCKET_COUNT as nat);
    vstd::arithmetic::power2::lemma_pow2_pos(149);
    if t == 0 {
        binary32_laws::lemma_eighth();
        let eighth = Binary32::fraction(1, 8).units();
        assert forall|j: int| 0 <= j < BUCKET_COUNT implies #[trigger] chain.salience_of(j).units()
            == eighth by {}
        reveal_with_fuel(salience_sum, 9);
        assert(sum == 8 * eighth);
    } else {
        lemma_salience_sum_is_close(chain, BUCKET_COUNT as nat);
        assert(chain.total[from] as nat == row_sum(
            chain.transitions[from]@,
            BUCKET_COUNT as nat,
        ));
        assert(sum * 0xFFFF_FE00_0001 <= u * 0x1_0000_0100_0000) by (nonlinear_arith)
            requires
                (sum * t) * 0xFFFF_FE00_0001 <= (t * u) * 0x1_0000_0100_0000,
                t > 0,
        ;
        assert(u * 0xFFFF_FF00_0000 <= sum * 0x1_0000_0200_0001) by (nonlinear_arith)
            requires
                (t * u) * 0xFFFF_FF00_0000 <= (sum * t) * 0x1_0000_0200_0001,
                t > 0,
        ;
    }
}

/// With fewer than 2^24 transitions from the present bucket, a next bucket is worth
/// a prefetch exactly where more than a quarter of them went there: rounding does
/// not decide.
pub proof fn law_salient_means_more_than_a_quarter(chain: MarkovSalience, bucket: int)
    requires
        chain.consistent(),
        0 <= bucket < BUCKET_COUNT,
        0 < chain.total[chain.current_bucket as int] < 0x100_0000,
    ensures
        chain.salient(bucket) <==> 4 * chain.count(chain.current_bucket as int, bucket)
            > chain.total[chain.current_bucket as int],
{
    let from = chain.current_bucket as int;
    lemma_row_covers(chain.transitions[from]@, bucket, BUCKET_COUNT as nat);
    assert(chain.total[from] as nat == row_sum(chain.transitions[from]@, BUCKET_COUNT as nat));
    binary32_laws::lemma_share_above_a_quarter(
        chain.count(from, bucket) as nat,
        chain.total[from] as nat,
    );
}

/// Without a history no bucket is worth a prefetch.
pub proof fn law_no_prefetch_without_a_history(chain: MarkovSalience, bucket: int)
    requires
        chain.total[chain.current_bucket as int] == 0,
    ensures
        !chain.salient(bucket),
{
    binary32_laws::lemma_fraction_monotone(1, 8, 1, 4);
}

/// The buckets quantise the range from zero to one uniformly: bucket `b` holds the
/// numbers from `b / 8` to below `(b + 1) / 8`, the last one all numbers above too.
pub proof fn law_buckets_are_uniform(h: Binary32)
    requires
        h.finite(),
        !h.negative(),
    ensures
        MarkovSalience::bucket_spec(h) == {
            let eighths = 8 * h.size() / Binary32::units_in_one();
            if eighths > 7 {
                7
            } else {
                eighths
            }
        },
{
    binary32_laws::lemma_eight_times(h, u32::MAX as nat);
}

/// The mask and the list of groups agree: every listed group belongs to a bucket in
/// the mask, and with room for all groups every group of such a bucket is listed.
pub proof fn law_groups_follow_the_mask(
    chain: MarkovSalience,
    mask: u8,
    groups: Seq<u32>,
    total_groups: nat,
    max_groups: nat,
)
    requires
        forall|j: u8| j < BUCKET_COUNT ==> #[trigger] mask_has(mask, j) == chain.salient(j as int),
        chain.selects(groups, total_groups, max_groups),
    ensures
        forall|i: int|
            0 <= i < groups.len() ==> #[trigger] mask_has(
                mask,
                (groups[i] as int % BUCKET_COUNT as int) as u8,
            ),
        forall|g: u32|
            g < total_groups && g < GROUP_LIMIT && groups.len() < max_groups
                && #[trigger] mask_has(mask, (g as int % BUCKET_COUNT as int) as u8)
                ==> groups.contains(g),
{
    assert forall|i: int| 0 <= i < groups.len() implies #[trigger] mask_has(
        mask,
        (groups[i] as int % BUCKET_COUNT as int) as u8,
    ) by {
        assert(chain.is_candidate(groups[i] as int, total_groups));
    }
    assert forall|g: u32|
        g < total_groups && g < GROUP_LIMIT && groups.len() < max_groups && #[trigger] mask_has(
            mask,
            (g as int % BUCKET_COUNT as int) as u8,
        ) implies groups.contains(g) by {
        assert(chain.is_candidate(g as int, total_groups));
    }
}

proof fn lemma_selections_agree(
    chain: MarkovSalience,
    first: Seq<u32>,
    second: Seq<u32>,
    total_groups: nat,
    max_groups: nat,
    i: int,
)
    requires
        chain.selects(first, total_groups, max_groups),
        chain.selects(second, total_groups, max_groups),
        0 <= i < first.len(),
        i < second.len(),
        forall|j: int| 0 <= j < i ==> first[j] == second[j],
        chain.ranks_before(first[i] as int, second[i] as int),
    ensures
        first[i] == second[i],
{
    let a = first[i];
    assert(chain.is_candidate(a as int, total_groups));
    if second.contains(a) {
        let j = choose|j: int| 0 <= j < second.len() && second[j] == a;
        if j < i {
            assert(chain.ranks_before(first[j] as int, first[i] as int));
        } else if j > i {
            assert(chain.ranks_before(second[i] as int, second[j] as int));
        }
    } else {
        assert(chain.ranks_before(second[i] as int, a as int));
    }
}

proof fn lemma_selection_prefix(
    chain: MarkovSalience,
    first: Seq<u32>,
    second: Seq<u32>,
    total_groups: nat,
    max_groups: nat,
    n: int,
)
    requires
        chain.selects(first, total_groups, max_groups),
        chain.selects(second, total_groups, max_groups),
        0 <= n <= first.len(),
        n <= second.len(),
    ensures
        forall|j: int| 0 <= j < n ==> first[j] == second[j],
    decreases n,
{
    if n > 0 {
        let i = n - 1;
        lemma_selection_prefix(chain, first, second, total_groups, max_groups, i);
        if chain.ranks_before(first[i] as int, second[i] as int) {
            lemma_selections_agree(chain, first, second, total_groups, max_groups, i);
        } else if chain.ranks_before(second[i] as int, first[i] as int) {
            lemma_selections_agree(chain, second, first, total_groups, max_groups, i);
        }
    }
}

proof fn lemma_selection_length(
    chain: MarkovSalience,
    first: Seq<u32>,
    second: Seq<u32>,
    total_groups: nat,
    max_groups: nat,
)
    requires
        chain.selects(first, total_groups, max_groups),
        chain.selects(second, total_groups, max_groups),
    ensures
        first.len() >= second.len(),
{
    if first.len() < second.len() {
        let n = first.len() as int;
        lemma_selection_prefix(chain, first, second, total_groups, max_groups, n);
        let b = second[n];
        assert(chain.is_candidate(b as int, total_groups));
        if first.contains(b) {
            let j = choose|j: int| 0 <= j < first.len() && first[j] == b;
            assert(chain.ranks_before(second[j] as int, second[n] as int));
        }
    }
}

/// There is only one list of groups to prefetch.
pub proof fn law_selection_is_unique(
    chain: MarkovSalience,
    first: Seq<u32>,
    second: Seq<u32>,
    total_groups: nat,
    max_groups: nat,
)
    requires
        chain.selects(first, total_groups, max_groups),
        chain.selects(second, total_groups, max_groups),
    ensures
        first == second,
{
    lemma_selection_length(chain, first, second, total_groups, max_groups);
    lemma_selection_length(chain, second, first, total_groups, max_groups);
    lemma_selection_prefix(chain, first, second, total_groups, max_groups, first.len() as int);
    assert(first =~= second);
}

/// The bucket that a chain is in after `t` of the observed entropies: the lowest one
/// before the first.
pub open spec fn bucket_at(observed: Seq<Binary32>, t: int) -> int {
    if t == 0 {
        0
    } else {
        MarkovSalience::bucket_spec(observed[t - 1]) as int
    }
}

/// How often bucket `i` is followed by bucket `j` within the first `n` observations.
pub open spec fn times_followed(observed: Seq<Binary32>, i: int, j: int, n: nat) -> int
    decreases n,
{
    if n == 0 {
        0
    } else {
        times_followed(observed, i, j, (n - 1) as nat) + if bucket_at(observed, n - 1) == i
            && bucket_at(observed, n as int) == j {
            1int
        } else {
            0int
        }
    }
}

/// How often bucket `i` is left, for itself or another, within the first `n`
/// observations.
pub open spec fn times_left(observed: Seq<Binary32>, i: int, n: nat) -> int
    decreases n,
{
    if n == 0 {
        0
    } else {
        times_left(observed, i, (n - 1) as nat) + if bucket_at(observed, n - 1) == i {
            1int
        } else {
            0int
        }
    }
}

/// Whether the chains are the states of a new chain that takes in the entropies.
pub open spec fn is_run(chains: Seq<MarkovSalience>, observed: Seq<Binary32>) -> bool {
    &&& chains.len() == observed.len() + 1
    &&& chains[0].is_fresh()
    &&& forall|t: int|
        0 <= t < observed.len() ==> (#[trigger] chains[t + 1]).follows(chains[t], observed[t])
}

proof fn lemma_counts_are_transitions(
    chains: Seq<MarkovSalience>,
    observed: Seq<Binary32>,
    n: nat,
)
    requires
        is_run(chains, observed),
        n <= observed.len(),
    ensures
        chains[n as int].current_bucket == bucket_at(observed, n as int),
        forall|i: int, j: int|
            0 <= i < BUCKET_COUNT && 0 <= j < BUCKET_COUNT
                ==> #[trigger] chains[n as int].transitions[i][j] == times_followed(
                observed,
                i,
                j,
                n,
            ),
        forall|i: int|
            0 <= i < BUCKET_COUNT ==> #[trigger] chains[n as int].total[i] == times_left(
                observed,
                i,
                n,
            ),
    decreases n,
{
    if n == 0 {
        assert forall|i: int, j: int|
            0 <= i < BUCKET_COUNT && 0 <= j < BUCKET_COUNT implies #[trigger] chains[0].transitions[i][j]
            == times_followed(observed, i, j, 0) by {
            assert(chains[0].count(i, j) == 0);
        }
    } else {
        let t = n - 1;
        lemma_counts_are_transitions(chains, observed, t as nat);
        let before = chains[t];
        let after = chains[t + 1];
        assert(after.follows(before, observed[t]));
        assert forall|i: int, j: int|
            0 <= i < BUCKET_COUNT && 0 <= j < BUCKET_COUNT implies #[trigger] after.transitions[i][j]
            == times_followed(observed, i, j, n) by {
            assert(after.count(i, j) == after.transitions[i][j]);
            assert(before.count(i, j) == before.transitions[i][j]);
        }
    }
}

/// A chain counts every transition of what it has observed, staying in a bucket like
/// any other: over any entropies, `transitions[i][j]` is the number of times that
/// bucket `i` was followed by bucket `j`, and `total[i]` the number of times that
/// bucket `i` was left.
pub proof fn law_counts_are_transitions(chains: Seq<MarkovSalience>, observed: Seq<Binary32>)
    requires
        is_run(chains, observed),
    ensures
        chains.last().current_bucket == bucket_at(observed, observed.len() as int),
        forall|i: int, j: int|
            0 <= i < BUCKET_COUNT && 0 <= j < BUCKET_COUNT
                ==> #[trigger] chains.last().transitions[i][j] == times_followed(
                observed,
                i,
                j,
                observed.len(),
            ),
        forall|i: int|
            0 <= i < BUCKET_COUNT ==> #[trigger] chains.last().total[i] == times_left(
                observed,
                i,
                observed.len(),
            ),
        row_sum(chains.last().total@, BUCKET_COUNT as nat) == observed.len(),
{
    lemma_counts_are_transitions(chains, observed, observed.len());
    lemma_departures_add_up(observed, observed.len());
    let total = chains.last().total@;
    reveal_with_fuel(row_sum, 9);
    assert(forall|i: int|
        0 <= i < BUCKET_COUNT ==> #[trigger] chains.last().total[i] == total[i]);
    assert(total[0] == times_left(observed, 0, observed.len()));
    assert(total[1] == times_left(observed, 1, observed.len()));
    assert(total[2] == times_left(observed, 2, observed.len()));
    assert(total[3] == times_left(observed, 3, observed.len()));
    assert(total[4] == times_left(observed, 4, observed.len()));
    assert(total[5] == times_left(observed, 5, observed.len()));
    assert(total[6] == times_left(observed, 6, observed.len()));
    assert(total[7] == times_left(observed, 7, observed.len()));
}

/// Every observation leaves exactly one bucket.
proof fn lemma_departures_add_up(observed: Seq<Binary32>, n: nat)
    requires
        n <= observed.len(),
    ensures
        times_left(observed, 0, n) + times_left(observed, 1, n) + times_left(observed, 2, n)
            + times_left(observed, 3, n) + times_left(observed, 4, n) + times_left(observed, 5, n)
            + times_left(observed, 6, n) + times_left(observed, 7, n) == n,
    decreases n,
{
    if n > 0 {
        lemma_departures_add_up(observed, (n - 1) as nat);
        assert(0 <= bucket_at(observed, n - 1) < 8);
    }
}

/// The salience of a bucket is its share of the transitions from the present one, but
/// for a few parts in 2^24.
pub proof fn law_salience_is_the_share_of_transitions(chain: MarkovSalience, bucket: int)
    requires
        chain.consistent(),
        0 <= bucket < BUCKET_COUNT,
        chain.total[chain.current_bucket as int] > 0,
    ensures
        ({
            let from = chain.current_bucket as int;
            let salience = chain.salience_of(bucket);
            let share = salience.units() * chain.total[from];
            let part = chain.transitions[from][bucket] * Binary32::units_in_one();
            &&& salience.finite()
            &&& share * 0xFFFF_FE00_0001 <= part * 0x1_0000_0100_0000
            &&& part * 0xFFFF_FF00_0000 <= share * 0x1_0000_0200_0001
        }),
{
    let from = chain.current_bucket as int;
    let row = chain.transitions[from]@;
    lemma_row_covers(row, bucket, BUCKET_COUNT as nat);
    assert(chain.total[from] as nat == row_sum(row, BUCKET_COUNT as nat));
    assert(chain.transitions[from][bucket] == row[bucket]);
    binary32_laws::lemma_share_is_close(row[bucket] as nat, chain.total[from] as nat);
}

/// Without a history every bucket is as likely as the next: exactly an eighth.
pub proof fn law_no_history_means_an_eighth(chain: MarkovSalience, bucket: int)
    requires
        chain.total[chain.current_bucket as int] == 0,
    ensures
        8 * chain.salience_of(bucket).units() == Binary32::units_in_one(),
{
    binary32_laws::lemma_eighth();
}

/// A bucket is salient exactly where its salience is above a quarter.
pub proof fn law_salient_is_above_a_quarter(chain: MarkovSalience, bucket: int)
    requires
        chain.salience_of(bucket).finite(),
    ensures
        chain.salient(bucket) <==> 4 * chain.salience_of(bucket).units()
            > Binary32::units_in_one(),
{
    binary32_laws::lemma_quarters(1);
    vstd::arithmetic::power2::lemma_pow2_unfold(149);
    vstd::arithmetic::power2::lemma_pow2_unfold(148);
    binary32_laws::lemma_order_is_by_units(Binary32::fraction(1, 4), chain.salience_of(bucket));
    binary32_laws::lemma_order_is_by_units(chain.salience_of(bucket), Binary32::fraction(1, 4));
}

/// What lies outside the range of the buckets goes to the nearest one, and what is no
/// number to the lowest.
pub proof fn law_buckets_at_the_ends(h: Binary32)
    ensures
        h.nan() || h.negative() ==> MarkovSalience::bucket_spec(h) == 0,
        h.infinite() && !h.negative() ==> MarkovSalience::bucket_spec(h) == 7,
        Binary32::whole(1).at_most(h) ==> MarkovSalience::bucket_spec(h) == 7,
{
    reveal(Binary32::product);
    reveal(Binary32::truncated);
    binary32_laws::lemma_one();
    binary32_laws::lemma_whole(8);
    if h.finite() && h.negative() {
        vstd::arithmetic::power2::lemma_pow2_pos(149);
        binary32_laws::lemma_rounded(
            true,
            h.size() * Binary32::whole(8).size(),
            Binary32::units_in_one(),
        );
    }
    if h.finite() && Binary32::whole(1).at_most(h) {
        let u = Binary32::units_in_one();
        binary32_laws::lemma_order_is_by_units(Binary32::whole(1), h);
        vstd::arithmetic::power2::lemma_pow2_pos(149);
        law_buckets_are_uniform(h);
        assert(8 * h.size() / u >= 8) by (nonlinear_arith)
            requires
                h.size() >= u,
                u > 0,
        ;
    }
}

/// The list of groups to prefetch holds, of the groups that exist and are considered,
/// those whose bucket has a salience above a quarter, the more salient first and of
/// equally salient ones the lower number first; where the list is full, what is left
/// out comes after all that is listed.
pub proof fn law_listed_groups_are_the_most_salient(
    chain: MarkovSalience,
    groups: Seq<u32>,
    total_groups: nat,
    max_groups: nat,
)
    requires
        chain.selects(groups, total_groups, max_groups),
    ensures
        groups.len() <= max_groups,
        forall|i: int|
            0 <= i < groups.len() ==> {
                &&& (#[trigger] groups[i]) < total_groups
                &&& groups[i] < 64
                &&& Binary32::fraction(1, 4).below(chain.salience_of(groups[i] as int % 8))
            },
        forall|i: int, j: int|
            0 <= i < j < groups.len() ==> {
                let first = chain.salience_of(#[trigger] groups[i] as int % 8);
                let second = chain.salience_of(#[trigger] groups[j] as int % 8);
                second.key() < first.key() || (second.key() == first.key() && groups[i]
                    < groups[j])
            },
        forall|g: u32|
            g < total_groups && g < 64 && Binary32::fraction(1, 4).below(
                chain.salience_of(g as int % 8),
            ) && !(#[trigger] groups.contains(g)) ==> {
                &&& groups.len() == max_groups
                &&& forall|i: int|
                    0 <= i < groups.len() ==> chain.salience_of(g as int % 8).key()
                        <= chain.salience_of(#[trigger] groups[i] as int % 8).key()
            },
{
    assert forall|i: int| 0 <= i < groups.len() implies {
        &&& (#[trigger] groups[i]) < total_groups
        &&& groups[i] < 64
        &&& Binary32::fraction(1, 4).below(chain.salience_of(groups[i] as int % 8))
    } by {
        assert(chain.is_candidate(groups[i] as int, total_groups));
    }
    assert forall|i: int, j: int| 0 <= i < j < groups.len() implies {
        let first = chain.salience_of(#[trigger] groups[i] as int % 8);
        let second = chain.salience_of(#[trigger] groups[j] as int % 8);
        second.key() < first.key() || (second.key() == first.key() && groups[i] < groups[j])
    } by {
        assert(chain.ranks_before(groups[i] as int, groups[j] as int));
    }
    assert forall|g: u32|
        g < total_groups && g < 64 && Binary32::fraction(1, 4).below(
            chain.salience_of(g as int % 8),
        ) && !(#[trigger] groups.contains(g)) implies {
        &&& groups.len() == max_groups
        &&& forall|i: int|
            0 <= i < groups.len() ==> chain.salience_of(g as int % 8).key() <= chain.salience_of(
                #[trigger] groups[i] as int % 8,
            ).key()
    } by {
        assert(chain.is_candidate(g as int, total_groups));
        assert forall|i: int| 0 <= i < groups.len() implies chain.salience_of(g as int % 8).key()
            <= chain.salience_of(#[trigger] groups[i] as int % 8).key() by {
            assert(chain.ranks_before(groups[i] as int, g as int));
        }
    }
}

} // verus!
