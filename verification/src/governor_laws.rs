//! What a frame leaves behind: the jobs in the queue, their time to live, and the hints
//! for the texture streaming.

use vstd::arithmetic::power2::{lemma_pow2_adds, lemma_pow2_pos, pow2};
use vstd::prelude::*;

use crate::binary32::Binary32;
use crate::binary32_error;
use crate::binary32_laws;
use crate::entropy::{GhostClass, ModeClassifier, SpectralEntropyState, DIM};
use crate::prefetch_governor::{GovFrameResult, MipHintBuffer, SpectralIOGovernor};
use crate::prefetch_queue;

verus! {

/// The smallest rate that counts: a millionth.
proof fn lemma_millionth(rate: Binary32)
    requires
        rate.finite(),
        !rate.below(Binary32::fraction(1, 1_000_000)),
        !rate.negative(),
    ensures
        rate.size() >= pow2(128),
{
    vstd::arithmetic::power2::lemma2_to64();
    vstd::arithmetic::power2::lemma2_to64_rest();
    binary32_laws::lemma_fraction_bits(1, 1_000_000, 0x86_37BD, 106, 0x800_0000_0000);
    let t = Binary32::fraction(1, 1_000_000);
    binary32_laws::lemma_order_is_by_units(t, rate);
    crate::rounding::lemma_magnitude_of_parts(0x86_37BD, 106);
    lemma_pow2_adds(22, 106);
    assert(t.units() == 0x86_37BD * pow2(106));
    lemma_pow2_pos(106);
}

/// The whole part of a quotient, against the exact quotient.
proof fn lemma_whole_part(g: int, q: int, l: int, r: int, u: int)
    requires
        g >= 0,
        q >= 0,
        u >= 0x1_0000_0000,
        r >= 0x1_0000_0000,
        0 <= l,
        0xFF_FFFF * binary32_error::distance(q * r - g * u) <= g * u + 0xFF_FFFF * r,
    ensures
        l * u <= q ==> 0xFF_FFFF * (l * r) <= 0x100_0000 * g + r,
        q < (l + 1) * u ==> 0xFF_FFFE * g <= 0xFF_FFFF * ((l + 1) * r) + r,
{
    let qr = q * r;
    let gu = g * u;
    let lr = l * r;
    if l * u <= q {
        assert(lr * u <= qr) by (nonlinear_arith)
            requires
                l * u <= q,
                lr == l * r,
                qr == q * r,
                r >= 0,
        {
            assert((l * u) * r <= q * r);
            assert((l * u) * r == lr * u);
        }
        assert(0xFF_FFFF * lr <= 0x100_0000 * g + r) by (nonlinear_arith)
            requires
                0xFF_FFFF * (lr * u) <= 0x100_0000 * gu + 0xFF_FFFF * r,
                gu == g * u,
                u >= 0x1_0000_0000,
                r >= 0,
        {
            if 0xFF_FFFF * lr > 0x100_0000 * g + r {
                assert((0xFF_FFFF * lr) * u > (0x100_0000 * g + r) * u);
                assert((0x100_0000 * g + r) * u == 0x100_0000 * gu + r * u);
                assert(r * u >= r * 0x1_0000_0000);
            }
        }
    }
    if q < (l + 1) * u {
        let mr = (l + 1) * r;
        assert(qr <= mr * u) by (nonlinear_arith)
            requires
                q < (l + 1) * u,
                mr == (l + 1) * r,
                qr == q * r,
                r >= 0,
        {
            assert(q * r <= ((l + 1) * u) * r);
            assert(((l + 1) * u) * r == mr * u);
        }
        assert(0xFF_FFFE * g <= 0xFF_FFFF * mr + r) by (nonlinear_arith)
            requires
                0xFF_FFFE * gu <= 0xFF_FFFF * (mr * u) + 0xFF_FFFF * r,
                gu == g * u,
                u >= 0x1_0000_0000,
                r >= 0,
        {
            if 0xFF_FFFE * g > 0xFF_FFFF * mr + r {
                assert((0xFF_FFFE * g) * u > (0xFF_FFFF * mr + r) * u);
                assert((0xFF_FFFF * mr + r) * u == 0xFF_FFFF * (mr * u) + r * u);
                assert(r * u >= r * 0x1_0000_0000);
            }
        }
    }
}

/// The lead time is the number of times the rate, rising or falling, fits into what it
/// has left to the peak, and no more than 60 frames. There is none at the peak, above
/// it, or where the rate is under a millionth. Rounding moves it by a thousandth at
/// most.
pub proof fn law_lead_is_the_gap_over_the_rate(state: SpectralEntropyState)
    requires
        state.divergence_rate.finite(),
        state.peak_divergence.finite(),
        state.divergence_rate.size() <= pow2(230),
        state.peak_divergence.size() <= pow2(230),
    ensures
        ({
            let rate = state.divergence_rate.size();
            let gap = state.peak_divergence.units() - rate;
            let lead = state.estimated_lead_frames_spec();
            &&& gap <= 0 ==> lead == 0
            &&& state.divergence_rate.absolute().below(Binary32::fraction(1, 1_000_000))
                ==> lead == 0
            &&& lead <= 60
            &&& lead > 0 ==> 1000 * (lead * rate) <= 1001 * gap + rate
            &&& lead < 60 && !state.divergence_rate.absolute().below(
                Binary32::fraction(1, 1_000_000),
            ) ==> 999 * gap <= 1000 * ((lead + 1) * rate) + rate
        }),
{
    reveal(Binary32::truncated);
    let rate = state.divergence_rate.absolute();
    let r = rate.size() as int;
    let p = state.peak_divergence.units();
    let exact = p - r;
    let u = Binary32::units_in_one() as int;
    let lead = state.estimated_lead_frames_spec();
    assert(rate.units() == r);
    lemma_pow2_pos(149);
    vstd::arithmetic::power2::lemma2_to64();
    vstd::arithmetic::power2::lemma_pow2_strictly_increases(32, 128);
    vstd::arithmetic::power2::lemma_pow2_strictly_increases(32, 149);
    lemma_pow2_adds(1, 230);
    lemma_pow2_adds(1, 231);
    vstd::arithmetic::power2::lemma_pow2_strictly_increases(232, 259);
    binary32_error::lemma_difference_error(state.peak_divergence, rate);
    let gap = state.peak_divergence.difference(rate);
    let g = gap.units();
    binary32_laws::lemma_order_is_by_units(gap, Binary32::nil());
    assert(Binary32::nil().units() == 0);
    if exact == 0 {
        binary32_error::lemma_no_difference(state.peak_divergence, rate);
    }
    if exact < 0 {
        assert(g <= 0);
    }
    if !gap.at_most(Binary32::nil()) && !rate.below(Binary32::fraction(1, 1_000_000)) {
        lemma_millionth(rate);
        assert(g > 0);
        lemma_pow2_adds(232, 149);
        lemma_pow2_adds(259, 128);
        vstd::arithmetic::power2::lemma_pow2_strictly_increases(381, 387);
        let top = pow2(232) as int;
        let safe = binary32_error::safe_units() as int;
        let low = pow2(128) as int;
        assert(g * u <= top * u) by (nonlinear_arith)
            requires
                g <= top,
                u > 0,
        ;
        assert(safe * low <= safe * r) by (nonlinear_arith)
            requires
                low <= r,
                safe >= 0,
        ;
        assert(0 <= g * u <= safe * r) by {
            assert(0 <= g * u) by (nonlinear_arith)
                requires
                    g > 0,
                    u > 0,
            ;
        }
        binary32_error::lemma_quotient_error(gap, rate);
        let quotient = gap.quotient(rate);
        let q = quotient.units();
        binary32_laws::lemma_signs(gap, rate);
        assert(!quotient.negative());
        let whole = quotient.size() as int / u;
        vstd::arithmetic::div_mod::lemma_fundamental_div_mod(quotient.size() as int, u);
        vstd::arithmetic::div_mod::lemma_mod_bound(quotient.size() as int, u);
        assert(u * whole == whole * u) by (nonlinear_arith);
        assert((whole + 1) * u == whole * u + u) by (nonlinear_arith);
        assert(whole >= 0) by (nonlinear_arith)
            requires
                q >= 0,
                u > 0,
                whole == q / u,
        ;
        assert(lead == if whole > 60 {
            60
        } else {
            whole
        });
        let l = lead as int;
        assert(l * u <= whole * u) by (nonlinear_arith)
            requires
                l <= whole,
                u > 0,
        ;
        lemma_whole_part(g, q, l, r, u);
        let lr = l * r;
        let mr = (l + 1) * r;
        assert(lead * rate.size() == lr);
        assert((lead + 1) * rate.size() == mr);
        assert(exact > 0);
        assert(1000 * lr <= 1001 * exact + r);
        assert(lead < 60 ==> 999 * exact <= 1000 * mr + r);
    } else if gap.at_most(Binary32::nil()) {
        if !rate.below(Binary32::fraction(1, 1_000_000)) {
            lemma_millionth(rate);
        }
        assert(g <= 0);
        assert((lead + 1) * rate.size() == rate.size()) by (nonlinear_arith)
            requires
                lead == 0,
        ;
    }
}

/// The time to live of a job is the default and the lead time together, and no more
/// than 60 frames.
pub proof fn law_jobs_live_through_the_lead_time(governor: SpectralIOGovernor)
    ensures
        ({
            let ttl = governor.default_ttl + governor.entropy.estimated_lead_frames_spec();
            &&& governor.job_ttl() <= 60
            &&& governor.job_ttl() <= ttl
            &&& governor.job_ttl() == 60 || governor.job_ttl() == ttl
        }),
{
}

/// A frame that triggers leaves in the queue, as far as it has room, the jobs that
/// still had time, a frame older, and behind them one job for each group that is
/// listed, the most salient first. A job has the number of its group, the salience of
/// its bucket, the time to live of this frame and the format of the governor. A frame
/// that does not trigger only ages the queue.
pub proof fn law_frames_fill_the_queue(
    before: SpectralIOGovernor,
    after: SpectralIOGovernor,
    z: Seq<Binary32>,
    norm_sq: Binary32,
    dt: Binary32,
    log2_energies: Seq<Binary32>,
    result: GovFrameResult,
)
    requires
        after.follows(before, z, norm_sq, dt, log2_energies, result),
        before.queue@.len() <= 32,
    ensures
        ({
            let (next, trigger) = before.entropy.updated(z, norm_sq, dt, log2_energies);
            let waiting = prefetch_queue::aged_by(before.queue@, 1);
            let queue = after.queue@;
            &&& after.entropy == next
            &&& result.triggered == trigger
            &&& result.divergence_rate == next.divergence_rate
            &&& result.h_normalized == next.h_current.quotient(Binary32::whole(4))
            &&& after.markov.follows(before.markov, result.h_normalized)
            &&& after.classifier.follows(before.classifier, z)
            &&& after.total_groups == before.total_groups
            &&& after.max_jobs_per_trigger == before.max_jobs_per_trigger
            &&& after.default_ttl == before.default_ttl
            &&& after.format_hint == before.format_hint
            &&& !trigger ==> queue == waiting && result.jobs_enqueued == 0
            &&& trigger ==> exists|groups: Seq<u32>|
                {
                    &&& #[trigger] after.markov.selects(
                        groups,
                        before.total_groups as nat,
                        before.max_jobs_per_trigger as nat,
                    )
                    &&& result.jobs_enqueued == groups.len()
                    &&& queue.len() <= 32
                    &&& queue.len() == waiting.len() + groups.len() || (queue.len() == 32
                        && waiting.len() + groups.len() > 32)
                    &&& forall|i: int|
                        0 <= i < queue.len() ==> {
                            let lost = waiting.len() + groups.len() - queue.len();
                            let job = #[trigger] queue[i];
                            let g = i + lost - waiting.len();
                            &&& g < 0 ==> job == waiting[i + lost]
                            &&& g >= 0 ==> {
                                &&& job.group_id == groups[g]
                                &&& job.priority == after.markov.salience_of(
                                    groups[g] as int % 8,
                                )
                                &&& job.ttl_frames == after.job_ttl()
                                &&& job.format_hint == before.format_hint
                                &&& job._pad == 0
                            }
                        }
                }
        }),
{
    let (next, trigger) = before.entropy.updated(z, norm_sq, dt, log2_energies);
    let waiting = prefetch_queue::aged_by(before.queue@, 1);
    let queue = after.queue@;
    assert forall|i: int| 0 <= i < before.queue@.len() implies (
    #[trigger] before.queue@[i]).ttl_frames <= 0x1_0000 by {}
    prefetch_queue::lemma_aged_jobs(before.queue@, 1, 0x1_0000);
    if trigger {
        let groups = choose|groups: Seq<u32>|
            {
                &&& #[trigger] after.markov.selects(
                    groups,
                    after.total_groups as nat,
                    after.max_jobs_per_trigger as nat,
                )
                &&& result.jobs_enqueued == groups.len()
                &&& after.queue@ == prefetch_queue::newest(waiting + after.jobs_for(groups))
            };
        let all = waiting + after.jobs_for(groups);
        let lost = all.len() - queue.len();
        assert forall|i: int| 0 <= i < queue.len() implies {
            let job = #[trigger] queue[i];
            let g = i + lost - waiting.len();
            &&& g < 0 ==> job == waiting[i + lost]
            &&& g >= 0 ==> {
                &&& job.group_id == groups[g]
                &&& job.priority == after.markov.salience_of(groups[g] as int % 8)
                &&& job.ttl_frames == after.job_ttl()
                &&& job.format_hint == before.format_hint
                &&& job._pad == 0
            }
        } by {
            assert(queue[i] == all[i + lost]);
            let g = i + lost - waiting.len();
            if g >= 0 {
                assert(all[i + lost] == after.job_for(groups[g]));
            }
        }
        assert(after.markov.selects(
            groups,
            before.total_groups as nat,
            before.max_jobs_per_trigger as nat,
        ));
    }
}

/// The hints give up no mip level for an echo, one for a diffuse mode and two for a
/// collapsed one, and for the frame the most that any mode gives up.
pub proof fn law_hints_follow_the_classes(
    hints: MipHintBuffer,
    classifier: ModeClassifier,
    h_normalized: Binary32,
)
    requires
        hints.describes(classifier, h_normalized),
    ensures
        forall|k: int|
            0 <= k < DIM ==> {
                let class = (#[trigger] classifier.mode(k)).class();
                &&& class == GhostClass::Echo <==> hints.per_mode[k] == 0
                &&& class == GhostClass::Diffuse <==> hints.per_mode[k] == 1
                &&& class == GhostClass::Collapsed <==> hints.per_mode[k] == 2
                &&& hints.per_mode[k] <= hints.global
            },
        exists|k: int| 0 <= k < DIM && #[trigger] hints.per_mode[k] == hints.global,
{
    assert forall|k: int| 0 <= k < DIM implies {
        let class = (#[trigger] classifier.mode(k)).class();
        &&& class == GhostClass::Echo <==> hints.per_mode[k] == 0
        &&& class == GhostClass::Diffuse <==> hints.per_mode[k] == 1
        &&& class == GhostClass::Collapsed <==> hints.per_mode[k] == 2
        &&& hints.per_mode[k] <= hints.global
    } by {
        assert(hints.per_mode[k] == classifier.bias_of(k));
    }
}

/// The byte for the overlay is the whole part of 255 times the normalised entropy, but
/// for rounding.
pub proof fn law_overlay_shows_the_entropy(
    hints: MipHintBuffer,
    classifier: ModeClassifier,
    h_normalized: Binary32,
)
    requires
        hints.describes(classifier, h_normalized),
        h_normalized.finite(),
        0 <= h_normalized.units() <= Binary32::units_in_one(),
    ensures
        0xFF_FFFF * (hints.h_u8 * Binary32::units_in_one()) <= 0xFF_FFFF * (255
            * h_normalized.units()) + 512 * Binary32::units_in_one(),
        0xFF_FFFF * (255 * h_normalized.units()) <= 0xFF_FFFF * ((hints.h_u8 + 1)
            * Binary32::units_in_one()) + 512 * Binary32::units_in_one(),
{
    reveal(Binary32::truncated);
    let u = Binary32::units_in_one() as int;
    let x = h_normalized.units();
    let top = Binary32::whole(255);
    lemma_pow2_pos(149);
    vstd::arithmetic::power2::lemma2_to64();
    vstd::arithmetic::power2::lemma_pow2_strictly_increases(32, 149);
    lemma_pow2_adds(8, 149);
    vstd::arithmetic::power2::lemma_pow2_strictly_increases(157, 259);
    binary32_laws::lemma_whole_exact(255);
    binary32_laws::lemma_whole(255);
    assert(top.units() == 255 * u);
    let safe = binary32_error::safe_units() as int;
    assert(0 <= x * (255 * u) <= safe * u) by (nonlinear_arith)
        requires
            0 <= x <= u,
            255 * u <= safe,
            u > 0,
    {
        assert(x * (255 * u) == (255 * x) * u);
        assert((255 * x) * u <= safe * u);
    }
    binary32_error::lemma_product_error(h_normalized, top);
    let product = h_normalized.product(top);
    let p = product.units();
    let e = p - 255 * x;
    assert(p * u - x * (255 * u) == e * u) by (nonlinear_arith)
        requires
            e == p - 255 * x,
    ;
    binary32_error::lemma_scaled_distance(e, u);
    let d = binary32_error::distance(e);
    assert(0xFF_FFFF * d <= 255 * x + 0xFF_FFFF) by (nonlinear_arith)
        requires
            0xFF_FFFF * (d * u) <= x * (255 * u) + 0xFF_FFFF * u,
            u > 0,
    {
        if 0xFF_FFFF * d > 255 * x + 0xFF_FFFF {
            assert((0xFF_FFFF * d) * u > (255 * x + 0xFF_FFFF) * u);
        }
    }
    reveal(Binary32::product);
    binary32_laws::lemma_rounded(false, h_normalized.size() * top.size(), u as nat);
    binary32_laws::lemma_rounded(true, h_normalized.size() * top.size(), u as nat);
    let whole = product.size() as int / u;
    vstd::arithmetic::div_mod::lemma_fundamental_div_mod(product.size() as int, u);
    vstd::arithmetic::div_mod::lemma_mod_bound(product.size() as int, u);
    assert(u * whole == whole * u) by (nonlinear_arith);
    assert((whole + 1) * u == whole * u + u) by (nonlinear_arith);
    if product.negative() {
        assert(p <= 0);
        assert(hints.h_u8 == 0);
        assert(0 * u == 0);
        assert(1 * u == u);
    } else if whole > 255 {
        assert(whole * u >= 256 * u) by (nonlinear_arith)
            requires
                whole >= 256,
                u > 0,
        ;
    }
}

} // verus!
