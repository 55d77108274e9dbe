//! What the entropy state measures.
//!
//! The entropy is the sum of minus share times logarithm over all modes that hold
//! more than a billionth of the energy; the rest of the state follows from it.

use vstd::arithmetic::power2::{lemma_pow2_adds, lemma_pow2_pos, pow2};
use vstd::prelude::*;

use crate::binary32::Binary32;
use crate::binary32_error;
use crate::binary32_laws;
use crate::entropy;
use crate::entropy::{SpectralEntropyState, DIM};
use crate::rounding;

verus! {

/// Share times logarithm of one mode, exactly and in squared units; nothing for a
/// mode that holds a billionth of the energy at most.
pub open spec fn exact_term(z: Binary32, norm_sq: Binary32, log2: Binary32) -> int {
    let share = z.product(z).quotient(norm_sq);
    if Binary32::fraction(1, 1_000_000_000).below(share) {
        share.units() * log2.units()
    } else {
        0
    }
}

/// The sum of the exact terms of the first `modes` modes.
pub open spec fn term_sum(
    z: Seq<Binary32>,
    norm_sq: Binary32,
    log2_energies: Seq<Binary32>,
    modes: nat,
) -> int
    decreases modes,
{
    if modes == 0 {
        0
    } else {
        let k = modes - 1;
        term_sum(z, norm_sq, log2_energies, k as nat) + exact_term(z[k], norm_sq, log2_energies[k])
    }
}

/// The sum of their distances from zero.
pub open spec fn term_size(
    z: Seq<Binary32>,
    norm_sq: Binary32,
    log2_energies: Seq<Binary32>,
    modes: nat,
) -> int
    decreases modes,
{
    if modes == 0 {
        0
    } else {
        let k = modes - 1;
        term_size(z, norm_sq, log2_energies, k as nat) + binary32_error::distance(
            exact_term(z[k], norm_sq, log2_energies[k]),
        )
    }
}

/// Whether the shares that count, and their logarithms, are finite, and nothing comes
/// near an overflow.
pub open spec fn is_measurable(
    z: Seq<Binary32>,
    norm_sq: Binary32,
    log2_energies: Seq<Binary32>,
) -> bool {
    let u = Binary32::units_in_one();
    &&& forall|k: int|
        0 <= k < DIM && Binary32::fraction(1, 1_000_000_000).below(
            (#[trigger] z[k]).product(z[k]).quotient(norm_sq),
        ) ==> z[k].product(z[k]).quotient(norm_sq).finite() && log2_energies[k].finite()
    &&& term_size(z, norm_sq, log2_energies, DIM as nat) <= pow2(100) * (u * u)
}

proof fn lemma_size_grows(
    z: Seq<Binary32>,
    norm_sq: Binary32,
    log2_energies: Seq<Binary32>,
    modes: nat,
    all: nat,
)
    requires
        modes <= all,
    ensures
        0 <= term_size(z, norm_sq, log2_energies, modes) <= term_size(
            z,
            norm_sq,
            log2_energies,
            all,
        ),
        binary32_error::distance(term_sum(z, norm_sq, log2_energies, modes)) <= term_size(
            z,
            norm_sq,
            log2_energies,
            modes,
        ),
    decreases all,
{
    if modes < all {
        lemma_size_grows(z, norm_sq, log2_energies, modes, (all - 1) as nat);
    } else if all > 0 {
        lemma_size_grows(z, norm_sq, log2_energies, (all - 1) as nat, (all - 1) as nat);
    }
}

/// One mode, with the two roundings of its step.
proof fn lemma_step_error(h: Binary32, p: Binary32, log2: Binary32)
    requires
        h.finite(),
        p.finite(),
        log2.finite(),
        binary32_error::distance(h.units()) <= pow2(101) * Binary32::units_in_one(),
        binary32_error::distance(p.units() * log2.units()) <= pow2(100) * (Binary32::units_in_one()
            * Binary32::units_in_one()),
    ensures
        ({
            let u = Binary32::units_in_one();
            let x = p.units() * log2.units();
            let next = h.difference(p.product(log2));
            &&& next.finite()
            &&& 0xFF_FFFF * binary32_error::distance(next.units() * u - (h.units() * u - x)) <= 3 * binary32_error::distance(x)
                + binary32_error::distance(h.units() * u) + 0x200_0000 * u
        }),
{
    let u = Binary32::units_in_one() as int;
    let x = p.units() * log2.units();
    let q = p.product(log2);
    let next = h.difference(q);
    lemma_pow2_pos(149);
    lemma_pow2_pos(100);
    lemma_pow2_adds(100, 149);
    lemma_pow2_adds(101, 149);
    vstd::arithmetic::power2::lemma_pow2_strictly_increases(249, 259);
    vstd::arithmetic::power2::lemma_pow2_strictly_increases(250, 259);
    vstd::arithmetic::power2::lemma_pow2_strictly_increases(252, 259);
    vstd::arithmetic::power2::lemma_pow2_unfold(252);
    vstd::arithmetic::power2::lemma_pow2_unfold(251);
    vstd::arithmetic::power2::lemma_pow2_unfold(250);
    let big = pow2(249) as int;
    assert(pow2(100) * (u * u) == big * u) by (nonlinear_arith)
        requires
            pow2(100) * u == big,
    ;
    assert(binary32_error::distance(x) <= pow2(259) * u) by (nonlinear_arith)
        requires
            binary32_error::distance(x) <= big * u,
            big <= pow2(259),
            u > 0,
    ;
    binary32_error::lemma_product_error(p, log2);
    let qu = q.units() * u;
    assert(u <= big) by (nonlinear_arith)
        requires
            pow2(100) * u == big,
            pow2(100) >= 1,
            u > 0,
    ;
    assert(u <= big * u) by (nonlinear_arith)
        requires
            u <= big,
            u > 0,
            big >= 1,
    ;
    assert(binary32_error::distance(qu) <= 3 * (big * u));
    binary32_error::lemma_signed_product(q.size() as int, u);
    assert(binary32_error::distance(q.units()) <= 3 * big) by (nonlinear_arith)
        requires
            binary32_error::distance(qu) <= 3 * (big * u),
            qu == q.units() * u,
            binary32_error::distance(q.units()) == q.size(),
            binary32_error::distance(qu) == q.size() * u,
            u > 0,
    ;
    binary32_error::lemma_difference_error(h, q);
    let t = h.units() - q.units();
    let e = next.units() - t;
    let hu = h.units() * u;
    let mu = next.units() * u;
    assert(t * u == hu - qu) by (nonlinear_arith)
        requires
            t == h.units() - q.units(),
            hu == h.units() * u,
            qu == q.units() * u,
    ;
    assert(e * u == mu - t * u) by (nonlinear_arith)
        requires
            e == next.units() - t,
            mu == next.units() * u,
    ;
    lemma_scaled_bound(e, t, u);
}

/// A bound on an error, in larger units.
proof fn lemma_scaled_bound(e: int, t: int, u: int)
    requires
        u > 0,
        0xFF_FFFF * binary32_error::distance(e) <= binary32_error::distance(t) + 0xFF_FFFF,
    ensures
        0xFF_FFFF * binary32_error::distance(e * u) <= binary32_error::distance(t * u) + 0xFF_FFFF * u,
{
    binary32_error::lemma_signed_product(e, u);
    binary32_error::lemma_signed_product(t, u);
    let a = binary32_error::distance(e);
    let b = binary32_error::distance(t);
    assert(binary32_error::distance(e * u) == a * u) by {
        assert(e >= 0 ==> e * u >= 0) by (nonlinear_arith)
            requires
                u > 0,
        ;
        assert(e < 0 ==> e * u < 0) by (nonlinear_arith)
            requires
                u > 0,
        ;
    }
    assert(binary32_error::distance(t * u) == b * u) by {
        assert(t >= 0 ==> t * u >= 0) by (nonlinear_arith)
            requires
                u > 0,
        ;
        assert(t < 0 ==> t * u < 0) by (nonlinear_arith)
            requires
                u > 0,
        ;
    }
    assert(0xFF_FFFF * (a * u) <= b * u + 0xFF_FFFF * u) by (nonlinear_arith)
        requires
            0xFF_FFFF * a <= b + 0xFF_FFFF,
            u > 0,
    ;
}

proof fn lemma_entropy_error(
    z: Seq<Binary32>,
    norm_sq: Binary32,
    log2_energies: Seq<Binary32>,
    modes: nat,
)
    requires
        is_measurable(z, norm_sq, log2_energies),
        modes <= DIM,
    ensures
        ({
            let u = Binary32::units_in_one();
            let h = entropy::entropy_of(z, norm_sq, log2_energies, modes);
            &&& h.finite()
            &&& 0x100_0000 * binary32_error::distance(
                h.units() * u + term_sum(z, norm_sq, log2_energies, modes),
            ) <= modes * (8 * term_size(z, norm_sq, log2_energies, modes) + 0x400_0000 * u)
        }),
    decreases modes,
{
    let u = Binary32::units_in_one() as int;
    if modes == 0 {
        assert(0 * u == 0);
        assert(Binary32::nil().units() == 0);
        assert(0 * (8 * term_size(z, norm_sq, log2_energies, 0) + 0x400_0000 * u) == 0);
    } else {
        let k = (modes - 1) as nat;
        lemma_entropy_error(z, norm_sq, log2_energies, k);
        lemma_size_grows(z, norm_sq, log2_energies, k, DIM as nat);
        lemma_size_grows(z, norm_sq, log2_energies, modes, DIM as nat);
        let p = z[k as int].product(z[k as int]).quotient(norm_sq);
        let h = entropy::entropy_of(z, norm_sq, log2_energies, k);
        let size = term_size(z, norm_sq, log2_energies, k);
        let after = term_size(z, norm_sq, log2_energies, modes);
        let sum = term_sum(z, norm_sq, log2_energies, k);
        let n = k as int;
        let uu = u * u;
        lemma_pow2_pos(149);
        lemma_pow2_pos(100);
        let old_bound = 8 * size + 0x400_0000 * u;
        let bound = 8 * after + 0x400_0000 * u;
        assert(n * old_bound <= n * bound && (n + 1) * bound == n * bound + bound && 0 <= n
            * old_bound <= 16 * old_bound) by (nonlinear_arith)
            requires
                0 <= n <= 16,
                0 <= old_bound <= bound,
        ;
        if Binary32::fraction(1, 1_000_000_000).below(p) {
            assert(p.finite() && log2_energies[k as int].finite());
            let cap = pow2(100) * uu;
            assert(u <= uu) by (nonlinear_arith)
                requires
                    uu == u * u,
                    u > 0,
            ;
            assert(uu <= cap) by (nonlinear_arith)
                requires
                    cap == pow2(100) * uu,
                    pow2(100) >= 1,
                    uu >= 0,
            ;
            let hu = h.units() * u;
            assert(u >= 0x1000_0000_0000_0000) by {
                vstd::arithmetic::power2::lemma2_to64_rest();
                vstd::arithmetic::power2::lemma_pow2_strictly_increases(60, 149);
            }
            assert(0x1000_0000_0000_0000 * u <= uu) by (nonlinear_arith)
                requires
                    uu == u * u,
                    u >= 0x1000_0000_0000_0000,
            ;
            assert(binary32_error::distance(hu) <= 2 * cap);
            vstd::arithmetic::power2::lemma_pow2_unfold(101);
            binary32_error::lemma_signed_product(h.size() as int, u);
            assert(binary32_error::distance(h.units()) <= pow2(101) * u) by (nonlinear_arith)
                requires
                    binary32_error::distance(hu) <= 2 * cap,
                    cap == pow2(100) * (u * u),
                    pow2(101) == 2 * pow2(100),
                    binary32_error::distance(hu) == h.size() * u,
                    binary32_error::distance(h.units()) == h.size(),
                    u > 0,
            ;
            lemma_step_error(h, p, log2_energies[k as int]);
        }
    }
}

/// The entropy is minus the exact sum of share times logarithm over all modes that
/// hold more than a billionth of the energy, whatever the size of their shares, but
/// for one part in 2^17 of the terms and a few units.
pub proof fn law_entropy_is_the_sum_over_all_modes(
    z: Seq<Binary32>,
    norm_sq: Binary32,
    log2_energies: Seq<Binary32>,
)
    requires
        is_measurable(z, norm_sq, log2_energies),
    ensures
        ({
            let u = Binary32::units_in_one();
            let h = entropy::entropy_of(z, norm_sq, log2_energies, DIM as nat);
            &&& h.finite()
            &&& 0x2_0000 * binary32_error::distance(
                h.units() * u + term_sum(z, norm_sq, log2_energies, DIM as nat),
            ) <= term_size(z, norm_sq, log2_energies, DIM as nat) + 0x80_0000 * u
        }),
{
    lemma_entropy_error(z, norm_sq, log2_energies, DIM as nat);
}

/// A frame with energy leaves the entropy of its modes, the entropy before it, and the
/// difference of the two over the time step. Prefetching is triggered exactly where
/// the rate, rising or falling, is above 0.15.
pub proof fn law_update_measures_entropy_and_rate(
    state: SpectralEntropyState,
    z: Seq<Binary32>,
    norm_sq: Binary32,
    dt: Binary32,
    log2_energies: Seq<Binary32>,
)
    requires
        !norm_sq.below(Binary32::fraction(1, 1_000_000_000)),
        is_measurable(z, norm_sq, log2_energies),
    ensures
        ({
            let (next, trigger) = state.updated(z, norm_sq, dt, log2_energies);
            let u = Binary32::units_in_one();
            let rate = next.divergence_rate;
            &&& next.h_current.finite()
            &&& 0x2_0000 * binary32_error::distance(
                next.h_current.units() * u + term_sum(z, norm_sq, log2_energies, DIM as nat),
            ) <= term_size(z, norm_sq, log2_energies, DIM as nat) + 0x80_0000 * u
            &&& next.h_prev == state.h_current
            &&& Binary32::nil().below(dt) ==> rate == next.h_current.difference(
                state.h_current,
            ).quotient(dt)
            &&& !Binary32::nil().below(dt) ==> rate == Binary32::nil()
            &&& trigger <==> !rate.nan() && Binary32::fraction(15, 100).key() < rate.code()
        }),
{
    law_entropy_is_the_sum_over_all_modes(z, norm_sq, log2_energies);
    binary32_laws::lemma_fraction_monotone(15, 100, 15, 100);
    binary32_laws::lemma_rounded(false, 15 * pow2(149), 100);
}

/// The peak is the largest divergence since it was last reset: a larger divergence
/// takes its place at once, a smaller one only after 120 frames, and until then the
/// peak stays and grows older by a frame.
pub proof fn law_peak_holds_for_120_frames(
    state: SpectralEntropyState,
    z: Seq<Binary32>,
    norm_sq: Binary32,
    dt: Binary32,
    log2_energies: Seq<Binary32>,
)
    requires
        !norm_sq.below(Binary32::fraction(1, 1_000_000_000)),
    ensures
        ({
            let next = state.updated(z, norm_sq, dt, log2_energies).0;
            let size = next.divergence_rate.absolute();
            &&& state.peak_divergence.below(size) ==> next.peak_divergence == size && next.peak_age
                == 0
            &&& !state.peak_divergence.below(size) && state.peak_age < 120
                ==> next.peak_divergence == state.peak_divergence && next.peak_age == state.peak_age
                + 1
            &&& !state.peak_divergence.below(size) && state.peak_age >= 120
                ==> next.peak_divergence == size && next.peak_age == 0
        }),
{
}

/// A frame whose energy is under a billionth counts as silent: it leaves no entropy
/// and no rate, triggers nothing, and keeps what was known of the peak.
pub proof fn law_silent_frames_leave_the_peak(
    state: SpectralEntropyState,
    z: Seq<Binary32>,
    norm_sq: Binary32,
    dt: Binary32,
    log2_energies: Seq<Binary32>,
)
    requires
        norm_sq.below(Binary32::fraction(1, 1_000_000_000)),
    ensures
        state.updated(z, norm_sq, dt, log2_energies) == (
            SpectralEntropyState {
                h_current: Binary32::nil(),
                h_prev: state.h_prev,
                divergence_rate: Binary32::nil(),
                peak_divergence: state.peak_divergence,
                peak_age: state.peak_age,
            },
            false,
        ),
{
}

/// The normalised entropy is a quarter of the entropy, but for rounding.
pub proof fn law_normalized_entropy_is_a_quarter(state: SpectralEntropyState)
    requires
        state.h_current.finite(),
        binary32_error::distance(state.h_current.units()) <= pow2(100) * Binary32::units_in_one(),
    ensures
        state.h_normalized_spec().finite(),
        0xFF_FFFF * binary32_error::distance(4 * state.h_normalized_spec().units() - state.h_current.units())
            <= binary32_error::distance(state.h_current.units()) + 4 * 0xFF_FFFF,
{
    let u = Binary32::units_in_one() as int;
    let four = Binary32::whole(4);
    let h = state.h_current;
    let r = state.h_normalized_spec();
    binary32_laws::lemma_whole(4);
    binary32_laws::lemma_whole_exact(4);
    lemma_pow2_pos(149);
    lemma_pow2_adds(100, 149);
    vstd::arithmetic::power2::lemma_pow2_strictly_increases(249, 259);
    let a = binary32_error::distance(h.units());
    assert(a * u <= binary32_error::safe_units() * (4 * u)) by (nonlinear_arith)
        requires
            0 <= a <= binary32_error::safe_units(),
            u > 0,
    ;
    binary32_error::lemma_quotient_error(h, four);
    let x = r.units();
    let y = h.units();
    assert(x * (4 * u) - y * u == (4 * x - y) * u) by (nonlinear_arith);
    let e = binary32_error::distance(4 * x - y);
    binary32_error::lemma_signed_product(4 * x - y, u);
    assert(binary32_error::distance((4 * x - y) * u) == e * u) by {
        assert(4 * x - y >= 0 ==> (4 * x - y) * u >= 0) by (nonlinear_arith)
            requires
                u > 0,
        ;
        assert(4 * x - y < 0 ==> (4 * x - y) * u < 0) by (nonlinear_arith)
            requires
                u > 0,
        ;
    }
    assert(0xFF_FFFF * e <= a + 4 * 0xFF_FFFF) by (nonlinear_arith)
        requires
            0xFF_FFFF * (e * u) <= a * u + 0xFF_FFFF * (4 * u),
            u > 0,
    ;
}

/// The share of a mode times the whole energy is the square of the mode, but for the
/// rounding of the square and of the share.
pub proof fn law_share_is_the_square_over_the_energy(z: Binary32, norm_sq: Binary32)
    requires
        z.finite(),
        norm_sq.finite(),
        Binary32::fraction(1, 1_000_000_000).at_most(norm_sq),
        binary32_error::distance(z.units()) <= pow2(20) * Binary32::units_in_one(),
    ensures
        ({
            let u = Binary32::units_in_one();
            let share = entropy::mode_energy(z, norm_sq);
            let square = z.units() * z.units();
            &&& share.finite()
            &&& 0x7F_FFFF * binary32_error::distance(share.units() * norm_sq.units() - square)
                <= square + 0xFF_FFFF * (2 * u + norm_sq.units())
        }),
{
    let u = Binary32::units_in_one() as int;
    let x = z.units();
    let square = x * x;
    let q = z.product(z);
    let share = q.quotient(norm_sq);
    let d = norm_sq.units();
    lemma_pow2_pos(149);
    entropy::lemma_floor();
    rounding::lemma_magnitude_of_parts(0x89_705F, 96);
    vstd::arithmetic::power2::lemma2_to64();
    vstd::arithmetic::power2::lemma2_to64_rest();
    lemma_pow2_adds(96, 53);
    lemma_pow2_pos(96);
    binary32_laws::lemma_order_is_by_units(Binary32::fraction(1, 1_000_000_000), norm_sq);
    let p96 = pow2(96) as int;
    assert(u == p96 * 0x20_0000_0000_0000);
    assert(Binary32::fraction(1, 1_000_000_000).units() == 0x89_705F * p96);
    assert(u <= 0x4000_0000 * d) by (nonlinear_arith)
        requires
            u == p96 * 0x20_0000_0000_0000,
            d >= 0x89_705F * p96,
            p96 > 0,
    ;
    assert(square >= 0) by (nonlinear_arith)
        requires
            square == x * x,
    ;
    let b = 0x10_0000 * u;
    assert(square <= b * b) by (nonlinear_arith)
        requires
            square == x * x,
            -b <= x <= b,
    ;
    assert(b * b == 0x100_0000_0000 * (u * u)) by (nonlinear_arith)
        requires
            b == 0x10_0000 * u,
    ;
    vstd::arithmetic::power2::lemma_pow2_strictly_increases(212, 259);
    lemma_pow2_adds(149, 63);
    let safe = pow2(259) as int;
    assert(0x8000_0000_0000_0000 * u <= safe);
    assert(0x100_0000_0000 * (u * u) <= safe * u) by (nonlinear_arith)
        requires
            0x8000_0000_0000_0000 * u <= safe,
            u > 0,
    ;
    binary32_error::lemma_product_error(z, z);
    let qu = q.units() * u;
    let uu = u * u;
    assert(u <= uu) by (nonlinear_arith)
        requires
            uu == u * u,
            u > 0,
    ;
    assert(binary32_error::distance(qu) <= 0x200_0000_0000 * uu);
    binary32_error::lemma_signed_product(q.size() as int, u);
    assert(q.size() <= 0x200_0000_0000 * u) by (nonlinear_arith)
        requires
            q.size() * u <= 0x200_0000_0000 * (u * u),
            u > 0,
    ;
    lemma_pow2_adds(149, 41);
    lemma_pow2_adds(190, 30);
    vstd::arithmetic::power2::lemma_pow2_strictly_increases(220, 259);
    assert(0x200_0000_0000 * u * 0x4000_0000 <= safe);
    assert(q.size() * u <= safe * d) by (nonlinear_arith)
        requires
            q.size() <= 0x200_0000_0000 * u,
            u <= 0x4000_0000 * d,
            0x200_0000_0000 * u * 0x4000_0000 <= safe,
            u > 0,
            d > 0,
    {
        assert(q.size() * u <= (0x200_0000_0000 * u) * (0x4000_0000 * d));
        assert((0x200_0000_0000 * u) * (0x4000_0000 * d) == (0x200_0000_0000 * u * 0x4000_0000) * d);
    }
    binary32_error::lemma_quotient_error(q, norm_sq);
}

/// A new state has no entropy, no rate and no peak, and the first frame with a rate sets
/// the peak.
pub proof fn law_states_start_empty(
    z: Seq<Binary32>,
    norm_sq: Binary32,
    dt: Binary32,
    log2_energies: Seq<Binary32>,
)
    requires
        !norm_sq.below(Binary32::fraction(1, 1_000_000_000)),
    ensures
        ({
            let state = SpectralEntropyState::initial();
            let next = state.updated(z, norm_sq, dt, log2_energies).0;
            &&& state.h_current.units() == 0
            &&& state.h_prev.units() == 0
            &&& state.divergence_rate.units() == 0
            &&& state.peak_divergence.units() == 0
            &&& state.peak_age == 0
            &&& state.estimated_lead_frames_spec() == 0
            &&& next.h_prev.units() == 0
            &&& next.divergence_rate.finite() && next.divergence_rate.units() != 0
                ==> next.peak_divergence == next.divergence_rate.absolute()
        }),
{
    let state = SpectralEntropyState::initial();
    let next = state.updated(z, norm_sq, dt, log2_energies).0;
    binary32_error::lemma_fraction_error(1, 1_000_000);
    if next.divergence_rate.finite() {
        let size = next.divergence_rate.absolute();
        binary32_laws::lemma_order_is_by_units(size, Binary32::nil());
        assert(size.units() == next.divergence_rate.size());
    }
    binary32_error::lemma_no_difference(state.peak_divergence, state.divergence_rate.absolute());
    binary32_error::lemma_difference_error(
        state.peak_divergence,
        state.divergence_rate.absolute(),
    );
    binary32_laws::lemma_order_is_by_units(
        state.peak_divergence.difference(state.divergence_rate.absolute()),
        Binary32::nil(),
    );
}

} // verus!
