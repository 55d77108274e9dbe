//! The upper bound of the entropy.
//!
//! With exact logarithms the entropy of shares that sum up to one is at most that of
//! even shares: the term of each share stays under its tangent at a sixteenth, and
//! the tangents sum up to the bound. Here the same is carried through the rounding
//! of every step, for logarithms that keep under the tangent by themselves.

use vstd::prelude::*;

use crate::binary32::Binary32;
use crate::binary32_laws;
use crate::entropy;
use crate::entropy::DIM;
use crate::rounding;

verus! {

/// Whether a share times its handed-in logarithm keeps to the tangent at a
/// sixteenth, `4 * p + (1 / 16 - p) / ln 2`, but for one part in a million. The
/// logarithms of all shares up to one do.
pub open spec fn keeps_to_the_tangent(share: Binary32, log2: Binary32) -> bool {
    let u = Binary32::units_in_one();
    let p = share.size();
    &&& share.finite()
    &&& log2.finite()
    &&& log2.at_most(Binary32::nil())
    &&& 16_000_000 * (p * log2.size()) <= 64_000_000 * (p * u) + 1_442_695 * ((u - 16 * p) * u) + 16
        * (u * u)
}

/// The sum of the shares above the energy floor, exactly and in units.
pub open spec fn share_sum(z: Seq<Binary32>, norm_sq: Binary32, modes: nat) -> nat
    decreases modes,
{
    if modes == 0 {
        0
    } else {
        let p = entropy::mode_energy(z[modes - 1], norm_sq);
        share_sum(z, norm_sq, (modes - 1) as nat) + if entropy::energy_floor().below(p) {
            p.size()
        } else {
            0
        }
    }
}

/// The exact sum of the shares times their logarithms, in squared units and without
/// its sign.
spec fn exact_entropy(
    z: Seq<Binary32>,
    norm_sq: Binary32,
    log2_energies: Seq<Binary32>,
    modes: nat,
) -> nat
    decreases modes,
{
    if modes == 0 {
        0
    } else {
        let k = modes - 1;
        let p = entropy::mode_energy(z[k], norm_sq);
        exact_entropy(z, norm_sq, log2_energies, k as nat) + if entropy::energy_floor().below(p) {
            p.size() * log2_energies[k].size()
        } else {
            0
        }
    }
}

/// Whether all shares above the floor keep to the tangent.
pub open spec fn logarithms_keep_to_the_tangent(
    z: Seq<Binary32>,
    norm_sq: Binary32,
    log2_energies: Seq<Binary32>,
) -> bool {
    forall|k: int|
        0 <= k < DIM && entropy::energy_floor().below(
            entropy::mode_energy(#[trigger] z[k], norm_sq),
        ) ==> keeps_to_the_tangent(entropy::mode_energy(z[k], norm_sq), log2_energies[k])
}

proof fn lemma_tangents_add_up(
    z: Seq<Binary32>,
    norm_sq: Binary32,
    log2_energies: Seq<Binary32>,
    modes: nat,
)
    requires
        logarithms_keep_to_the_tangent(z, norm_sq, log2_energies),
        modes <= DIM,
    ensures
        ({
            let u = Binary32::units_in_one();
            let shares = share_sum(z, norm_sq, modes);
            16_000_000 * exact_entropy(z, norm_sq, log2_energies, modes) <= 64_000_000 * (shares
                * u) + 1_442_695 * ((modes * u - 16 * shares) * u) + 16 * (modes * (u * u))
        }),
    decreases modes,
{
    let u = Binary32::units_in_one() as int;
    if modes == 0 {
        assert(0 * u == 0);
        assert(0 * (u * u) == 0);
        assert((0 * u - 16 * 0) * u == 0);
    } else {
        let k = (modes - 1) as nat;
        lemma_tangents_add_up(z, norm_sq, log2_energies, k);
        let p = entropy::mode_energy(z[k as int], norm_sq);
        let s = share_sum(z, norm_sq, k) as int;
        let n = modes as int;
        assert((n - 1) * u == n * u - u) by (nonlinear_arith);
        assert((n - 1) * (u * u) == n * (u * u) - u * u) by (nonlinear_arith);
        assert(u * u >= 0) by (nonlinear_arith);
        let nu = n * u;
        if entropy::energy_floor().below(p) {
            let x = p.size() as int;
            assert((s + x) * u == s * u + x * u) by (nonlinear_arith);
            assert((nu - 16 * (s + x)) * u == (nu - u - 16 * s) * u + (u - 16 * x) * u)
                by (nonlinear_arith);
        } else {
            assert((nu - 16 * s) * u == (nu - u - 16 * s) * u + u * u) by (nonlinear_arith);
        }
    }
}

proof fn lemma_exact_entropy_grows(
    z: Seq<Binary32>,
    norm_sq: Binary32,
    log2_energies: Seq<Binary32>,
    modes: nat,
    all: nat,
)
    requires
        modes <= all,
    ensures
        exact_entropy(z, norm_sq, log2_energies, modes) <= exact_entropy(
            z,
            norm_sq,
            log2_energies,
            all,
        ),
    decreases all,
{
    if modes < all {
        lemma_exact_entropy_grows(z, norm_sq, log2_energies, modes, (all - 1) as nat);
    }
}

/// A quotient of up to sixteen rounds to a finite number.
proof fn lemma_no_overflow(n: nat, d: nat)
    requires
        d > 0,
        n <= (16 * Binary32::units_in_one()) * d,
    ensures
        rounding::nearest(n, d) < rounding::INFINITY_CODE,
{
    let u = Binary32::units_in_one();
    binary32_laws::lemma_whole(16);
    binary32_laws::lemma_rounded(false, 16 * u, 1);
    rounding::lemma_nearest_monotone(n, d, 16 * u, 1);
}

/// One step of the sum, with its two roundings.
proof fn lemma_step(h: Binary32, p: Binary32, log2: Binary32)
    requires
        h.finite(),
        h.key() >= 0,
        p.finite(),
        Binary32::nil().below(p),
        log2.finite(),
        log2.at_most(Binary32::nil()),
        h.size() <= 5 * Binary32::units_in_one(),
        p.size() * log2.size() <= 5 * (Binary32::units_in_one() * Binary32::units_in_one()),
    ensures
        ({
            let u = Binary32::units_in_one();
            let next = h.difference(p.product(log2));
            &&& next.finite()
            &&& next.key() >= 0
            &&& 1_000_000 * (next.size() * u) <= 1_000_000 * (h.size() * u + p.size() * log2.size())
                + 3 * (u * u)
        }),
{
    let u = Binary32::units_in_one();
    let x = p.size() * log2.size();
    let loss = p.product(log2);
    let gain = loss.opposite();
    let next = h.difference(loss);
    vstd::arithmetic::power2::lemma_pow2_pos(149);
    binary32_laws::lemma_minus_a_loss(h, p, log2);
    assert(x <= (16 * u) * u) by (nonlinear_arith)
        requires
            x <= 5 * (u * u),
    ;
    lemma_no_overflow(x, u);
    reveal(Binary32::product);
    binary32_laws::lemma_rounded(p.negative() != log2.negative(), x, u);
    assert(gain.size() == rounding::magnitude(rounding::nearest(x, u)));
    assert(gain.key() >= 0) by {
        if !log2.negative() {
            binary32_laws::lemma_times_a_zero(p, log2);
        }
    }
    rounding::lemma_nearest_is_not_far_above(x, u);
    let g = gain.size();
    let gu = g * u;
    assert(u >= 0x1000_0000_0000_0000) by {
        vstd::arithmetic::power2::lemma2_to64_rest();
        vstd::arithmetic::power2::lemma_pow2_strictly_increases(60, 149);
    }
    let uu = u * u;
    assert(0x1000_0000_0000_0000 * u <= uu) by (nonlinear_arith)
        requires
            uu == u * u,
            u >= 0x1000_0000_0000_0000,
    ;
    assert(gu <= 6 * uu);
    assert(g <= 6 * u) by (nonlinear_arith)
        requires
            g * u <= 6 * (u * u),
            u > 0,
    ;
    reveal(Binary32::sum);
    binary32_laws::lemma_order_is_by_units(Binary32::nil(), h);
    binary32_laws::lemma_order_is_by_units(Binary32::nil(), gain);
    assert(Binary32::nil().units() == 0);
    let total = h.size() + g;
    assert(h.units() + gain.units() == total);
    lemma_no_overflow(total, 1);
    binary32_laws::lemma_rounded(false, total, 1);
    rounding::lemma_nearest_is_not_far_above(total, 1);
    let m = next.size();
    assert(m * 0xFF_FFFF <= total * 0x100_0000 + 0xFF_FFFF);
    let mu = m * u;
    let hu = h.size() * u;
    assert(mu * 0xFF_FFFF <= (hu + gu) * 0x100_0000 + u * 0xFF_FFFF) by (nonlinear_arith)
        requires
            m * 0xFF_FFFF <= total * 0x100_0000 + 0xFF_FFFF,
            total == h.size() + g,
            mu == m * u,
            hu == h.size() * u,
            gu == g * u,
            u > 0,
    {
        assert((m * 0xFF_FFFF) * u <= (total * 0x100_0000 + 0xFF_FFFF) * u);
    }
    assert(hu <= 5 * uu) by (nonlinear_arith)
        requires
            hu == h.size() * u,
            uu == u * u,
            h.size() <= 5 * u,
    ;
    assert(1_000_000 * mu <= 1_000_000 * (hu + x) + 3 * uu);
}

proof fn lemma_rounded_entropy(
    z: Seq<Binary32>,
    norm_sq: Binary32,
    log2_energies: Seq<Binary32>,
    modes: nat,
)
    requires
        logarithms_keep_to_the_tangent(z, norm_sq, log2_energies),
        modes <= DIM,
        1000 * exact_entropy(z, norm_sq, log2_energies, DIM as nat) <= 4003 * (
        Binary32::units_in_one() * Binary32::units_in_one()),
    ensures
        ({
            let u = Binary32::units_in_one();
            let h = entropy::entropy_of(z, norm_sq, log2_energies, modes);
            &&& h.finite()
            &&& h.key() >= 0
            &&& 1_000_000 * (h.size() * u) <= 1_000_000 * exact_entropy(
                z,
                norm_sq,
                log2_energies,
                modes,
            ) + 3 * (modes * (u * u))
        }),
    decreases modes,
{
    let u = Binary32::units_in_one() as int;
    if modes == 0 {
        assert(0 * u == 0);
        assert(0 * (u * u) == 0);
    } else {
        let k = (modes - 1) as nat;
        lemma_rounded_entropy(z, norm_sq, log2_energies, k);
        let n = modes as int;
        assert((n - 1) * (u * u) == n * (u * u) - u * u) by (nonlinear_arith);
        assert(u * u >= 0) by (nonlinear_arith);
        let p = entropy::mode_energy(z[k as int], norm_sq);
        if entropy::energy_floor().below(p) {
            let h = entropy::entropy_of(z, norm_sq, log2_energies, k);
            lemma_exact_entropy_grows(z, norm_sq, log2_energies, k, DIM as nat);
            lemma_exact_entropy_grows(z, norm_sq, log2_energies, modes, DIM as nat);
            assert(k * (u * u) <= 16 * (u * u)) by (nonlinear_arith)
                requires
                    k <= 16,
                    u * u >= 0,
            ;
            assert(h.size() * u <= 5 * (u * u));
            vstd::arithmetic::power2::lemma_pow2_pos(149);
            assert(h.size() <= 5 * u) by (nonlinear_arith)
                requires
                    h.size() * u <= 5 * (u * u),
                    u > 0,
            ;
            entropy::lemma_floor();
            lemma_step(h, p, log2_energies[k as int]);
        }
    }
}

/// The entropy stays under the largest one, but for a hundredth of a bit, where the
/// shares sum up to one, but for one part in a thousand, and their logarithms keep
/// to the tangent.
pub proof fn law_entropy_is_bounded(
    z: Seq<Binary32>,
    norm_sq: Binary32,
    log2_energies: Seq<Binary32>,
)
    requires
        1000 * share_sum(z, norm_sq, DIM as nat) <= 1001 * Binary32::units_in_one(),
        logarithms_keep_to_the_tangent(z, norm_sq, log2_energies),
    ensures
        Binary32::nil().at_most(entropy::entropy_of(z, norm_sq, log2_energies, DIM as nat)),
        entropy::entropy_of(z, norm_sq, log2_energies, DIM as nat).at_most(
            Binary32::fraction(401, 100),
        ),
{
    let u = Binary32::units_in_one();
    let uu = u * u;
    let s = share_sum(z, norm_sq, DIM as nat);
    lemma_tangents_add_up(z, norm_sq, log2_energies, DIM as nat);
    assert((16 * u - 16 * s) * u == 16 * uu - 16 * (s * u)) by (nonlinear_arith)
        requires
            uu == u * u,
    ;
    assert(1000 * (s * u) <= 1001 * uu) by (nonlinear_arith)
        requires
            1000 * s <= 1001 * u,
            uu == u * u,
    ;
    lemma_rounded_entropy(z, norm_sq, log2_energies, DIM as nat);
    let h = entropy::entropy_of(z, norm_sq, log2_energies, DIM as nat);
    vstd::arithmetic::power2::lemma_pow2_pos(149);
    let m = h.size();
    assert(100 * m <= 401 * u) by (nonlinear_arith)
        requires
            100 * (m * u) <= 401 * (u * u),
            u > 0,
    ;
    rounding::lemma_nearest_exact(m, 1, h.code());
    rounding::lemma_nearest_monotone(m, 1, 401 * u, 100);
    binary32_laws::lemma_rounded(false, 401 * u, 100);
}

/// The energy of the first `modes` modes: their squares, rounded, and summed up in
/// order with rounding.
pub open spec fn energy_of(z: Seq<Binary32>, modes: nat) -> Binary32
    decreases modes,
{
    if modes == 0 {
        Binary32::nil()
    } else {
        let k = modes - 1;
        energy_of(z, k as nat).sum(z[k].product(z[k]))
    }
}

/// The exact sum of the rounded squares, in units.
spec fn square_sum(z: Seq<Binary32>, modes: nat) -> nat
    decreases modes,
{
    if modes == 0 {
        0
    } else {
        let k = modes - 1;
        square_sum(z, k as nat) + z[k].product(z[k]).size()
    }
}

/// A finite energy covers each of its squares, and their exact sum but for one part
/// in 2^24 for each.
proof fn lemma_energy_is_close(z: Seq<Binary32>, modes: nat)
    requires
        energy_of(z, modes).finite(),
    ensures
        !energy_of(z, modes).negative(),
        square_sum(z, modes) * 0x100_0000 <= energy_of(z, modes).size() * (0x100_0000 + modes),
        forall|k: int|
            0 <= k < modes ==> {
                let square = (#[trigger] z[k]).product(z[k]);
                &&& square.finite()
                &&& !square.negative()
                &&& square.size() <= energy_of(z, modes).size()
            },
    decreases modes,
{
    if modes == 0 {
        assert(0 * (0x100_0000 + modes) == 0);
    } else {
        let k = modes - 1;
        let before = energy_of(z, k as nat);
        let square = z[k].product(z[k]);
        let now = energy_of(z, modes);
        binary32_laws::lemma_finite_sum(before, square);
        lemma_energy_is_close(z, k as nat);
        binary32_laws::lemma_square_has_no_sign(z[k]);
        binary32_laws::lemma_sum_is_close(before, square);
        let n = now.size();
        let b = before.size();
        assert(b * (0x100_0000 + k) == b * 0x100_0000 + b * k) by (nonlinear_arith);
        assert(n * (0x100_0001 + k) == n * 0x100_0001 + n * k) by (nonlinear_arith);
        assert(b * k <= n * k) by (nonlinear_arith)
            requires
                b <= n,
                k >= 0,
        ;
        assert(0x100_0001 + k == 0x100_0000 + modes);
    }
}

proof fn lemma_share_sum_is_close(z: Seq<Binary32>, norm_sq: Binary32, modes: nat)
    requires
        norm_sq.finite(),
        !norm_sq.negative(),
        !norm_sq.zero(),
        forall|k: int|
            0 <= k < modes ==> {
                let square = (#[trigger] z[k]).product(z[k]);
                &&& square.finite()
                &&& !square.negative()
                &&& square.size() <= norm_sq.size()
            },
    ensures
        (share_sum(z, norm_sq, modes) * norm_sq.size()) * 0xFF_FFFF <= (square_sum(z, modes)
            * Binary32::units_in_one()) * 0x100_0000,
        forall|k: int|
            0 <= k < modes ==> entropy::mode_energy(#[trigger] z[k], norm_sq).at_most(
                Binary32::whole(1),
            ),
    decreases modes,
{
    let u = Binary32::units_in_one();
    let d = norm_sq.size();
    if modes == 0 {
        assert(0 * d == 0);
        assert(0 * u == 0);
    } else {
        let k = modes - 1;
        lemma_share_sum_is_close(z, norm_sq, k as nat);
        let square = z[k].product(z[k]);
        let q = square.size();
        let p = entropy::mode_energy(z[k], norm_sq);
        binary32_laws::lemma_one();
        binary32_laws::lemma_order_is_by_units(square, norm_sq);
        binary32_laws::lemma_quotient_at_most_one(square, norm_sq);
        let shares = share_sum(z, norm_sq, k as nat);
        let squares = square_sum(z, k as nat);
        assert((squares + q) * u == squares * u + q * u) by (nonlinear_arith);
        if entropy::energy_floor().below(p) {
            entropy::lemma_floor();
            reveal(Binary32::quotient);
            rounding::lemma_magnitude_increases(0, norm_sq.code());
            binary32_laws::lemma_rounded(false, q * u, d);
            rounding::lemma_nearest_is_close(q * u, d);
            assert((shares + p.size()) * d == shares * d + p.size() * d) by (nonlinear_arith);
        } else {
            assert(q * u >= 0) by (nonlinear_arith);
        }
    }
}

/// Where `norm_sq` is the energy of the state vector, finite and at least the energy
/// floor, no share is above one, and the shares sum up to one at most, but for one
/// part in a thousand.
pub proof fn law_shares_sum_to_one(z: Seq<Binary32>, norm_sq: Binary32)
    requires
        norm_sq == energy_of(z, DIM as nat),
        norm_sq.finite(),
        entropy::energy_floor().at_most(norm_sq),
    ensures
        1000 * share_sum(z, norm_sq, DIM as nat) <= 1001 * Binary32::units_in_one(),
        forall|k: int|
            0 <= k < DIM ==> entropy::mode_energy(#[trigger] z[k], norm_sq).at_most(
                Binary32::whole(1),
            ),
{
    entropy::lemma_floor();
    lemma_energy_is_close(z, DIM as nat);
    lemma_share_sum_is_close(z, norm_sq, DIM as nat);
    rounding::lemma_magnitude_increases(0, norm_sq.code());
    let u = Binary32::units_in_one();
    let d = norm_sq.size();
    let s = share_sum(z, norm_sq, DIM as nat);
    let q = square_sum(z, DIM as nat);
    assert((q * u) * 0x100_0000 <= (d * u) * 0x100_0010) by (nonlinear_arith)
        requires
            q * 0x100_0000 <= d * 0x100_0010,
    ;
    assert(s * 0xFF_FFFF <= u * 0x100_0010) by (nonlinear_arith)
        requires
            (s * d) * 0xFF_FFFF <= (d * u) * 0x100_0010,
            d > 0,
    ;
}

/// The entropy of a state vector lies between zero and the largest one, but for a
/// hundredth of a bit, where `norm_sq` is its energy, finite and at least the energy
/// floor, and the logarithms keep to the tangent.
pub proof fn law_entropy_of_a_state_is_bounded(
    z: Seq<Binary32>,
    norm_sq: Binary32,
    log2_energies: Seq<Binary32>,
)
    requires
        norm_sq == energy_of(z, DIM as nat),
        norm_sq.finite(),
        entropy::energy_floor().at_most(norm_sq),
        logarithms_keep_to_the_tangent(z, norm_sq, log2_energies),
    ensures
        Binary32::nil().at_most(entropy::entropy_of(z, norm_sq, log2_energies, DIM as nat)),
        entropy::entropy_of(z, norm_sq, log2_energies, DIM as nat).at_most(
            Binary32::fraction(401, 100),
        ),
{
    law_shares_sum_to_one(z, norm_sq);
    law_entropy_is_bounded(z, norm_sq, log2_energies);
}

} // verus!
