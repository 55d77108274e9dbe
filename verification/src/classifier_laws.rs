//! What decides the class of a mode: the mean and the variance of its values.
//!
//! The running statistics are held against the exact sums of the values and of their
//! squares, through the rounding of every step.

use vstd::arithmetic::power2::{lemma_pow2_adds, lemma_pow2_pos, pow2};
use vstd::prelude::*;

use crate::binary32::Binary32;
use crate::binary32_error;
use crate::binary32_laws;
use crate::entropy::{GhostClass, ModeClassifier, ModeStatistics, DIM};

verus! {

/// The statistics of a mode after the first `n` of its values.
pub open spec fn statistics_after(values: Seq<Binary32>, n: nat) -> ModeStatistics
    decreases n,
{
    if n == 0 {
        ModeStatistics::initial()
    } else {
        statistics_after(values, (n - 1) as nat).after(values[n - 1])
    }
}

/// The exact sum of the first `n` values without their signs, in units.
pub open spec fn value_sum(values: Seq<Binary32>, n: nat) -> int
    decreases n,
{
    if n == 0 {
        0
    } else {
        value_sum(values, (n - 1) as nat) + values[n - 1].size()
    }
}

/// The exact sum of their squares, in squared units.
pub open spec fn square_sum(values: Seq<Binary32>, n: nat) -> int
    decreases n,
{
    if n == 0 {
        0
    } else {
        square_sum(values, (n - 1) as nat) + values[n - 1].size() * values[n - 1].size()
    }
}

/// The mean squared deviation of the first `n` values, times `n * n`.
pub open spec fn scaled_variance(values: Seq<Binary32>, n: nat) -> int {
    n * square_sum(values, n) - value_sum(values, n) * value_sum(values, n)
}

/// Whether the values are finite and none is farther from zero than `bound` units.
pub open spec fn are_bounded(values: Seq<Binary32>, bound: nat) -> bool {
    &&& pow2(100) <= bound <= pow2(169)
    &&& forall|k: int|
        0 <= k < values.len() ==> (#[trigger] values[k]).finite() && values[k].size() <= bound
}

/// One value: how the statistics move.
proof fn lemma_statistics_step(before: ModeStatistics, z: Binary32, b: int)
    requires
        pow2(100) <= b <= pow2(169),
        z.finite(),
        z.size() <= b,
        before.n < 0x1_0000,
        before.mean.finite(),
        binary32_error::distance(before.mean.units()) <= 2 * b,
    ensures
        ({
            let after = before.after(z);
            let n = before.n + 1;
            let x = z.size() as int;
            let m = before.mean.units();
            let next = after.mean.units();
            &&& after.n == n
            &&& after.mean.finite()
            &&& 0x100_0000 * binary32_error::distance(n * next - (n - 1) * m - x) <= 17 * (n * b)
        }),
{
    let u = Binary32::units_in_one() as int;
    let n = (before.n + 1) as int;
    let x = z.absolute();
    let m = before.mean.units();
    let count = Binary32::whole(n as nat);
    lemma_sizes(b);
    assert(x.units() == z.size());
    binary32_error::lemma_difference_error(x, before.mean);
    let d = x.difference(before.mean);
    binary32_laws::lemma_whole_exact(n as nat);
    binary32_laws::lemma_whole(n as nat);
    let dd = binary32_error::distance(d.units());
    assert(dd <= 4 * b);
    assert(dd * u <= binary32_error::safe_units() * (n * u)) by (nonlinear_arith)
        requires
            0 <= dd <= binary32_error::safe_units(),
            n >= 1,
            u > 0,
    {
        assert(dd * u <= binary32_error::safe_units() * u);
        assert(binary32_error::safe_units() * u <= binary32_error::safe_units() * (n * u));
    }
    assert(n * u >= 0) by (nonlinear_arith)
        requires
            n >= 0,
            u >= 0,
    ;
    binary32_error::lemma_quotient_error(d, count);
    let q = d.quotient(count);
    let e = q.units() * n - d.units();
    assert(q.units() * (n * u) - d.units() * u == e * u) by (nonlinear_arith)
        requires
            e == q.units() * n - d.units(),
    ;
    binary32_error::lemma_scaled_distance(e, u);
    let de = binary32_error::distance(e);
    assert(0xFF_FFFF * de <= dd + 0xFF_FFFF * n) by (nonlinear_arith)
        requires
            0xFF_FFFF * (de * u) <= dd * u + 0xFF_FFFF * (n * u),
            u > 0,
    ;
    let qn = q.units() * n;
    assert(binary32_error::distance(qn) <= 5 * b);
    assert(binary32_error::distance(q.units()) <= 5 * b) by {
        binary32_error::lemma_scaled_distance(q.units(), n);
        let dq = binary32_error::distance(q.units());
        assert(dq <= dq * n) by (nonlinear_arith)
            requires
                dq >= 0,
                n >= 1,
        ;
    }
    binary32_error::lemma_sum_error(before.mean, q);
    let next = before.mean.sum(q).units();
    let eta = next - (m + q.units());
    let neta = n * eta;
    let nb = n * b;
    assert(0x100_0000 * binary32_error::distance(eta) <= 8 * b);
    assert(0x100_0000 * binary32_error::distance(neta) <= 8 * nb) by {
        assert(neta == eta * n) by (nonlinear_arith)
            requires
                neta == n * eta,
        ;
        binary32_error::lemma_scaled_distance(eta, n);
        let h = binary32_error::distance(eta);
        assert(0x100_0000 * (h * n) <= 8 * nb) by (nonlinear_arith)
            requires
                0x100_0000 * h <= 8 * b,
                nb == n * b,
                n >= 1,
        ;
    }
    assert(b <= nb) by (nonlinear_arith)
        requires
            nb == n * b,
            n >= 1,
            b >= 0,
    ;
    assert(n * next - (n - 1) * m == m + qn + neta) by (nonlinear_arith)
        requires
            eta == next - (m + q.units()),
            neta == n * eta,
            qn == q.units() * n,
    ;
}

/// How the bound compares with the sizes that matter.
proof fn lemma_sizes(b: int)
    requires
        pow2(100) <= b <= pow2(169),
    ensures
        Binary32::units_in_one() > 0,
        b >= 0x1000_0000_0000_0000,
        0x100 * b <= binary32_error::safe_units(),
        0x100_0000_0000 * (b * b) <= binary32_error::safe_units() * Binary32::units_in_one(),
        0x1_0000_0000 * Binary32::units_in_one() <= b * b,
        b * b > 0,
{
    let u = Binary32::units_in_one() as int;
    lemma_pow2_pos(149);
    lemma_pow2_pos(100);
    vstd::arithmetic::power2::lemma2_to64();
    vstd::arithmetic::power2::lemma2_to64_rest();
    vstd::arithmetic::power2::lemma_pow2_strictly_increases(60, 100);
    lemma_pow2_adds(8, 169);
    vstd::arithmetic::power2::lemma_pow2_strictly_increases(177, 259);
    lemma_pow2_adds(169, 169);
    lemma_pow2_adds(40, 338);
    lemma_pow2_adds(259, 149);
    vstd::arithmetic::power2::lemma_pow2_strictly_increases(378, 408);
    lemma_pow2_adds(100, 100);
    lemma_pow2_adds(32, 149);
    vstd::arithmetic::power2::lemma_pow2_strictly_increases(181, 200);
    let top = pow2(169) as int;
    let low = pow2(100) as int;
    assert(b * b <= top * top) by (nonlinear_arith)
        requires
            0 <= b <= top,
    ;
    assert(low * low <= b * b) by (nonlinear_arith)
        requires
            0 <= low <= b,
    ;
}

/// The product of the deviations of a number from two means, with its roundings.
proof fn lemma_deviation_product(x: Binary32, mean: Binary32, next: Binary32, b: int)
    requires
        pow2(100) <= b <= pow2(169),
        x.finite(),
        0 <= x.units() <= b,
        mean.finite(),
        binary32_error::distance(mean.units()) <= 2 * b,
        next.finite(),
        binary32_error::distance(next.units()) <= 2 * b,
    ensures
        ({
            let u = Binary32::units_in_one();
            let w = (x.units() - mean.units()) * (x.units() - next.units());
            let p = x.difference(mean).product(x.difference(next));
            &&& p.finite()
            &&& binary32_error::distance(w) <= 9 * (b * b)
            &&& 0xFF_FFFF * binary32_error::distance(p.units() * u - w) <= 45 * (b * b)
        }),
{
    let u = Binary32::units_in_one() as int;
    let bb = b * b;
    lemma_sizes(b);
    binary32_error::lemma_difference_error(x, mean);
    binary32_error::lemma_difference_error(x, next);
    let d = x.difference(mean);
    let g = x.difference(next);
    let a1 = x.units() - mean.units();
    let a2 = x.units() - next.units();
    let ds = d.units();
    let gs = g.units();
    let w = a1 * a2;
    let dg = ds * gs;
    let e1 = ds - a1;
    let e2 = gs - a2;
    assert(binary32_error::distance(a1) <= 3 * b && binary32_error::distance(a2) <= 3 * b);
    assert(0xFF_FFFF * binary32_error::distance(e1) <= 4 * b);
    assert(0xFF_FFFF * binary32_error::distance(e2) <= 4 * b);
    assert(binary32_error::distance(ds) <= 4 * b && binary32_error::distance(gs) <= 4 * b);
    lemma_product_bound(a1, a2, 3 * b, 3 * b);
    lemma_product_bound(ds, gs, 4 * b, 4 * b);
    lemma_product_bound(0xFF_FFFF * e1, gs, 4 * b, 4 * b);
    lemma_product_bound(a1, 0xFF_FFFF * e2, 3 * b, 4 * b);
    assert((3 * b) * (3 * b) == 9 * bb && (4 * b) * (4 * b) == 16 * bb && (3 * b) * (4 * b) == 12
        * bb) by (nonlinear_arith)
        requires
            bb == b * b,
    ;
    assert(0xFF_FFFF * (dg - w) == (0xFF_FFFF * e1) * gs + a1 * (0xFF_FFFF * e2))
        by (nonlinear_arith)
        requires
            dg == ds * gs,
            w == a1 * a2,
            e1 == ds - a1,
            e2 == gs - a2,
    ;
    binary32_error::lemma_product_error(d, g);
}

/// A sum, in squared units.
proof fn lemma_accumulated(m2: Binary32, p: Binary32, b: int)
    requires
        pow2(100) <= b <= pow2(169),
        m2.finite(),
        p.finite(),
        binary32_error::distance(m2.units() * Binary32::units_in_one()) <= 0x100_0000 * (b * b),
        binary32_error::distance(p.units() * Binary32::units_in_one()) <= 10 * (b * b),
    ensures
        ({
            let u = Binary32::units_in_one();
            let exact = m2.units() * u + p.units() * u;
            &&& m2.sum(p).finite()
            &&& 0xFF_FFFF * binary32_error::distance(m2.sum(p).units() * u - exact)
                <= binary32_error::distance(exact) + b * b
        }),
{
    let u = Binary32::units_in_one() as int;
    let bb = b * b;
    lemma_sizes(b);
    let t = m2.units() + p.units();
    assert(t * u == m2.units() * u + p.units() * u) by (nonlinear_arith)
        requires
            t == m2.units() + p.units(),
    ;
    binary32_error::lemma_scaled_distance(t, u);
    let dt = binary32_error::distance(t);
    assert(dt <= binary32_error::safe_units()) by (nonlinear_arith)
        requires
            dt * u <= 0x100_0000_0000 * bb,
            0x100_0000_0000 * bb <= binary32_error::safe_units() * u,
            u > 0,
    ;
    binary32_error::lemma_sum_error(m2, p);
    let s = m2.sum(p).units();
    let e = s - t;
    assert(e * u == s * u - t * u) by (nonlinear_arith)
        requires
            e == s - t,
    ;
    binary32_error::lemma_scaled_distance(e, u);
    let de = binary32_error::distance(e);
    assert(0xFF_FFFF * (de * u) <= dt * u + 0xFF_FFFF * u) by (nonlinear_arith)
        requires
            0xFF_FFFF * de <= dt + 0xFF_FFFF,
            u > 0,
    ;
}

/// One value: how the sum of squared deviations moves.
proof fn lemma_deviation_step(before: ModeStatistics, z: Binary32, b: int)
    requires
        pow2(100) <= b <= pow2(169),
        z.finite(),
        z.size() <= b,
        before.mean.finite(),
        binary32_error::distance(before.mean.units()) <= 2 * b,
        before.after(z).mean.finite(),
        binary32_error::distance(before.after(z).mean.units()) <= 2 * b,
        before.m2.finite(),
        binary32_error::distance(before.m2.units() * Binary32::units_in_one()) <= 0x100_0000 * (b
            * b),
    ensures
        ({
            let after = before.after(z);
            let u = Binary32::units_in_one();
            let x = z.size() as int;
            let w = (x - before.mean.units()) * (x - after.mean.units());
            let old_m2 = before.m2.units() * u;
            &&& after.m2.finite()
            &&& binary32_error::distance(w) <= 9 * (b * b)
            &&& 0xFF_FFFF * binary32_error::distance(after.m2.units() * u - (old_m2 + w)) <= 58 * (b
                * b) + binary32_error::distance(old_m2)
        }),
{
    let x = z.absolute();
    let next = before.after(z).mean;
    lemma_sizes(b);
    assert(x.units() == z.size());
    lemma_deviation_product(x, before.mean, next, b);
    let p = x.difference(before.mean).product(x.difference(next));
    lemma_accumulated(before.m2, p, b);
}

/// A product of bounded numbers.
proof fn lemma_product_bound(x: int, y: int, a: int, c: int)
    requires
        binary32_error::distance(x) <= a,
        binary32_error::distance(y) <= c,
    ensures
        binary32_error::distance(x * y) <= a * c,
{
    let dx = binary32_error::distance(x);
    let dy = binary32_error::distance(y);
    binary32_error::lemma_signed_product(x, y);
    assert(dx * dy <= a * c) by (nonlinear_arith)
        requires
            0 <= dx <= a,
            0 <= dy <= c,
    ;
    assert(dx * dy >= 0) by (nonlinear_arith)
        requires
            dx >= 0,
            dy >= 0,
    ;
}

/// The sums of bounded values.
proof fn lemma_sums_are_bounded(values: Seq<Binary32>, b: nat, n: nat)
    requires
        are_bounded(values, b),
        n <= values.len(),
    ensures
        0 <= value_sum(values, n) <= n * b,
        0 <= square_sum(values, n) <= n * (b * b),
    decreases n,
{
    if n == 0 {
        assert(0 * b == 0);
        assert(0 * (b * b) == 0);
    } else {
        let k = (n - 1) as nat;
        lemma_sums_are_bounded(values, b, k);
        let x = values[k as int].size();
        assert(values[k as int].size() <= b);
        assert(n * b == k * b + b) by (nonlinear_arith)
            requires
                n == k + 1,
        ;
        let bb = b * b;
        assert(n * bb == k * bb + bb) by (nonlinear_arith)
            requires
                n == k + 1,
        ;
        assert(0 <= x * x <= bb) by (nonlinear_arith)
            requires
                0 <= x <= b,
                bb == b * b,
        ;
    }
}

/// What the statistics keep to after each value.
spec fn statistics_keep_to(st: ModeStatistics, s: int, q: int, n: int, b: int) -> bool {
    let u = Binary32::units_in_one();
    let m = st.mean.units();
    &&& st.n == n
    &&& st.mean.finite()
    &&& st.m2.finite()
    &&& binary32_error::distance(m) <= 2 * b
    &&& 0x100_0000 * binary32_error::distance(n * m - s) <= 17 * (n * (n * b))
    &&& 0x100_0000 * binary32_error::distance(st.m2.units() * u - (q - n * (m * m))) <= 160 * (n * (
    n * (b * b)))
}

/// The mean keeps to the sum of the values.
proof fn lemma_mean_kept(m: int, next: int, x: int, s: int, n: int, b: int)
    requires
        1 <= n <= 0x1_0000,
        b > 0,
        0 <= s + x <= n * b,
        0x100_0000 * binary32_error::distance((n - 1) * m - s) <= 17 * ((n - 1) * ((n - 1) * b)),
        0x100_0000 * binary32_error::distance(n * next - (n - 1) * m - x) <= 17 * (n * b),
    ensures
        0x100_0000 * binary32_error::distance(n * next - (s + x)) <= 17 * (n * (n * b)),
        binary32_error::distance(next) <= 2 * b,
{
    let nb = n * b;
    let nnb = n * nb;
    assert((n - 1) * ((n - 1) * b) + nb <= nnb) by (nonlinear_arith)
        requires
            nb == n * b,
            nnb == n * nb,
            n >= 1,
            b > 0,
    {
        assert((n - 1) * ((n - 1) * b) == nnb - 2 * nb + b);
        assert(b <= nb);
    }
    assert(nnb <= 0x1_0000 * nb) by (nonlinear_arith)
        requires
            nnb == n * nb,
            n <= 0x1_0000,
            nb >= 0,
    ;
    assert(nb >= 0) by (nonlinear_arith)
        requires
            nb == n * b,
            n >= 0,
            b >= 0,
    ;
    let y = n * next;
    assert(binary32_error::distance(y) <= 2 * nb);
    assert(y == next * n) by (nonlinear_arith)
        requires
            y == n * next,
    ;
    binary32_error::lemma_scaled_distance(next, n);
    let dn = binary32_error::distance(next);
    assert(dn <= 2 * b) by (nonlinear_arith)
        requires
            dn * n <= 2 * nb,
            nb == n * b,
            n >= 1,
    ;
}

/// The sum of squared deviations from the mean, as the mean moves.
proof fn lemma_deviation_identity(m: int, next: int, x: int, n: int)
    ensures
        x * x - n * (next * next) + (n - 1) * (m * m) == (x - m) * (x - next) - (n * next - (n - 1)
            * m - x) * (m + next),
{
    let a = m * m;
    let c = next * next;
    let d = m * next;
    assert((x - m) * (x - next) == x * x - x * (m + next) + d) by (nonlinear_arith)
        requires
            d == m * next,
    ;
    assert((n * next - (n - 1) * m - x) * (m + next) == n * (next * (m + next)) - (n - 1) * (m * (m
        + next)) - x * (m + next)) by (nonlinear_arith);
    assert(next * (m + next) == d + c) by (nonlinear_arith)
        requires
            d == m * next,
            c == next * next,
    ;
    assert(m * (m + next) == a + d) by (nonlinear_arith)
        requires
            d == m * next,
            a == m * m,
    ;
    assert(n * (d + c) == n * d + n * c) by (nonlinear_arith);
    assert((n - 1) * (a + d) == (n - 1) * a + n * d - d) by (nonlinear_arith);
}

/// The sum of squared deviations keeps to the sums.
proof fn lemma_deviations_kept(
    old_su: int,
    su: int,
    m: int,
    next: int,
    x: int,
    q: int,
    w: int,
    n: int,
    b: int,
)
    requires
        1 <= n <= 0x1_0000,
        b > 0,
        0 <= q <= (n - 1) * (b * b),
        binary32_error::distance(m) <= 2 * b,
        binary32_error::distance(next) <= 2 * b,
        w == (x - m) * (x - next),
        0x100_0000 * binary32_error::distance(old_su - (q - (n - 1) * (m * m))) <= 160 * ((n - 1)
            * ((n - 1) * (b * b))),
        0xFF_FFFF * binary32_error::distance(su - (old_su + w)) <= 58 * (b * b)
            + binary32_error::distance(old_su),
        0x100_0000 * binary32_error::distance(n * next - (n - 1) * m - x) <= 17 * (n * b),
    ensures
        0x100_0000 * binary32_error::distance(su - (q + x * x - n * (next * next))) <= 160 * (n * (n
            * (b * b))),
{
    let bb = b * b;
    let k = n - 1;
    let rho = n * next - k * m - x;
    let shift = rho * (m + next);
    lemma_deviation_identity(m, next, x, n);
    lemma_product_bound(0x100_0000 * rho, m + next, 17 * (n * b), 4 * b);
    assert((17 * (n * b)) * (4 * b) == 68 * (n * bb)) by (nonlinear_arith)
        requires
            bb == b * b,
    ;
    assert((0x100_0000 * rho) * (m + next) == 0x100_0000 * shift) by (nonlinear_arith)
        requires
            shift == rho * (m + next),
    ;
    let nbb = n * bb;
    let kbb = k * bb;
    let kk = k * kbb;
    assert(nbb == kbb + bb) by (nonlinear_arith)
        requires
            nbb == n * bb,
            kbb == k * bb,
            k == n - 1,
    ;
    assert(n * nbb == kk + 2 * kbb + bb) by (nonlinear_arith)
        requires
            nbb == n * bb,
            kbb == k * bb,
            kk == k * kbb,
            k == n - 1,
    ;
    assert(0 <= kbb && 0 <= kk <= 0x1_0000 * kbb && bb > 0) by (nonlinear_arith)
        requires
            kbb == k * bb,
            kk == k * kbb,
            0 <= k <= 0x1_0000,
            bb == b * b,
            b > 0,
    ;
    // The old sum is not large.
    lemma_product_bound(m, m, 2 * b, 2 * b);
    assert((2 * b) * (2 * b) == 4 * bb) by (nonlinear_arith)
        requires
            bb == b * b,
    ;
    let mm = m * m;
    assert(mm >= 0) by (nonlinear_arith)
        requires
            mm == m * m,
    ;
    assert(0 <= k * mm <= 4 * kbb) by (nonlinear_arith)
        requires
            0 <= mm <= 4 * bb,
            kbb == k * bb,
            k >= 0,
    {
        assert(k * mm <= k * (4 * bb));
    }
    assert(binary32_error::distance(old_su) <= 6 * kbb);
    assert(x * x - n * (next * next) + k * mm == w - shift);
}

proof fn lemma_statistics_kept(values: Seq<Binary32>, b: nat, n: nat)
    requires
        are_bounded(values, b),
        n <= values.len(),
        n <= 0x1_0000,
    ensures
        statistics_keep_to(
            statistics_after(values, n),
            value_sum(values, n),
            square_sum(values, n),
            n as int,
            b as int,
        ),
    decreases n,
{
    let u = Binary32::units_in_one() as int;
    lemma_sizes(b as int);
    if n == 0 {
        assert(Binary32::nil().units() == 0);
        assert(0 * u == 0);
        assert(0 * (0 * b) == 0);
        assert(0 * (0 * (b * b)) == 0);
        assert(0 * (0int * 0int) == 0);
    } else {
        let k = (n - 1) as nat;
        lemma_statistics_kept(values, b, k);
        lemma_sums_are_bounded(values, b, k);
        lemma_sums_are_bounded(values, b, n);
        let before = statistics_after(values, k);
        let z = values[k as int];
        let after = before.after(z);
        let x = z.size() as int;
        let m = before.mean.units();
        let bi = b as int;
        let ki = k as int;
        let ni = n as int;
        assert(z.finite() && z.size() <= b);
        lemma_statistics_step(before, z, bi);
        let next = after.mean.units();
        lemma_mean_kept(m, next, x, value_sum(values, k), ni, bi);
        let old_su = before.m2.units() * u;
        assert(binary32_error::distance(old_su) <= 0x100_0000 * (bi * bi)) by {
            let bb = bi * bi;
            let mm = m * m;
            lemma_product_bound(m, m, 2 * bi, 2 * bi);
            assert((2 * bi) * (2 * bi) == 4 * bb) by (nonlinear_arith)
                requires
                    bb == bi * bi,
            ;
            assert(binary32_error::distance(ki * mm) <= 0x4_0000 * bb) by (nonlinear_arith)
                requires
                    binary32_error::distance(mm) <= 4 * bb,
                    0 <= ki <= 0x1_0000,
                    mm == m * m,
            {
                assert(mm >= 0);
                assert(ki * mm <= 0x1_0000 * mm);
                assert(ki * mm >= 0);
            }
            assert(ki * bb <= 0x1_0000 * bb && ki * (ki * bb) <= 0x1_0000_0000 * bb)
                by (nonlinear_arith)
                requires
                    0 <= ki <= 0x1_0000,
                    bb > 0,
            {
                assert(ki * bb <= 0x1_0000 * bb);
                assert(ki * (ki * bb) <= 0x1_0000 * (ki * bb));
            }
        }
        lemma_deviation_step(before, z, bi);
        let w = (x - m) * (x - next);
        lemma_deviations_kept(
            old_su,
            after.m2.units() * u,
            m,
            next,
            x,
            square_sum(values, k),
            w,
            ni,
            bi,
        );
    }
}

/// The variance that decides the class of a mode is the mean squared deviation of its
/// values, and the mean is their mean, but for a rounding error that grows with the
/// number of values: after `n` values of up to `bound` the mean is off by no more than
/// `n * bound / 2^19`, and the variance by no more than `n * bound * bound / 2^16`.
pub proof fn law_variance_is_the_mean_squared_deviation(
    values: Seq<Binary32>,
    bound: nat,
    n: nat,
)
    requires
        are_bounded(values, bound),
        2 <= n <= values.len(),
        n <= 0x1_0000,
    ensures
        ({
            let u = Binary32::units_in_one();
            let st = statistics_after(values, n);
            &&& st.n == n
            &&& st.mean.finite()
            &&& st.variance().finite()
            &&& 0x8_0000 * binary32_error::distance(n * st.mean.units() - value_sum(values, n)) <= n
                * (n * bound)
            &&& 0x1_0000 * binary32_error::distance(
                n * (n * (st.variance().units() * u)) - scaled_variance(values, n),
            ) <= n * (n * (n * (bound * bound)))
        }),
{
    let u = Binary32::units_in_one() as int;
    let b = bound as int;
    let bb = b * b;
    let ni = n as int;
    let st = statistics_after(values, n);
    lemma_sizes(b);
    lemma_statistics_kept(values, bound, n);
    lemma_sums_are_bounded(values, bound, n);
    let s = value_sum(values, n);
    let q = square_sum(values, n);
    let m = st.mean.units();
    let su = st.m2.units() * u;
    let count = Binary32::whole(n);
    binary32_laws::lemma_whole_exact(n);
    binary32_laws::lemma_whole(n);
    // Against the mean of the statistics.
    let nm = ni * m;
    let dev = q - ni * (m * m);
    assert(ni * dev == ni * q - nm * nm) by (nonlinear_arith)
        requires
            dev == q - ni * (m * m),
            nm == ni * m,
    ;
    let f = nm - s;
    let nb = ni * b;
    let nbb = ni * bb;
    let nnbb = ni * nbb;
    let nnnbb = ni * nnbb;
    assert(binary32_error::distance(nm) <= 2 * nb) by {
        assert(nm == m * ni) by (nonlinear_arith)
            requires
                nm == ni * m,
        ;
        binary32_error::lemma_scaled_distance(m, ni);
        let dm = binary32_error::distance(m);
        assert(dm * ni <= 2 * nb) by (nonlinear_arith)
            requires
                dm <= 2 * b,
                nb == ni * b,
                ni >= 0,
        ;
    }
    lemma_product_bound(0x100_0000 * f, nm + s, 17 * (ni * nb), 3 * nb);
    assert((17 * (ni * nb)) * (3 * nb) == 51 * nnnbb) by (nonlinear_arith)
        requires
            nb == ni * b,
            nbb == ni * bb,
            nnbb == ni * nbb,
            nnnbb == ni * nnbb,
            bb == b * b,
    {
        assert((ni * nb) * nb == ni * (nb * nb));
        assert(nb * nb == (ni * ni) * bb);
        assert(ni * ((ni * ni) * bb) == nnnbb);
    }
    let fs = f * (nm + s);
    assert((0x100_0000 * f) * (nm + s) == 0x100_0000 * fs) by (nonlinear_arith)
        requires
            fs == f * (nm + s),
    ;
    assert(fs == nm * nm - s * s) by (nonlinear_arith)
        requires
            f == nm - s,
            fs == f * (nm + s),
    ;
    let e1 = su - dev;
    let ne1 = ni * e1;
    assert(0x100_0000 * binary32_error::distance(ne1) <= 160 * nnnbb) by {
        assert(ne1 == e1 * ni) by (nonlinear_arith)
            requires
                ne1 == ni * e1,
        ;
        binary32_error::lemma_scaled_distance(e1, ni);
        let d1 = binary32_error::distance(e1);
        assert(0x100_0000 * (d1 * ni) <= 160 * nnnbb) by (nonlinear_arith)
            requires
                0x100_0000 * d1 <= 160 * nnbb,
                nnnbb == ni * nnbb,
                ni >= 0,
        ;
    }
    assert(ne1 == ni * su - ni * dev) by (nonlinear_arith)
        requires
            e1 == su - dev,
            ne1 == ni * e1,
    ;
    // The division.
    assert(0 <= nbb && 0 <= nnbb <= 0x1_0000 * nbb && nbb <= nnbb) by (nonlinear_arith)
        requires
            nbb == ni * bb,
            nnbb == ni * nbb,
            1 <= ni <= 0x1_0000,
            bb > 0,
    ;
    assert(nnbb <= nnnbb) by (nonlinear_arith)
        requires
            nnnbb == ni * nnbb,
            ni >= 1,
            nnbb >= 0,
    ;
    assert(0 <= ni * (m * m) <= 4 * nbb) by {
        let mm = m * m;
        lemma_product_bound(m, m, 2 * b, 2 * b);
        assert((2 * b) * (2 * b) == 4 * bb) by (nonlinear_arith)
            requires
                bb == b * b,
        ;
        assert(mm >= 0) by (nonlinear_arith)
            requires
                mm == m * m,
        ;
        assert(0 <= ni * mm <= 4 * nbb) by (nonlinear_arith)
            requires
                0 <= mm <= 4 * bb,
                nbb == ni * bb,
                ni >= 0,
        {
            assert(ni * mm <= ni * (4 * bb));
        }
    }
    assert(binary32_error::distance(su) <= 6 * nbb);
    let x = st.m2.units();
    binary32_error::lemma_scaled_distance(x, u);
    let dx = binary32_error::distance(x);
    assert(nbb <= 0x1_0000 * bb) by (nonlinear_arith)
        requires
            nbb == ni * bb,
            ni <= 0x1_0000,
            bb > 0,
    ;
    assert(dx <= binary32_error::safe_units()) by (nonlinear_arith)
        requires
            dx * u <= 0x100_0000_0000 * bb,
            0x100_0000_0000 * bb <= binary32_error::safe_units() * u,
            u > 0,
    ;
    assert(dx * u <= binary32_error::safe_units() * (ni * u)) by (nonlinear_arith)
        requires
            0 <= dx <= binary32_error::safe_units(),
            ni >= 1,
            u > 0,
    {
        assert(dx * u <= binary32_error::safe_units() * u);
        assert(binary32_error::safe_units() * u <= binary32_error::safe_units() * (ni * u));
    }
    let nu = ni * u;
    assert(nu >= 0) by (nonlinear_arith)
        requires
            nu == ni * u,
            ni >= 0,
            u >= 0,
    ;
    binary32_error::lemma_quotient_error(st.m2, count);
    let v = st.variance().units();
    let e2 = v * nu - x * u;
    let vu = v * u;
    assert(v * nu == ni * vu) by (nonlinear_arith)
        requires
            nu == ni * u,
            vu == v * u,
    ;
    assert(0x1_0000 * nu <= nbb) by (nonlinear_arith)
        requires
            nu == ni * u,
            nbb == ni * bb,
            0x1_0000 * u <= bb,
            ni >= 0,
    {
        assert(ni * (0x1_0000 * u) <= ni * bb);
    }
    assert(0x1_0000_0000 * nu <= nbb) by (nonlinear_arith)
        requires
            nu == ni * u,
            nbb == ni * bb,
            0x1_0000_0000 * u <= bb,
            ni >= 0,
    {
        assert(ni * (0x1_0000_0000 * u) <= ni * bb);
    }
    assert(0xFF_FFFF * binary32_error::distance(e2) <= 7 * nbb);
    let ne2 = ni * e2;
    assert(0xFF_FFFF * binary32_error::distance(ne2) <= 7 * nnbb) by {
        assert(ne2 == e2 * ni) by (nonlinear_arith)
            requires
                ne2 == ni * e2,
        ;
        binary32_error::lemma_scaled_distance(e2, ni);
        let d2 = binary32_error::distance(e2);
        assert(0xFF_FFFF * (d2 * ni) <= 7 * nnbb) by (nonlinear_arith)
            requires
                0xFF_FFFF * d2 <= 7 * nbb,
                nnbb == ni * nbb,
                ni >= 0,
        ;
    }
    assert(ne2 == ni * (ni * vu) - ni * su) by (nonlinear_arith)
        requires
            e2 == ni * vu - su,
            ne2 == ni * e2,
    ;
}

/// The thresholds of the classes, in units.
proof fn lemma_thresholds()
    ensures
        ({
            let u = Binary32::units_in_one();
            let collapse = Binary32::fraction(1, 100);
            let diffuse = Binary32::fraction(4, 1000);
            &&& collapse.finite()
            &&& diffuse.finite()
            &&& 999 * u <= 100_000 * collapse.units() <= 1001 * u
            &&& 3996 * u <= 1_000_000 * diffuse.units() <= 4004 * u
        }),
{
    let u = Binary32::units_in_one();
    vstd::arithmetic::power2::lemma2_to64();
    lemma_pow2_adds(32, 117);
    lemma_pow2_pos(117);
    assert(u == 0x1_0000_0000 * pow2(117));
    vstd::arithmetic::power2::lemma_pow2_strictly_increases(32, 117);
    vstd::arithmetic::power2::lemma_pow2_strictly_increases(151, 259);
    lemma_pow2_adds(2, 149);
    let safe = binary32_error::safe_units();
    assert(4 * u <= safe * 100) by {
        assert(safe * 100 >= safe);
    }
    assert(safe * 1000 >= safe * 100);
    binary32_error::lemma_nearest_error(1 * u, 100);
    binary32_error::lemma_nearest_error(4 * u, 1000);
    binary32_laws::lemma_rounded(false, 1 * u, 100);
    binary32_laws::lemma_rounded(false, 4 * u, 1000);
}

/// The class of a mode is decided by its mean against a hundredth and by its sum of
/// squared deviations, divided by the count once, against four thousandths; a single
/// value has no variance.
pub proof fn law_class_is_decided_by_mean_and_variance(st: ModeStatistics)
    ensures
        st.class() == GhostClass::Collapsed <==> st.mean.below(Binary32::fraction(1, 100)),
        st.n < 2 ==> st.class() != GhostClass::Diffuse,
        st.n >= 2 ==> (st.class() == GhostClass::Diffuse <==> !st.mean.below(
            Binary32::fraction(1, 100),
        ) && Binary32::fraction(4, 1000).below(st.m2.quotient(Binary32::whole(st.n)))),
{
    binary32_laws::lemma_fraction_monotone(0, 1, 4, 1000);
    if st.n < 2 {
        assert(st.variance() == Binary32::nil());
        assert(!Binary32::fraction(4, 1000).below(Binary32::nil()));
    }
}

/// Whether the mean of the first `n` values is above a hundredth, with room for the
/// roundings.
pub open spec fn is_present(values: Seq<Binary32>, bound: nat, n: nat) -> bool {
    0x8_0000 * (100_000 * value_sum(values, n)) >= 0x8_0000 * (1001 * (n
        * Binary32::units_in_one())) + 100_000 * (n * (n * bound))
}

/// Whether it is below a hundredth, with room for the roundings.
pub open spec fn is_absent(values: Seq<Binary32>, bound: nat, n: nat) -> bool {
    0x8_0000 * (100_000 * value_sum(values, n)) + 100_000 * (n * (n * bound)) < 0x8_0000 * (999 * (n
        * Binary32::units_in_one()))
}

/// Whether the mean squared deviation of the first `n` values is above four
/// thousandths, with room for the roundings.
pub open spec fn is_restless(values: Seq<Binary32>, bound: nat, n: nat) -> bool {
    let u = Binary32::units_in_one();
    0x1_0000 * (1_000_000 * scaled_variance(values, n)) > 0x1_0000 * (4004 * (n * (n * (u * u))))
        + 1_000_000 * (n * (n * (n * (bound * bound))))
}

/// Whether it is below four thousandths, with room for the roundings.
pub open spec fn is_calm(values: Seq<Binary32>, bound: nat, n: nat) -> bool {
    let u = Binary32::units_in_one();
    0x1_0000 * (1_000_000 * scaled_variance(values, n)) + 1_000_000 * (n * (n * (n * (bound
        * bound)))) < 0x1_0000 * (3996 * (n * (n * (u * u))))
}

/// A mode whose mean is above a hundredth is diffuse if its mean squared deviation is
/// above four thousandths, and an echo if it is below; a mode whose mean is below a
/// hundredth is collapsed.
pub proof fn law_class_follows_the_values(values: Seq<Binary32>, bound: nat, n: nat)
    requires
        are_bounded(values, bound),
        2 <= n <= values.len(),
        n <= 0x1_0000,
    ensures
        is_absent(values, bound, n) ==> statistics_after(values, n).class()
            == GhostClass::Collapsed,
        is_present(values, bound, n) && is_restless(values, bound, n) ==> statistics_after(
            values,
            n,
        ).class() == GhostClass::Diffuse,
        is_present(values, bound, n) && is_calm(values, bound, n) ==> statistics_after(
            values,
            n,
        ).class() == GhostClass::Echo,
{
    let u = Binary32::units_in_one() as int;
    let st = statistics_after(values, n);
    let collapse = Binary32::fraction(1, 100);
    let diffuse = Binary32::fraction(4, 1000);
    let mean = st.mean.units();
    let var = st.variance().units();
    lemma_thresholds();
    lemma_pow2_pos(149);
    law_variance_is_the_mean_squared_deviation(values, bound, n);
    binary32_laws::lemma_order_is_by_units(collapse, st.mean);
    binary32_laws::lemma_order_is_by_units(diffuse, st.variance());
    let ni = n as int;
    let nu = ni * u;
    assert(ni * mean - nu == ni * (mean - u)) by (nonlinear_arith)
        requires
            nu == ni * u,
    ;
    let t = collapse.units();
    assert(100_000 * (ni * mean) >= 1001 * nu ==> mean >= t) by (nonlinear_arith)
        requires
            nu == ni * u,
            ni > 0,
            100_000 * t <= 1001 * u,
    {
        if mean < t {
            assert(ni * (100_000 * mean) < ni * (1001 * u));
        }
    }
    assert(100_000 * (ni * mean) < 999 * nu ==> mean < t) by (nonlinear_arith)
        requires
            nu == ni * u,
            ni > 0,
            999 * u <= 100_000 * t,
    {
        if mean >= t {
            assert(ni * (100_000 * mean) >= ni * (999 * u));
        }
    }
    let v = diffuse.units();
    let uu = u * u;
    let nn = ni * (ni * uu);
    let vn = ni * (ni * (var * u));
    let p = ni * (ni * u);
    assert(p > 0) by (nonlinear_arith)
        requires
            p == ni * (ni * u),
            ni > 0,
            u > 0,
    ;
    assert(nn == p * u) by (nonlinear_arith)
        requires
            nn == ni * (ni * uu),
            uu == u * u,
            p == ni * (ni * u),
    ;
    assert(vn == p * var) by (nonlinear_arith)
        requires
            vn == ni * (ni * (var * u)),
            p == ni * (ni * u),
    ;
    assert(1_000_000 * vn > 4004 * nn ==> var > v) by (nonlinear_arith)
        requires
            vn == p * var,
            nn == p * u,
            p > 0,
            1_000_000 * v <= 4004 * u,
    {
        if var <= v {
            assert(p * (1_000_000 * var) <= p * (4004 * u));
        }
    }
    assert(1_000_000 * vn < 3996 * nn ==> var < v) by (nonlinear_arith)
        requires
            vn == p * var,
            nn == p * u,
            p > 0,
            3996 * u <= 1_000_000 * v,
    {
        if var >= v {
            assert(p * (1_000_000 * var) >= p * (3996 * u));
        }
    }
}

/// The sums of a mode that goes back and forth between two values.
proof fn lemma_flicker_sums(values: Seq<Binary32>, x: nat, y: nat, k: nat)
    requires
        2 * k <= values.len(),
        forall|i: int|
            0 <= i < values.len() ==> (#[trigger] values[i]).size() == (if i % 2 == 0 {
                x
            } else {
                y
            }),
    ensures
        value_sum(values, 2 * k) == k * (x + y),
        square_sum(values, 2 * k) == k * (x * x + y * y),
    decreases k,
{
    if k == 0 {
        assert(0 * (x + y) == 0);
        assert(0 * (x * x + y * y) == 0);
    } else {
        let j = (k - 1) as nat;
        lemma_flicker_sums(values, x, y, j);
        reveal_with_fuel(value_sum, 3);
        reveal_with_fuel(square_sum, 3);
        assert(values[2 * k - 1].size() == y);
        assert(values[2 * k - 2].size() == x);
        assert((2 * k - 1) as nat - 1 == 2 * k - 2);
        assert((2 * k - 2) as nat == 2 * j);
        let s = x + y;
        let q = x * x + y * y;
        assert(k * s == j * s + s) by (nonlinear_arith)
            requires
                k == j + 1,
        ;
        assert(k * q == j * q + q) by (nonlinear_arith)
            requires
                k == j + 1,
        ;
    }
}

/// A mode that goes back and forth between two values is diffuse after every even
/// number of frames if the square of half their distance is above four thousandths and
/// their mean is above a hundredth, with room for the roundings.
pub proof fn law_flickering_modes_are_diffuse(
    values: Seq<Binary32>,
    x: nat,
    y: nat,
    bound: nat,
    k: nat,
)
    requires
        are_bounded(values, bound),
        1 <= k <= 0x8000,
        2 * k <= values.len(),
        forall|i: int|
            0 <= i < values.len() ==> (#[trigger] values[i]).size() == (if i % 2 == 0 {
                x
            } else {
                y
            }),
        0x1_0000 * (1_000_000 * ((x - y) * (x - y))) > 0x1_0000 * (16_016 * (
        Binary32::units_in_one() * Binary32::units_in_one())) + 8_000_000 * (k * (bound * bound)),
        0x8_0000 * (100_000 * (x + y)) >= 0x8_0000 * (2002 * Binary32::units_in_one()) + 400_000 * (k
            * bound),
    ensures
        statistics_after(values, 2 * k).class() == GhostClass::Diffuse,
{
    let u = Binary32::units_in_one() as int;
    let uu = u * u;
    let bb = (bound * bound) as int;
    let b = bound as int;
    let ki = k as int;
    let n = 2 * ki;
    let d = (x - y) * (x - y);
    let kk = ki * ki;
    lemma_flicker_sums(values, x, y, k);
    let s = value_sum(values, 2 * k);
    let q = square_sum(values, 2 * k);
    let w = scaled_variance(values, 2 * k);
    assert(w == kk * d) by {
        let xi = x as int;
        let yi = y as int;
        assert(n * q - s * s == kk * d) by (nonlinear_arith)
            requires
                n == 2 * ki,
                q == ki * (xi * xi + yi * yi),
                s == ki * (xi + yi),
                kk == ki * ki,
                d == (xi - yi) * (xi - yi),
        {
            assert(n * q == kk * (2 * (xi * xi + yi * yi)));
            assert(s * s == kk * ((xi + yi) * (xi + yi)));
            assert((xi + yi) * (xi + yi) == xi * xi + 2 * (xi * yi) + yi * yi);
            assert((xi - yi) * (xi - yi) == xi * xi - 2 * (xi * yi) + yi * yi);
        }
    }
    assert(kk > 0) by (nonlinear_arith)
        requires
            kk == ki * ki,
            ki >= 1,
    ;
    assert(n * (n * uu) == 4 * (kk * uu)) by (nonlinear_arith)
        requires
            n == 2 * ki,
            kk == ki * ki,
    ;
    let kbb = ki * bb;
    assert(n * (n * (n * bb)) == 8 * (kk * kbb)) by (nonlinear_arith)
        requires
            n == 2 * ki,
            kk == ki * ki,
            kbb == ki * bb,
    ;
    assert(0x1_0000 * (1_000_000 * (kk * d)) > 0x1_0000 * (16_016 * (kk * uu)) + 8_000_000 * (kk
        * kbb)) by (nonlinear_arith)
        requires
            0x1_0000 * (1_000_000 * d) > 0x1_0000 * (16_016 * uu) + 8_000_000 * kbb,
            kk > 0,
    {
        assert(kk * (0x1_0000 * (1_000_000 * d)) > kk * (0x1_0000 * (16_016 * uu) + 8_000_000
            * kbb));
    }
    assert(is_restless(values, bound, 2 * k));
    let kb = ki * b;
    assert(n * (n * b) == 4 * (ki * kb)) by (nonlinear_arith)
        requires
            n == 2 * ki,
            kb == ki * b,
    ;
    assert(n * u == 2 * (ki * u)) by (nonlinear_arith)
        requires
            n == 2 * ki,
    ;
    let t = (x + y) as int;
    assert(0x8_0000 * (100_000 * (ki * t)) >= 0x8_0000 * (2002 * (ki * u)) + 400_000 * (ki * kb))
        by (nonlinear_arith)
        requires
            0x8_0000 * (100_000 * t) >= 0x8_0000 * (2002 * u) + 400_000 * kb,
            ki > 0,
    {
        assert(ki * (0x8_0000 * (100_000 * t)) >= ki * (0x8_0000 * (2002 * u) + 400_000 * kb));
    }
    assert(is_present(values, bound, 2 * k));
    law_class_follows_the_values(values, bound, 2 * k);
}

/// The values of a mode in a run of state vectors.
pub open spec fn column(frames: Seq<Seq<Binary32>>, k: int) -> Seq<Binary32> {
    Seq::new(frames.len(), |i: int| frames[i][k])
}

/// Whether a classifier goes through `run` as it takes in the frames one by one.
pub open spec fn is_run(run: Seq<ModeClassifier>, frames: Seq<Seq<Binary32>>) -> bool {
    &&& run.len() == frames.len() + 1
    &&& run[0].is_fresh()
    &&& forall|i: int|
        #![trigger frames[i]]
        0 <= i < frames.len() ==> run[i + 1].follows(run[i], frames[i])
}

proof fn lemma_modes_are_apart(
    run: Seq<ModeClassifier>,
    frames: Seq<Seq<Binary32>>,
    k: int,
    n: nat,
)
    requires
        is_run(run, frames),
        0 <= k < DIM,
        n <= frames.len(),
    ensures
        run[n as int].mode(k) == statistics_after(column(frames, k), n),
    decreases n,
{
    if n == 0 {
        assert(run[0].mode(k) == ModeStatistics::initial());
    } else {
        let i = n - 1;
        lemma_modes_are_apart(run, frames, k, i as nat);
        let frame = frames[i];
        assert(run[i + 1].follows(run[i], frame));
        assert(run[i + 1].mode(k) == run[i].mode(k).after(frame[k]));
    }
}

/// A classifier that has taken in `n` frames has the mean and the variance of every
/// mode over these frames, whatever the other modes hold, and classes it by them.
pub proof fn law_classifier_follows_every_mode(
    run: Seq<ModeClassifier>,
    frames: Seq<Seq<Binary32>>,
    k: int,
    bound: nat,
)
    requires
        is_run(run, frames),
        0 <= k < DIM,
        are_bounded(column(frames, k), bound),
        2 <= frames.len() <= 0x1_0000,
    ensures
        ({
            let u = Binary32::units_in_one();
            let n = frames.len();
            let values = column(frames, k);
            let mode = run[n as int].mode(k);
            &&& run[n as int].n[k] == n
            &&& 0x8_0000 * binary32_error::distance(
                n * run[n as int].mean[k].units() - value_sum(values, n),
            ) <= n * (n * bound)
            &&& 0x1_0000 * binary32_error::distance(
                n * (n * (mode.variance().units() * u)) - scaled_variance(values, n),
            ) <= n * (n * (n * (bound * bound)))
            &&& is_absent(values, bound, n) ==> mode.class() == GhostClass::Collapsed
            &&& is_present(values, bound, n) && is_restless(values, bound, n) ==> mode.class()
                == GhostClass::Diffuse
            &&& is_present(values, bound, n) && is_calm(values, bound, n) ==> mode.class()
                == GhostClass::Echo
        }),
{
    let n = frames.len();
    let values = column(frames, k);
    lemma_modes_are_apart(run, frames, k, n);
    law_variance_is_the_mean_squared_deviation(values, bound, n);
    law_class_follows_the_values(values, bound, n);
    assert(run[n as int].mode(k).n == run[n as int].n[k]);
}

/// However many values there were, the next one counts: the count goes up by one, the mean
/// moves by its distance to the value over the new count, and the sum of squared
/// deviations grows by the product of the distances to the old and to the new mean. The
/// sign of the value does not matter.
pub proof fn law_every_value_counts(before: ModeStatistics, z: Binary32)
    ensures
        ({
            let after = before.after(z);
            let x = z.absolute();
            let distance = x.difference(before.mean);
            &&& after.n == before.n + 1
            &&& after.mean == before.mean.sum(distance.quotient(Binary32::whole(before.n + 1)))
            &&& after.m2 == before.m2.sum(distance.product(x.difference(after.mean)))
            &&& after == before.after(z.opposite())
        }),
{
    assert(z.absolute() == z.opposite().absolute());
}

} // verus!
