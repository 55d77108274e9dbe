//! Weighted means: a fifth of what is new and four fifths of what was there.

use vstd::arithmetic::power2::{lemma_pow2_adds, lemma_pow2_pos, pow2};
use vstd::prelude::*;

use crate::binary32::Binary32;
use crate::binary32_error;
use crate::binary32_laws;
use crate::cpu_stutter_guard;
use crate::cpu_stutter_guard::FrameBudgetSplit;
use crate::render_budget;

verus! {

/// A product of a number of up to `m` with a weight of some tenths.
proof fn lemma_weighted(weight: Binary32, k: int, x: Binary32, m: int)
    requires
        weight.finite(),
        1 <= k <= 8,
        1 <= m <= 0x2000,
        0x8_0000 * binary32_error::distance(
            10 * weight.units() - k * Binary32::units_in_one(),
        ) <= 8 * Binary32::units_in_one(),
        x.finite(),
        0 <= x.units() <= m * Binary32::units_in_one(),
    ensures
        weight.product(x).finite(),
        0x4_0000 * binary32_error::distance(10 * weight.product(x).units() - k * x.units()) <= 8 * (
        m * Binary32::units_in_one()),
{
    let u = Binary32::units_in_one() as int;
    let top = m * u;
    let w = weight.units();
    let v = x.units();
    let safe = binary32_error::safe_units() as int;
    lemma_pow2_pos(149);
    vstd::arithmetic::power2::lemma2_to64();
    vstd::arithmetic::power2::lemma2_to64_rest();
    vstd::arithmetic::power2::lemma_pow2_strictly_increases(60, 149);
    lemma_pow2_adds(13, 149);
    vstd::arithmetic::power2::lemma_pow2_strictly_increases(162, 259);
    let wv = w * v;
    let tu = top * u;
    assert(u <= top <= 0x2000 * u) by (nonlinear_arith)
        requires
            top == m * u,
            1 <= m <= 0x2000,
            u > 0,
    ;
    assert(0 <= wv <= tu) by (nonlinear_arith)
        requires
            wv == w * v,
            tu == top * u,
            0 <= w <= u,
            0 <= v <= top,
    {
        assert(w * v <= u * v);
        assert(u * v <= u * top);
    }
    assert(tu <= safe * u) by (nonlinear_arith)
        requires
            tu == top * u,
            top <= safe,
            u > 0,
    ;
    binary32_error::lemma_product_error(weight, x);
    let p = weight.product(x).units();
    let e = 10 * w - k * u;
    let ev = e * v;
    assert(0x8_0000 * binary32_error::distance(ev) <= 8 * tu) by {
        let d = binary32_error::distance(e);
        assert(0x8_0000 * (d * v) <= 8 * tu) by (nonlinear_arith)
            requires
                0x8_0000 * d <= 8 * u,
                0 <= d,
                0 <= v <= top,
                tu == top * u,
                u > 0,
        {
            assert((0x8_0000 * d) * v <= (8 * u) * v);
            assert((8 * u) * v <= (8 * u) * top);
        }
        binary32_error::lemma_signed_product(d, v);
        assert(d * v >= 0) by (nonlinear_arith)
            requires
                d >= 0,
                v >= 0,
        ;
    }
    let f = 10 * p - k * v;
    let fu = f * u;
    let pu = p * u;
    assert(fu == 10 * (pu - wv) + ev) by (nonlinear_arith)
        requires
            fu == f * u,
            f == 10 * p - k * v,
            pu == p * u,
            wv == w * v,
            ev == e * v,
            e == 10 * w - k * u,
    ;
    assert(0x1_0000_0000 * u <= tu) by (nonlinear_arith)
        requires
            tu == top * u,
            top >= 0x1_0000_0000,
            u > 0,
    ;
    let off = binary32_error::distance(pu - wv);
    assert(0xFF_FFFF * off <= wv + 0xFF_FFFF * u);
    assert(0x4_0000 * binary32_error::distance(fu) <= 8 * tu);
    binary32_error::lemma_scaled_distance(f, u);
    let d = binary32_error::distance(f);
    assert(0x4_0000 * d <= 8 * top) by (nonlinear_arith)
        requires
            0x4_0000 * (d * u) <= 8 * tu,
            tu == top * u,
            u > 0,
    {
        if 0x4_0000 * d > 8 * top {
            assert((0x4_0000 * d) * u > (8 * top) * u);
        }
    }
}

/// The weights.
proof fn lemma_weights()
    ensures
        ({
            let u = Binary32::units_in_one();
            let fifth = Binary32::fraction(2, 10);
            let rest = Binary32::fraction(8, 10);
            let kept = Binary32::fraction(80, 100);
            let new = Binary32::whole(1).difference(kept);
            &&& fifth.finite()
            &&& rest.finite()
            &&& kept.finite()
            &&& new.finite()
            &&& 0x8_0000 * binary32_error::distance(10 * fifth.units() - 2 * u) <= 8 * u
            &&& 0x8_0000 * binary32_error::distance(10 * rest.units() - 8 * u) <= 8 * u
            &&& 0x8_0000 * binary32_error::distance(10 * kept.units() - 8 * u) <= 8 * u
            &&& 0x8_0000 * binary32_error::distance(10 * new.units() - 2 * u) <= 8 * u
            &&& Binary32::whole(1).units() == u
            &&& Binary32::whole(1).finite()
        }),
{
    let u = Binary32::units_in_one() as int;
    let kept = Binary32::fraction(80, 100);
    vstd::arithmetic::power2::lemma2_to64();
    vstd::arithmetic::power2::lemma2_to64_rest();
    lemma_pow2_pos(149);
    vstd::arithmetic::power2::lemma_pow2_strictly_increases(60, 149);
    vstd::arithmetic::power2::lemma_pow2_strictly_increases(149, 259);
    binary32_error::lemma_fraction_error(2, 10);
    binary32_error::lemma_fraction_error(8, 10);
    binary32_error::lemma_fraction_error(80, 100);
    binary32_laws::lemma_one();
    binary32_laws::lemma_whole(1);
    binary32_laws::lemma_whole_exact(1);
    let k = kept.units();
    assert(0x10_0000 * binary32_error::distance(100 * k - 80 * u) <= 80 * u);
    binary32_error::lemma_difference_error(Binary32::whole(1), kept);
}

/// The resolution goes a fifth of the way to what a frame asks for, and not below the
/// floor.
pub proof fn law_scale_goes_a_fifth_of_the_way(
    current: Binary32,
    target: Binary32,
    floor: Binary32,
)
    requires
        current.finite(),
        target.finite(),
        floor.finite(),
        0 <= current.units() <= Binary32::units_in_one(),
        0 <= target.units() <= Binary32::units_in_one(),
    ensures
        ({
            let u = Binary32::units_in_one();
            let r = render_budget::smoothed_scale(
                current,
                Binary32::fraction(80, 100),
                target,
                floor,
            );
            let exact = 8 * current.units() + 2 * target.units();
            &&& r.finite()
            &&& floor.units() <= r.units()
            &&& 0x1_0000 * exact <= 0x1_0000 * (10 * r.units()) + 8 * u
            &&& r == floor || 0x1_0000 * binary32_error::distance(10 * r.units() - exact) <= 8 * u
        }),
{
    let u = Binary32::units_in_one() as int;
    let kept = Binary32::fraction(80, 100);
    let new = Binary32::whole(1).difference(kept);
    vstd::arithmetic::power2::lemma2_to64();
    vstd::arithmetic::power2::lemma2_to64_rest();
    lemma_pow2_pos(149);
    vstd::arithmetic::power2::lemma_pow2_strictly_increases(60, 149);
    lemma_pow2_adds(2, 149);
    vstd::arithmetic::power2::lemma_pow2_strictly_increases(151, 259);
    lemma_weights();
    lemma_weighted(kept, 8, current, 1);
    lemma_weighted(new, 2, target, 1);
    let a = kept.product(current);
    let b = new.product(target);
    binary32_error::lemma_sum_error(a, b);
    binary32_laws::lemma_order_is_by_units(a.sum(b), floor);
    binary32_laws::lemma_order_is_by_units(floor, a.sum(b));
}

/// A whole number, rounded.
proof fn lemma_whole_error(n: nat)
    requires
        0 < n <= 0xFFFF_FFFF_FFFF_FFFF,
    ensures
        Binary32::whole(n).finite(),
        !Binary32::whole(n).negative(),
        0x80_0000 * binary32_error::distance(
            Binary32::whole(n).units() - n * Binary32::units_in_one(),
        ) <= n * Binary32::units_in_one(),
{
    let u = Binary32::units_in_one();
    vstd::arithmetic::power2::lemma2_to64();
    vstd::arithmetic::power2::lemma2_to64_rest();
    lemma_pow2_pos(149);
    vstd::arithmetic::power2::lemma_pow2_strictly_increases(60, 149);
    lemma_pow2_adds(64, 149);
    vstd::arithmetic::power2::lemma_pow2_strictly_increases(213, 259);
    let nu = n * u;
    let safe = binary32_error::safe_units();
    assert(u <= nu <= 0x1_0000_0000_0000_0000 * u) by (nonlinear_arith)
        requires
            nu == n * u,
            0 < n <= 0x1_0000_0000_0000_0000,
            u > 0,
    ;
    binary32_error::lemma_nearest_error(nu, 1);
    binary32_laws::lemma_rounded(false, nu, 1);
}

/// A quotient of rounded numbers, against the quotient of the exact ones.
proof fn lemma_raw_share(a: int, b: int, r: int, c: int, n: int, u: int, m: int)
    requires
        0 <= c <= m * n,
        0 < n,
        1 <= m,
        u >= 0x1_0000_0000,
        0 <= r,
        0x80_0000 * binary32_error::distance(a - c * u) <= c * u,
        0x80_0000 * binary32_error::distance(b - n * u) <= n * u,
        0xFF_FFFF * binary32_error::distance(r * b - a * u) <= a * u + 0xFF_FFFF * b,
    ensures
        r <= 8 * (m * u),
        0x8_0000 * binary32_error::distance(n * r - c * u) <= 8 * (m * (n * u)),
{
    let nu = n * u;
    let cu = c * u;
    let be = b - nu;
    let ae = a - cu;
    let mn = m * nu;
    let big = mn * u;
    let rb = r * b;
    let au = a * u;
    let rbe = r * be;
    let aeu = ae * u;
    assert(nu > 0) by (nonlinear_arith)
        requires
            nu == n * u,
            n > 0,
            u > 0,
    ;
    assert(nu <= mn) by (nonlinear_arith)
        requires
            mn == m * nu,
            m >= 1,
            nu > 0,
    ;
    assert(0 <= cu <= mn) by (nonlinear_arith)
        requires
            cu == c * u,
            nu == n * u,
            mn == m * nu,
            0 <= c <= m * n,
            u > 0,
    {
        assert(c * u <= (m * n) * u);
        assert((m * n) * u == m * (n * u));
        assert(c * u >= 0);
    }
    assert(0 <= au <= 2 * big) by (nonlinear_arith)
        requires
            au == a * u,
            big == mn * u,
            0 <= a <= 2 * mn,
            u > 0,
    {
        assert(a * u <= (2 * mn) * u);
    }
    assert(0x1_0000_0000 * mn <= big) by (nonlinear_arith)
        requires
            big == mn * u,
            u >= 0x1_0000_0000,
            mn >= 0,
    ;
    // The quotient is not much more than `m`.
    let mu = m * u;
    assert(big == nu * mu) by (nonlinear_arith)
        requires
            big == mn * u,
            mn == m * nu,
            mu == m * u,
    ;
    assert(mu > 0) by (nonlinear_arith)
        requires
            mu == m * u,
            m >= 1,
            u > 0,
    ;
    assert(rb <= 4 * big);
    assert(r <= 8 * mu) by (nonlinear_arith)
        requires
            rb == r * b,
            rb <= 4 * big,
            big == nu * mu,
            2 * b >= nu,
            nu > 0,
            r >= 0,
            mu > 0,
    {
        if r > 8 * mu {
            assert(r * (2 * b) >= r * nu);
            assert(r * nu > (8 * mu) * nu);
        }
    }
    let bd = binary32_error::distance(be);
    let ad = binary32_error::distance(ae);
    assert(0x80_0000 * (r * bd) <= 8 * big) by (nonlinear_arith)
        requires
            0x80_0000 * bd <= nu,
            0 <= r <= 8 * mu,
            big == nu * mu,
            bd >= 0,
            nu > 0,
    {
        assert(r * (0x80_0000 * bd) <= r * nu);
        assert(r * nu <= (8 * mu) * nu);
    }
    assert(0x80_0000 * (ad * u) <= big) by (nonlinear_arith)
        requires
            0x80_0000 * ad <= mn,
            u > 0,
            big == mn * u,
    {
        assert((0x80_0000 * ad) * u <= mn * u);
    }
    binary32_error::lemma_scaled_distance(ae, u);
    assert(binary32_error::distance(rbe) <= r * bd) by {
        binary32_error::lemma_signed_product(r, bd);
        assert(r * bd >= 0) by (nonlinear_arith)
            requires
                r >= 0,
                bd >= 0,
        ;
    }
    let f = n * r - cu;
    let fu = f * u;
    assert(fu == (rb - au) - rbe + aeu) by (nonlinear_arith)
        requires
            fu == f * u,
            f == n * r - cu,
            rb == r * b,
            au == a * u,
            rbe == r * be,
            aeu == ae * u,
            be == b - nu,
            ae == a - cu,
            nu == n * u,
    ;
    assert(b <= 2 * nu);
    assert(0x8_0000 * binary32_error::distance(fu) <= 8 * big);
    binary32_error::lemma_scaled_distance(f, u);
    let d = binary32_error::distance(f);
    assert(0x8_0000 * d <= 8 * mn) by (nonlinear_arith)
        requires
            0x8_0000 * (d * u) <= 8 * big,
            big == mn * u,
            u > 0,
    {
        if 0x8_0000 * d > 8 * mn {
            assert((0x8_0000 * d) * u > (8 * mn) * u);
        }
    }
}

/// The share of CPU time of a frame, as it is computed.
proof fn lemma_raw_quotient(cpu_ns: nat, total_ns: nat, m: int)
    requires
        0 < total_ns <= 0xFFFF_FFFF_FFFF_FFFF,
        cpu_ns <= 0xFFFF_FFFF_FFFF_FFFF,
        1 <= m <= 0x400,
        cpu_ns <= m * total_ns,
    ensures
        ({
            let u = Binary32::units_in_one();
            let raw = Binary32::whole(cpu_ns).quotient(Binary32::whole(total_ns));
            &&& raw.finite()
            &&& 0 <= raw.units() <= 8 * (m * u)
            &&& 0x8_0000 * binary32_error::distance(total_ns * raw.units() - cpu_ns * u) <= 8 * (m
                * (total_ns * u))
        }),
{
    let u = Binary32::units_in_one() as int;
    let a = Binary32::whole(cpu_ns);
    let b = Binary32::whole(total_ns);
    let raw = a.quotient(b);
    let safe = binary32_error::safe_units() as int;
    vstd::arithmetic::power2::lemma2_to64();
    vstd::arithmetic::power2::lemma2_to64_rest();
    lemma_pow2_pos(149);
    vstd::arithmetic::power2::lemma_pow2_strictly_increases(60, 149);
    lemma_pow2_adds(64, 149);
    lemma_pow2_adds(2, 213);
    vstd::arithmetic::power2::lemma_pow2_strictly_increases(215, 259);
    binary32_laws::lemma_whole(cpu_ns);
    binary32_laws::lemma_whole(total_ns);
    lemma_whole_error(total_ns);
    if cpu_ns > 0 {
        lemma_whole_error(cpu_ns);
    } else {
        binary32_laws::lemma_whole_exact(0);
        assert(0 * u == 0);
    }
    let nu = total_ns * u;
    let cu = cpu_ns * u;
    assert(nu >= u) by (nonlinear_arith)
        requires
            nu == total_ns * u,
            total_ns >= 1,
            u > 0,
    ;
    assert(0 <= cu <= 0x1_0000_0000_0000_0000 * u) by (nonlinear_arith)
        requires
            cu == cpu_ns * u,
            0 <= cpu_ns <= 0x1_0000_0000_0000_0000,
            u > 0,
    ;
    binary32_laws::lemma_order_is_by_units(b, b);
    let au = a.units();
    let bu = b.units();
    assert(0 <= au <= safe);
    assert(2 * bu >= u);
    assert(au * u <= safe * bu) by (nonlinear_arith)
        requires
            0 <= 2 * au <= safe,
            2 * bu >= u,
            u > 0,
            safe > 0,
    {
        assert((2 * au) * u <= safe * u);
        assert(safe * u <= safe * (2 * bu));
    }
    binary32_error::lemma_quotient_error(a, b);
    binary32_laws::lemma_signs(a, b);
    lemma_raw_share(au, bu, raw.units(), cpu_ns as int, total_ns as int, u, m);
}

/// The share of CPU time is a fifth of the share of this frame and four fifths of what
/// it was; it counts as CPU-bound above seven tenths. A CPU time longer than the frame
/// counts in full, up to `m` times the frame.
pub proof fn law_share_is_smoothed(before: Binary32, cpu_ns: u64, total_ns: u64, m: int)
    requires
        0 < total_ns,
        1 <= m <= 0x400,
        cpu_ns <= m * total_ns,
        before.finite(),
        0 <= before.units() <= m * Binary32::units_in_one(),
    ensures
        ({
            let u = Binary32::units_in_one();
            let share = cpu_stutter_guard::smoothed_share(before, cpu_ns, total_ns);
            &&& share.finite()
            &&& 0x1_0000 * binary32_error::distance(
                10 * (total_ns * share.units()) - (2 * (cpu_ns * u) + 8 * (total_ns
                    * before.units())),
            ) <= 64 * (m * (total_ns * u))
            &&& 10_000 * share.units() > 7_001 * u ==> cpu_stutter_guard::is_cpu_bound(share)
            &&& 10_000 * share.units() < 6_999 * u ==> !cpu_stutter_guard::is_cpu_bound(share)
        }),
{
    let u = Binary32::units_in_one() as int;
    let n = total_ns as int;
    let raw = Binary32::whole(cpu_ns as nat).quotient(Binary32::whole(total_ns as nat));
    vstd::arithmetic::power2::lemma2_to64();
    vstd::arithmetic::power2::lemma2_to64_rest();
    lemma_pow2_pos(149);
    vstd::arithmetic::power2::lemma_pow2_strictly_increases(60, 149);
    lemma_pow2_adds(20, 149);
    vstd::arithmetic::power2::lemma_pow2_strictly_increases(169, 259);
    lemma_raw_quotient(cpu_ns as nat, total_ns as nat, m);
    lemma_weights();
    let mu = m * u;
    let wide = 8 * m;
    assert(wide * u == 8 * mu) by (nonlinear_arith)
        requires
            wide == 8 * m,
            mu == m * u,
    ;
    assert(u <= mu <= 0x400 * u) by (nonlinear_arith)
        requires
            mu == m * u,
            1 <= m <= 0x400,
            u > 0,
    ;
    let part = Binary32::fraction(2, 10);
    let rest = Binary32::fraction(8, 10);
    lemma_weighted(part, 2, raw, wide);
    lemma_weighted(rest, 8, before, m);
    let x = part.product(raw);
    let y = rest.product(before);
    binary32_error::lemma_sum_error(x, y);
    let s = x.sum(y).units();
    let r = raw.units();
    let w = before.units();
    let e = 10 * s - 2 * r - 8 * w;
    assert(0x1_0000 * binary32_error::distance(e) <= 32 * mu);
    let d = binary32_error::distance(e);
    let ne = n * e;
    let nd = n * d;
    let nm = n * mu;
    assert(0x1_0000 * nd <= 32 * nm) by (nonlinear_arith)
        requires
            0x1_0000 * d <= 32 * mu,
            nd == n * d,
            nm == n * mu,
            n >= 0,
    {
        assert(n * (0x1_0000 * d) <= n * (32 * mu));
    }
    assert(nm == m * (n * u)) by (nonlinear_arith)
        requires
            nm == n * mu,
            mu == m * u,
    ;
    assert(nm >= 0) by (nonlinear_arith)
        requires
            nm == n * mu,
            n >= 0,
            mu >= 0,
    ;
    assert(binary32_error::distance(ne) == nd) by {
        assert(ne == e * n) by (nonlinear_arith)
            requires
                ne == n * e,
        ;
        assert(nd == d * n) by (nonlinear_arith)
            requires
                nd == n * d,
        ;
        binary32_error::lemma_scaled_distance(e, n);
    }
    let ns = n * s;
    let nr = n * r;
    let nw = n * w;
    assert(ne == 10 * ns - 2 * nr - 8 * nw) by (nonlinear_arith)
        requires
            ne == n * e,
            e == 10 * s - 2 * r - 8 * w,
            ns == n * s,
            nr == n * r,
            nw == n * w,
    ;
    binary32_error::lemma_fraction_error(70, 100);
    binary32_laws::lemma_order_is_by_units(Binary32::fraction(70, 100), x.sum(y));
    binary32_laws::lemma_order_is_by_units(x.sum(y), Binary32::fraction(70, 100));
}

/// A frame without duration changes nothing; after any other the share that is reported
/// is the smoothed one, and the frame counts as CPU-bound by it.
pub proof fn law_split_reports_the_share(
    split: FrameBudgetSplit,
    before: FrameBudgetSplit,
    cpu_ns: u64,
    total_ns: u64,
)
    requires
        split.follows(before, cpu_ns, total_ns),
    ensures
        total_ns == 0 ==> split == before,
        total_ns > 0 ==> {
            let share = cpu_stutter_guard::smoothed_share(before.average(), cpu_ns, total_ns);
            &&& split.average() == share
            &&& split.fraction() == share
            &&& split.bound() == cpu_stutter_guard::is_cpu_bound(share)
        },
{
}

} // verus!
