//! IEEE 754 binary32 numbers, held by their bits.
//!
//! Arithmetic rounds to the nearest number, ties to even. What each operation
//! gives is stated by a spec method over the exact result, so that contracts
//! elsewhere can speak of rounded formulas exactly.

use vstd::arithmetic::power2::{lemma_pow2_adds, lemma_pow2_pos, lemma_pow2_unfold, pow2};
use vstd::prelude::*;

use crate::rounding;
use crate::rounding::INFINITY_CODE;

verus! {

/// A binary32 number: sign, exponent and fraction in 32 bits.
#[derive(Clone, Copy, Debug)]
pub struct Binary32 {
    pub bits: u32,
}

impl Default for Binary32 {
    /// Zero.
    fn default() -> (r: Binary32)
        ensures
            r == Binary32::nil(),
    {
        Binary32 { bits: 0 }
    }
}

/// What a number is.
impl Binary32 {
    /// Positive zero.
    pub open spec fn nil() -> Binary32 {
        Binary32 { bits: 0 }
    }

    /// Whether the sign bit is set.
    pub open spec fn negative(self) -> bool {
        self.bits >= 0x8000_0000
    }

    /// The bits without the sign.
    pub open spec fn code(self) -> int {
        self.bits as int % 0x8000_0000
    }

    /// Whether this is no number at all.
    pub open spec fn nan(self) -> bool {
        self.code() > INFINITY_CODE
    }

    /// Whether this is an infinity.
    pub open spec fn infinite(self) -> bool {
        self.code() == INFINITY_CODE
    }

    /// Whether this is a number other than an infinity.
    pub open spec fn finite(self) -> bool {
        self.code() < INFINITY_CODE
    }

    /// Whether this is a zero, of either sign.
    pub open spec fn zero(self) -> bool {
        self.code() == 0
    }

    /// An integer that orders the numbers: both zeros have 0.
    pub open spec fn key(self) -> int {
        if self.negative() {
            -self.code()
        } else {
            self.code()
        }
    }

    /// The distance of a finite number from zero, in units of the smallest
    /// positive number.
    pub open spec fn size(self) -> nat {
        rounding::magnitude(self.code())
    }

    /// A finite number, in units of the smallest positive number.
    pub open spec fn units(self) -> int {
        if self.negative() {
            -(self.size() as int)
        } else {
            self.size() as int
        }
    }

    /// The number of units in one.
    pub open spec fn units_in_one() -> nat {
        pow2(149)
    }

    /// The number with this sign and code.
    pub open spec fn signed(negative: bool, code: int) -> Binary32 {
        if negative {
            Binary32 { bits: (code + 0x8000_0000) as u32 }
        } else {
            Binary32 { bits: code as u32 }
        }
    }

    /// `n / d` units, rounded, with a sign.
    pub open spec fn rounded(negative: bool, n: nat, d: nat) -> Binary32 {
        Self::signed(negative, rounding::nearest(n, d))
    }

    /// The result of an invalid operation.
    pub open spec fn invalid() -> Binary32 {
        Binary32 { bits: 0x7FC0_0000 }
    }

    /// The number nearest to `n / d`: what the decimal literal of that fraction
    /// means.
    pub open spec fn fraction(n: nat, d: nat) -> Binary32 {
        Self::rounded(false, n * Self::units_in_one(), d)
    }

    /// The number nearest to a natural number.
    pub open spec fn whole(n: nat) -> Binary32 {
        Self::fraction(n, 1)
    }
}

/// What the operations give.
impl Binary32 {
    /// `self + other`, rounded.
    #[verifier::opaque]
    pub open spec fn sum(self, other: Binary32) -> Binary32 {
        if self.nan() || other.nan() || (self.infinite() && other.infinite() && self.negative()
            != other.negative()) {
            Self::invalid()
        } else if self.infinite() {
            self
        } else if other.infinite() {
            other
        } else {
            let total = self.units() + other.units();
            if total == 0 {
                Self::signed(self.negative() && other.negative(), 0)
            } else if total < 0 {
                Self::rounded(true, (-total) as nat, 1)
            } else {
                Self::rounded(false, total as nat, 1)
            }
        }
    }

    /// The number with the other sign.
    pub open spec fn opposite(self) -> Binary32 {
        Self::signed(!self.negative(), self.code())
    }

    /// The number without its sign.
    pub open spec fn absolute(self) -> Binary32 {
        Self::signed(false, self.code())
    }

    /// `self - other`, rounded.
    pub open spec fn difference(self, other: Binary32) -> Binary32 {
        self.sum(other.opposite())
    }

    /// `self * other`, rounded.
    #[verifier::opaque]
    pub open spec fn product(self, other: Binary32) -> Binary32 {
        let negative = self.negative() != other.negative();
        if self.nan() || other.nan() || (self.infinite() && other.zero()) || (self.zero()
            && other.infinite()) {
            Self::invalid()
        } else if self.infinite() || other.infinite() {
            Self::signed(negative, INFINITY_CODE as int)
        } else {
            Self::rounded(negative, self.size() * other.size(), Self::units_in_one())
        }
    }

    /// `self / other`, rounded.
    #[verifier::opaque]
    pub open spec fn quotient(self, other: Binary32) -> Binary32 {
        let negative = self.negative() != other.negative();
        if self.nan() || other.nan() || (self.infinite() && other.infinite()) || (self.zero()
            && other.zero()) {
            Self::invalid()
        } else if self.infinite() || other.zero() {
            Self::signed(negative, INFINITY_CODE as int)
        } else if other.infinite() {
            Self::signed(negative, 0)
        } else {
            Self::rounded(negative, self.size() * Self::units_in_one(), other.size())
        }
    }

    /// `self < other`: false where either is not a number.
    pub open spec fn below(self, other: Binary32) -> bool {
        !self.nan() && !other.nan() && self.key() < other.key()
    }

    /// `self <= other`: false where either is not a number.
    pub open spec fn at_most(self, other: Binary32) -> bool {
        !self.nan() && !other.nan() && self.key() <= other.key()
    }

    /// The larger of the two; the other one where one is not a number.
    pub open spec fn larger(self, other: Binary32) -> Binary32 {
        if self.nan() || self.below(other) {
            other
        } else {
            self
        }
    }

    /// The smaller of the two; the other one where one is not a number.
    pub open spec fn smaller(self, other: Binary32) -> Binary32 {
        if self.nan() || other.below(self) {
            other
        } else {
            self
        }
    }

    /// The number moved into the range from `low` to `high`; what is not a number
    /// stays.
    pub open spec fn clamped(self, low: Binary32, high: Binary32) -> Binary32 {
        if self.below(low) {
            low
        } else if high.below(self) {
            high
        } else {
            self
        }
    }

    /// The whole part, moved into the range from 0 to `limit`; 0 for what is not a
    /// number.
    #[verifier::opaque]
    pub open spec fn truncated(self, limit: nat) -> nat {
        if self.nan() || self.negative() {
            0
        } else if self.infinite() || self.size() / Self::units_in_one() > limit {
            limit
        } else {
            self.size() / Self::units_in_one()
        }
    }
}

/// The significand and the exponent of a finite number.
fn parts(code: u32) -> (r: (u32, u32))
    requires
        code < INFINITY_CODE,
    ensures
        rounding::magnitude(code as int) == r.0 * pow2(r.1 as nat),
        r.0 < 0x100_0000,
        r.1 <= 253,
        r.1 > 0 ==> r.0 >= 0x80_0000,
        r.0 == 0 <==> code == 0,
{
    if code < 0x80_0000 {
        proof {
            rounding::lemma_magnitude_of_parts(code as int, 0);
        }
        (code, 0)
    } else {
        (0x80_0000 + code % 0x80_0000, code / 0x80_0000 - 1)
    }
}

proof fn lemma_small_power(e: nat)
    requires
        e <= 80,
    ensures
        0 < pow2(e) <= 0x1_0000_0000_0000_0000_0000,
{
    lemma_pow2_pos(e);
    lemma_pow2_adds(64, 16);
    vstd::arithmetic::power2::lemma2_to64();
    vstd::arithmetic::power2::lemma2_to64_rest();
    if e < 80 {
        vstd::arithmetic::power2::lemma_pow2_strictly_increases(e, 80);
    }
}

/// `m * 2^d`.
fn shifted(m: u32, d: u32) -> (r: u128)
    requires
        d <= 80,
    ensures
        r == m * pow2(d as nat),
        r <= m * 0x1_0000_0000_0000_0000_0000u128,
{
    let mut r: u128 = m as u128;
    let mut i: u32 = 0;
    proof {
        vstd::arithmetic::power2::lemma2_to64();
    }
    while i < d
        invariant
            i <= d <= 80,
            r == m * pow2(i as nat),
        decreases d - i,
    {
        proof {
            lemma_pow2_unfold((i + 1) as nat);
            lemma_small_power(i as nat);
            let p = pow2(i as nat);
            assert(m * (2 * p) == 2 * (m * p)) by (nonlinear_arith);
            assert(m * p <= 0x1_0000_0000 * 0x1_0000_0000_0000_0000_0000) by (nonlinear_arith)
                requires
                    0 <= m < 0x1_0000_0000,
                    0 <= p <= 0x1_0000_0000_0000_0000_0000,
            ;
        }
        r = 2 * r;
        i = i + 1;
    }
    proof {
        lemma_small_power(d as nat);
        let p = pow2(d as nat);
        assert(m * p <= m * 0x1_0000_0000_0000_0000_0000) by (nonlinear_arith)
            requires
                0 <= m,
                0 <= p <= 0x1_0000_0000_0000_0000_0000,
        ;
    }
    r
}

/// A whole number of units, as a significand and an exponent.
proof fn lemma_brackets_units(m: nat, e: nat, n: nat)
    requires
        n == m * pow2(e),
    ensures
        rounding::brackets(m, e + 300, false, n, 1),
{
    lemma_pow2_adds(e, 300);
    let p = pow2(e);
    let s = pow2(300);
    assert((m * p) * s == m * ((p * s) * 1)) by (nonlinear_arith);
}

/// The sum where the smaller number only makes the larger one inexact.
proof fn lemma_brackets_far(ma: nat, ea: nat, mb: nat, eb: nat)
    requires
        ea > eb + 60,
        ma >= 1,
        0 < mb < 0x100_0000,
    ensures
        rounding::brackets(8 * ma, (ea + 297) as nat, true, ma * pow2(ea) + mb * pow2(eb), 1),
        ma * pow2(ea) > mb * pow2(eb),
        rounding::brackets(
            (8 * ma - 1) as nat,
            (ea + 297) as nat,
            true,
            (ma * pow2(ea) - mb * pow2(eb)) as nat,
            1,
        ),
{
    let q = pow2((ea - 3) as nat);
    let f = pow2((ea - 3 - eb) as nat);
    let p = pow2(eb);
    let s = pow2(300);
    lemma_pow2_adds((ea - 3) as nat, 300);
    lemma_pow2_adds((ea - 3) as nat, 3);
    lemma_pow2_adds((ea - 3 - eb) as nat, eb);
    lemma_pow2_adds((ea - 3 - eb - 24) as nat, 24);
    lemma_pow2_pos((ea - 3 - eb - 24) as nat);
    lemma_pow2_pos(eb);
    lemma_pow2_pos(300);
    vstd::arithmetic::power2::lemma2_to64();
    let small = mb * p;
    let big = ma * pow2(ea);
    assert(pow2(ea) == 8 * q);
    assert(f >= 0x100_0000) by (nonlinear_arith)
        requires
            f == pow2((ea - 3 - eb - 24) as nat) * 0x100_0000,
            pow2((ea - 3 - eb - 24) as nat) >= 1,
    ;
    assert(0 < small < q) by (nonlinear_arith)
        requires
            small == mb * p,
            q == f * p,
            0 < mb < 0x100_0000,
            f >= 0x100_0000,
            p >= 1,
    ;
    assert(big == (8 * ma) * q) by (nonlinear_arith)
        requires
            big == ma * pow2(ea),
            pow2(ea) == 8 * q,
    ;
    assert((8 * ma - 1) * q == big - q) by (nonlinear_arith)
        requires
            big == (8 * ma) * q,
    ;
    assert(big >= q) by (nonlinear_arith)
        requires
            big == (8 * ma) * q,
            ma >= 1,
    ;
    assert(pow2((ea + 297) as nat) == q * s);
    assert((8 * ma) * ((q * s) * 1) == big * s) by (nonlinear_arith)
        requires
            big == (8 * ma) * q,
    ;
    assert((8 * ma - 1) * ((q * s) * 1) == (big - q) * s) by (nonlinear_arith)
        requires
            (8 * ma - 1) * q == big - q,
    ;
    assert(big * s < (big + small) * s < big * s + q * s) by (nonlinear_arith)
        requires
            0 < small < q,
            s > 0,
    ;
    assert((big - q) * s < (big - small) * s < (big - q) * s + q * s) by (nonlinear_arith)
        requires
            0 < small < q,
            s > 0,
    ;
}

/// The sum of two finite numbers, the one with the larger exponent first, as a
/// sign and the distance from zero.
fn add_parts(a_negative: bool, ma: u32, ea: u32, b_negative: bool, mb: u32, eb: u32) -> (r: (
    bool,
    u32,
))
    requires
        ma < 0x100_0000,
        mb < 0x100_0000,
        eb <= ea <= 253,
        ea > 0 ==> ma >= 0x80_0000,
    ensures
        ({
            let a = if a_negative {
                -(ma * pow2(ea as nat))
            } else {
                ma * pow2(ea as nat)
            };
            let b = if b_negative {
                -(mb * pow2(eb as nat))
            } else {
                mb * pow2(eb as nat)
            };
            &&& r.1 <= INFINITY_CODE
            &&& a + b > 0 ==> r == (false, rounding::nearest((a + b) as nat, 1) as u32)
            &&& a + b < 0 ==> r == (true, rounding::nearest(-(a + b) as nat, 1) as u32)
            &&& a + b == 0 ==> r == (a_negative && b_negative, 0u32)
            &&& a + b != 0 ==> 0 <= rounding::nearest(
                (if a + b > 0 {
                    a + b
                } else {
                    -(a + b)
                }) as nat,
                1,
            ) <= INFINITY_CODE
        }),
{
    let ghost big = ma * pow2(ea as nat);
    let ghost small = mb * pow2(eb as nat);
    let d: u32 = ea - eb;
    proof {
        lemma_pow2_pos(ea as nat);
        lemma_pow2_pos(eb as nat);
    }
    if d <= 64 {
        let am: u128 = shifted(ma, d);
        let bm: u128 = mb as u128;
        proof {
            lemma_pow2_adds(d as nat, eb as nat);
            let p = pow2(eb as nat);
            let s = pow2(d as nat);
            assert(ma * (s * p) == (ma * s) * p) by (nonlinear_arith);
            assert(big == am * p);
            assert((am + bm) * p == am * p + bm * p) by (nonlinear_arith);
            assert((am - bm) * p == am * p - bm * p) by (nonlinear_arith);
            assert((bm - am) * p == bm * p - am * p) by (nonlinear_arith);
            assert(am > bm ==> (am - bm) * p > 0) by (nonlinear_arith)
                requires
                    p > 0,
            ;
            assert(bm > am ==> (bm - am) * p > 0) by (nonlinear_arith)
                requires
                    p > 0,
            ;
            assert(am + bm > 0 ==> (am + bm) * p > 0) by (nonlinear_arith)
                requires
                    p > 0,
            ;
        }
        if a_negative == b_negative {
            let m: u128 = am + bm;
            if m == 0 {
                return (a_negative, 0);
            }
            proof {
                lemma_brackets_units(m as nat, eb as nat, (big + small) as nat);
            }
            (a_negative, rounding::pack(m, eb + 300, false, Ghost((big + small) as nat), Ghost(1)))
        } else if am == bm {
            (false, 0)
        } else if am > bm {
            let m: u128 = am - bm;
            proof {
                lemma_brackets_units(m as nat, eb as nat, (big - small) as nat);
            }
            (a_negative, rounding::pack(m, eb + 300, false, Ghost((big - small) as nat), Ghost(1)))
        } else {
            let m: u128 = bm - am;
            proof {
                lemma_brackets_units(m as nat, eb as nat, (small - big) as nat);
            }
            (b_negative, rounding::pack(m, eb + 300, false, Ghost((small - big) as nat), Ghost(1)))
        }
    } else if mb == 0 {
        proof {
            lemma_brackets_units(ma as nat, ea as nat, big as nat);
            let p = pow2(ea as nat);
            assert(big > 0) by (nonlinear_arith)
                requires
                    big == ma * p,
                    ma > 0,
                    p > 0,
            ;
        }
        (a_negative, rounding::pack(ma as u128, ea + 300, false, Ghost(big as nat), Ghost(1)))
    } else {
        proof {
            lemma_brackets_far(ma as nat, ea as nat, mb as nat, eb as nat);
            let p = pow2(eb as nat);
            assert(small > 0) by (nonlinear_arith)
                requires
                    small == mb * p,
                    mb > 0,
                    p > 0,
            ;
        }
        if a_negative == b_negative {
            let m: u128 = 8 * (ma as u128);
            (a_negative, rounding::pack(m, ea + 297, true, Ghost((big + small) as nat), Ghost(1)))
        } else {
            let m: u128 = 8 * (ma as u128) - 1;
            (a_negative, rounding::pack(m, ea + 297, true, Ghost((big - small) as nat), Ghost(1)))
        }
    }
}

/// The product of two finite numbers, as a significand and an exponent.
proof fn lemma_brackets_product(ma: nat, ea: nat, mb: nat, eb: nat)
    ensures
        rounding::brackets(
            ma * mb,
            (ea + eb + 151) as nat,
            false,
            (ma * pow2(ea)) * (mb * pow2(eb)),
            pow2(149),
        ),
{
    let a = pow2(ea);
    let b = pow2(eb);
    let u = pow2(149);
    let s = pow2(300);
    let t = pow2((ea + eb + 151) as nat);
    lemma_pow2_adds(ea, eb);
    lemma_pow2_adds((ea + eb + 151) as nat, 149);
    lemma_pow2_adds(ea + eb, 300);
    assert(t * u == (a * b) * s);
    assert(((ma * a) * (mb * b)) * s == (ma * mb) * ((a * b) * s)) by (nonlinear_arith);
}

/// The quotient of two finite numbers, as a significand and an exponent.
proof fn lemma_brackets_quotient(ma: nat, ea: nat, mb: nat, eb: nat)
    requires
        mb > 0,
        eb <= 253,
    ensures
        mb * pow2(eb) > 0,
        rounding::brackets(
            (ma * 0x4_0000_0000_0000) / mb,
            (ea + 399 - eb) as nat,
            (ma * 0x4_0000_0000_0000) % mb != 0,
            (ma * pow2(ea)) * pow2(149),
            mb * pow2(eb),
        ),
{
    let big = ma * 0x4_0000_0000_0000;
    let m = big / mb;
    let r = big % mb;
    let a = pow2(ea);
    let b = pow2(eb);
    let u = pow2(149);
    let s = pow2(300);
    let x = pow2((ea + 399 - eb) as nat);
    let w = pow2((ea + 399) as nat);
    lemma_pow2_pos(eb);
    lemma_pow2_pos((ea + 399) as nat);
    lemma_pow2_adds((ea + 399 - eb) as nat, eb);
    lemma_pow2_adds(ea, 149);
    lemma_pow2_adds(ea + 149, 300);
    lemma_pow2_adds((ea + 399) as nat, 50);
    vstd::arithmetic::power2::lemma2_to64_rest();
    assert(mb * b > 0) by (nonlinear_arith)
        requires
            mb > 0,
            b > 0,
    ;
    vstd::arithmetic::div_mod::lemma_fundamental_div_mod(big as int, mb as int);
    assert(x * (mb * b) == mb * w) by (nonlinear_arith)
        requires
            x * b == w,
    ;
    assert(w * 0x4_0000_0000_0000 == (a * u) * s);
    assert(((ma * a) * u) * s == big * w) by (nonlinear_arith)
        requires
            big == ma * 0x4_0000_0000_0000,
            w * 0x4_0000_0000_0000 == (a * u) * s,
    ;
    assert(big * w == m * (mb * w) + r * w) by (nonlinear_arith)
        requires
            big == mb * m + r,
    ;
    assert(r * w < mb * w) by (nonlinear_arith)
        requires
            r < mb,
            w > 0,
    ;
    assert(r > 0 ==> r * w > 0) by (nonlinear_arith)
        requires
            w > 0,
    ;
}

/// A fraction of two natural numbers, as a significand and an exponent.
proof fn lemma_brackets_ratio(n: nat, d: nat)
    requires
        d > 0,
    ensures
        rounding::brackets(
            (n * 0x1000_0000_0000_0000) / d,
            389,
            (n * 0x1000_0000_0000_0000) % d != 0,
            n * pow2(149),
            d,
        ),
{
    let big = n * 0x1000_0000_0000_0000;
    let m = big / d;
    let r = big % d;
    let w = pow2(389);
    lemma_pow2_pos(389);
    lemma_pow2_adds(149, 300);
    lemma_pow2_adds(389, 60);
    vstd::arithmetic::power2::lemma2_to64_rest();
    vstd::arithmetic::div_mod::lemma_fundamental_div_mod(big as int, d as int);
    assert((n * pow2(149)) * pow2(300) == big * w) by (nonlinear_arith)
        requires
            big == n * 0x1000_0000_0000_0000,
            pow2(149) * pow2(300) == w * 0x1000_0000_0000_0000,
    ;
    assert(big * w == m * (w * d) + r * w) by (nonlinear_arith)
        requires
            big == d * m + r,
    ;
    assert(r * w < w * d) by (nonlinear_arith)
        requires
            r < d,
            w > 0,
    ;
    assert(r > 0 ==> r * w > 0) by (nonlinear_arith)
        requires
            w > 0,
    ;
}

/// Dividing out a common power of two leaves the whole part.
proof fn lemma_whole_part(m: nat, e: nat, k: nat)
    requires
        e + k == 149,
    ensures
        (m * pow2(e)) / pow2(149) == m / pow2(k),
{
    let p = pow2(e);
    let q = pow2(k);
    let r = m / q;
    lemma_pow2_adds(e, k);
    lemma_pow2_pos(e);
    lemma_pow2_pos(k);
    vstd::arithmetic::div_mod::lemma_fundamental_div_mod(m as int, q as int);
    let rest = m % q;
    assert(m * p == r * (p * q) + rest * p) by (nonlinear_arith)
        requires
            m == q * r + rest,
    ;
    assert(0 <= rest * p < p * q) by (nonlinear_arith)
        requires
            0 <= rest < q,
            p > 0,
    ;
    vstd::arithmetic::div_mod::lemma_fundamental_div_mod_converse(
        (m * p) as int,
        (p * q) as int,
        r as int,
        (rest * p) as int,
    );
}

proof fn lemma_whole_part_up(m: nat, e: nat)
    requires
        e >= 149,
    ensures
        (m * pow2(e)) / pow2(149) == m * pow2((e - 149) as nat),
{
    lemma_pow2_adds((e - 149) as nat, 149);
    lemma_pow2_pos(149);
    let p = pow2((e - 149) as nat);
    let u = pow2(149);
    assert(m * (p * u) == u * (m * p)) by (nonlinear_arith);
    vstd::arithmetic::div_mod::lemma_fundamental_div_mod_converse(
        (m * pow2(e)) as int,
        u as int,
        (m * p) as int,
        0,
    );
}

impl Binary32 {
    /// The number with these bits.
    pub fn from_bits(bits: u32) -> (r: Binary32)
        ensures
            r == (Binary32 { bits }),
    {
        Binary32 { bits }
    }

    /// The bits of the number.
    pub fn to_bits(self) -> (bits: u32)
        ensures
            bits == self.bits,
    {
        self.bits
    }

    fn with_sign(negative: bool, code: u32) -> (r: Binary32)
        requires
            code < 0x8000_0000,
        ensures
            r == Binary32::signed(negative, code as int),
            r.negative() == negative,
            r.code() == code,
    {
        if negative {
            Binary32 { bits: code + 0x8000_0000 }
        } else {
            Binary32 { bits: code }
        }
    }

    /// The number nearest to `n / d`.
    pub fn from_ratio(n: u32, d: u32) -> (r: Binary32)
        requires
            d > 0,
        ensures
            r == Binary32::fraction(n as nat, d as nat),
    {
        let big: u128 = (n as u128) * 0x1000_0000_0000_0000;
        let divisor: u128 = d as u128;
        let m: u128 = big / divisor;
        proof {
            lemma_brackets_ratio(n as nat, d as nat);
            if n > 0 {
                assert(m >= 0x1000_0000) by (nonlinear_arith)
                    requires
                        m == big as int / divisor as int,
                        big >= 0x1000_0000_0000_0000,
                        0 < divisor < 0x1_0000_0000,
                ;
            } else {
                vstd::arithmetic::div_mod::lemma_small_mod(0, d as nat);
            }
        }
        let code: u32 = rounding::pack(
            m,
            389,
            big % divisor != 0,
            Ghost((n as nat) * pow2(149)),
            Ghost(d as nat),
        );
        Binary32::with_sign(false, code)
    }

    /// The number nearest to `n`.
    pub fn from_u64(n: u64) -> (r: Binary32)
        ensures
            r == Binary32::whole(n as nat),
    {
        proof {
            lemma_pow2_adds(149, 300);
            let u = pow2(149);
            let s = pow2(300);
            assert((n * u) * s == n * ((u * s) * 1)) by (nonlinear_arith);
        }
        let code: u32 = rounding::pack(
            n as u128,
            449,
            false,
            Ghost((n as nat) * pow2(149)),
            Ghost(1),
        );
        Binary32::with_sign(false, code)
    }

    /// The number nearest to `n`.
    pub fn from_u32(n: u32) -> (r: Binary32)
        ensures
            r == Binary32::whole(n as nat),
    {
        Binary32::from_u64(n as u64)
    }

    /// Whether this is no number at all.
    pub fn is_nan(self) -> (r: bool)
        ensures
            r == self.nan(),
    {
        self.bits % 0x8000_0000 > INFINITY_CODE
    }

    fn ordering_key(self) -> (r: i64)
        ensures
            r == self.key(),
    {
        let code: i64 = (self.bits % 0x8000_0000) as i64;
        if self.bits >= 0x8000_0000 {
            -code
        } else {
            code
        }
    }

    /// `self < other`.
    pub fn is_below(self, other: Binary32) -> (r: bool)
        ensures
            r == self.below(other),
    {
        !self.is_nan() && !other.is_nan() && self.ordering_key() < other.ordering_key()
    }

    /// `self > other`.
    pub fn is_above(self, other: Binary32) -> (r: bool)
        ensures
            r == other.below(self),
    {
        other.is_below(self)
    }

    /// `self <= other`.
    pub fn is_at_most(self, other: Binary32) -> (r: bool)
        ensures
            r == self.at_most(other),
    {
        !self.is_nan() && !other.is_nan() && self.ordering_key() <= other.ordering_key()
    }

    /// The larger of the two; the other one where one is not a number.
    pub fn max(self, other: Binary32) -> (r: Binary32)
        ensures
            r == self.larger(other),
    {
        if self.is_nan() || self.is_below(other) {
            other
        } else {
            self
        }
    }

    /// The smaller of the two; the other one where one is not a number.
    pub fn min(self, other: Binary32) -> (r: Binary32)
        ensures
            r == self.smaller(other),
    {
        if self.is_nan() || other.is_below(self) {
            other
        } else {
            self
        }
    }

    /// The number moved into the range from `low` to `high`.
    pub fn clamp(self, low: Binary32, high: Binary32) -> (r: Binary32)
        requires
            low.at_most(high),
        ensures
            r == self.clamped(low, high),
    {
        if self.is_below(low) {
            low
        } else if self.is_above(high) {
            high
        } else {
            self
        }
    }

    /// The number without its sign.
    pub fn abs(self) -> (r: Binary32)
        ensures
            r == self.absolute(),
    {
        Binary32::with_sign(false, self.bits % 0x8000_0000)
    }

    /// The number with the other sign.
    pub fn negated(self) -> (r: Binary32)
        ensures
            r == self.opposite(),
    {
        Binary32::with_sign(self.bits < 0x8000_0000, self.bits % 0x8000_0000)
    }

    /// `self + other`, rounded.
    pub fn plus(self, other: Binary32) -> (r: Binary32)
        ensures
            r == self.sum(other),
    {
        reveal(Binary32::sum);
        let a: u32 = self.bits % 0x8000_0000;
        let b: u32 = other.bits % 0x8000_0000;
        let a_negative: bool = self.bits >= 0x8000_0000;
        let b_negative: bool = other.bits >= 0x8000_0000;
        if a > INFINITY_CODE || b > INFINITY_CODE || (a == INFINITY_CODE && b == INFINITY_CODE
            && a_negative != b_negative) {
            Binary32 { bits: 0x7FC0_0000 }
        } else if a == INFINITY_CODE {
            self
        } else if b == INFINITY_CODE {
            other
        } else {
            let (ma, ea) = parts(a);
            let (mb, eb) = parts(b);
            let (negative, code) = if ea >= eb {
                add_parts(a_negative, ma, ea, b_negative, mb, eb)
            } else {
                add_parts(b_negative, mb, eb, a_negative, ma, ea)
            };
            Binary32::with_sign(negative, code)
        }
    }

    /// `self - other`, rounded.
    pub fn minus(self, other: Binary32) -> (r: Binary32)
        ensures
            r == self.difference(other),
    {
        self.plus(other.negated())
    }

    /// `self * other`, rounded.
    pub fn times(self, other: Binary32) -> (r: Binary32)
        ensures
            r == self.product(other),
    {
        reveal(Binary32::product);
        let a: u32 = self.bits % 0x8000_0000;
        let b: u32 = other.bits % 0x8000_0000;
        let negative: bool = (self.bits >= 0x8000_0000) != (other.bits >= 0x8000_0000);
        if a > INFINITY_CODE || b > INFINITY_CODE || (a == INFINITY_CODE && b == 0) || (a == 0 && b
            == INFINITY_CODE) {
            Binary32 { bits: 0x7FC0_0000 }
        } else if a == INFINITY_CODE || b == INFINITY_CODE {
            Binary32::with_sign(negative, INFINITY_CODE)
        } else {
            let (ma, ea) = parts(a);
            let (mb, eb) = parts(b);
            proof {
                lemma_brackets_product(ma as nat, ea as nat, mb as nat, eb as nat);
                lemma_pow2_pos(149);
                assert(ma * mb <= 0x100_0000 * 0x100_0000) by (nonlinear_arith)
                    requires
                        0 <= ma <= 0x100_0000,
                        0 <= mb <= 0x100_0000,
                ;
            }
            let m: u128 = (ma as u128) * (mb as u128);
            let code: u32 = rounding::pack(
                m,
                ea + eb + 151,
                false,
                Ghost(self.size() * other.size()),
                Ghost(pow2(149)),
            );
            Binary32::with_sign(negative, code)
        }
    }

    /// `self / other`, rounded.
    pub fn over(self, other: Binary32) -> (r: Binary32)
        ensures
            r == self.quotient(other),
    {
        reveal(Binary32::quotient);
        let a: u32 = self.bits % 0x8000_0000;
        let b: u32 = other.bits % 0x8000_0000;
        let negative: bool = (self.bits >= 0x8000_0000) != (other.bits >= 0x8000_0000);
        if a > INFINITY_CODE || b > INFINITY_CODE || (a == INFINITY_CODE && b == INFINITY_CODE) || (
        a == 0 && b == 0) {
            Binary32 { bits: 0x7FC0_0000 }
        } else if a == INFINITY_CODE || b == 0 {
            Binary32::with_sign(negative, INFINITY_CODE)
        } else if b == INFINITY_CODE {
            Binary32::with_sign(negative, 0)
        } else {
            let (ma, ea) = parts(a);
            let (mb, eb) = parts(b);
            let big: u128 = (ma as u128) * 0x4_0000_0000_0000;
            let divisor: u128 = mb as u128;
            let m: u128 = big / divisor;
            proof {
                lemma_brackets_quotient(ma as nat, ea as nat, mb as nat, eb as nat);
                if ma > 0 {
                    assert(m >= 0x400_0000) by (nonlinear_arith)
                        requires
                            m == big as int / divisor as int,
                            big >= 0x4_0000_0000_0000,
                            0 < divisor < 0x100_0000,
                    ;
                }
            }
            let code: u32 = rounding::pack(
                m,
                ea + 399 - eb,
                big % divisor != 0,
                Ghost(self.size() * pow2(149)),
                Ghost(other.size()),
            );
            Binary32::with_sign(negative, code)
        }
    }

    /// The whole part, moved into the range from 0 to `limit`.
    pub fn truncate(self, limit: u32) -> (r: u32)
        ensures
            r == self.truncated(limit as nat),
    {
        reveal(Binary32::truncated);
        let code: u32 = self.bits % 0x8000_0000;
        if code > INFINITY_CODE || self.bits >= 0x8000_0000 {
            return 0;
        }
        if code == INFINITY_CODE {
            return limit;
        }
        let (m, e) = parts(code);
        if e >= 149 {
            proof {
                lemma_whole_part_up(m as nat, e as nat);
            }
            let up: u32 = e - 149;
            if up <= 80 {
                let whole: u128 = shifted(m, up);
                if whole > limit as u128 {
                    limit
                } else {
                    whole as u32
                }
            } else {
                proof {
                    let p = pow2(up as nat);
                    lemma_pow2_adds((up - 32) as nat, 32);
                    lemma_pow2_pos((up - 32) as nat);
                    vstd::arithmetic::power2::lemma2_to64();
                    assert(p >= 0x1_0000_0000) by (nonlinear_arith)
                        requires
                            p == pow2((up - 32) as nat) * 0x1_0000_0000,
                            pow2((up - 32) as nat) >= 1,
                    ;
                    assert(m * p >= p) by (nonlinear_arith)
                        requires
                            m >= 1,
                            p >= 0,
                    ;
                }
                limit
            }
        } else {
            let down: u32 = 149 - e;
            proof {
                lemma_whole_part(m as nat, e as nat, down as nat);
                lemma_pow2_pos(down as nat);
            }
            if down <= 80 {
                let divisor: u128 = shifted(1, down);
                let whole: u128 = (m as u128) / divisor;
                if whole > limit as u128 {
                    limit
                } else {
                    proof {
                        assert(m as int / divisor as int <= m) by (nonlinear_arith)
                            requires
                                m >= 0,
                                divisor >= 1,
                        ;
                    }
                    whole as u32
                }
            } else {
                proof {
                    let q = pow2(down as nat);
                    vstd::arithmetic::power2::lemma2_to64();
                    lemma_pow2_adds((down - 32) as nat, 32);
                    lemma_pow2_pos((down - 32) as nat);
                    assert(q >= 0x1_0000_0000) by (nonlinear_arith)
                        requires
                            q == pow2((down - 32) as nat) * 0x1_0000_0000,
                            pow2((down - 32) as nat) >= 1,
                    ;
                    vstd::arithmetic::div_mod::lemma_basic_div(m as int, q as int);
                }
                0
            }
        }
    }
}

} // verus!
