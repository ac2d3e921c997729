//! The order of IEEE 754 double-precision numbers, worked out on their bit patterns, and the
//! rounded quotient of two integers.
//!
//! Scores and thresholds are computed outside of this crate. Here they are carried as bit patterns
//! and compared.

use vstd::arithmetic::div_mod::lemma_fundamental_div_mod;
use vstd::arithmetic::power2::{lemma2_to64, lemma_pow2_pos, lemma_pow2_unfold, pow2};
use vstd::prelude::*;

verus! {

/// The weight of the sign bit.
pub const SIGN: u64 = 0x8000_0000_0000_0000;

/// The bit pattern of positive infinity.
pub const INFINITY: u64 = 0x7FF0_0000_0000_0000;

/// A double-precision number, as its bit pattern.
#[derive(Clone, Copy, Debug, PartialEq, Eq, Structural)]
pub struct Binary64 {
    pub bits: u64,
}

impl Binary64 {
    /// The bit pattern without the sign bit.
    pub open spec fn magnitude(self) -> int {
        if self.bits >= SIGN {
            self.bits - SIGN
        } else {
            self.bits as int
        }
    }

    /// Not a number.
    pub open spec fn nan(self) -> bool {
        self.magnitude() > INFINITY
    }

    /// An integer that orders as the number does: both zeros have rank 0.
    pub open spec fn rank(self) -> int {
        if self.bits >= SIGN {
            -self.magnitude()
        } else {
            self.magnitude()
        }
    }

    /// Neither number is NaN and `self` is the greater one.
    pub open spec fn above(self, other: Binary64) -> bool {
        !self.nan() && !other.nan() && self.rank() > other.rank()
    }

    /// Neither number is NaN and `self` is at least as great.
    pub open spec fn at_least(self, other: Binary64) -> bool {
        !self.nan() && !other.nan() && self.rank() >= other.rank()
    }

    /// Whether the number is NaN.
    pub fn is_nan(self) -> (res: bool)
        ensures
            res == self.nan(),
    {
        if self.bits >= SIGN {
            self.bits - SIGN > INFINITY
        } else {
            self.bits > INFINITY
        }
    }

    /// Whether `self > other`.
    pub fn gt(self, other: Binary64) -> (res: bool)
        ensures
            res == self.above(other),
    {
        if self.is_nan() || other.is_nan() {
            false
        } else if self.bits >= SIGN {
            other.bits > self.bits
        } else if other.bits >= SIGN {
            self.bits > 0 || other.bits > SIGN
        } else {
            self.bits > other.bits
        }
    }

    /// Whether `self >= other`.
    pub fn ge(self, other: Binary64) -> (res: bool)
        ensures
            res == self.at_least(other),
    {
        if self.is_nan() || other.is_nan() {
            false
        } else {
            !other.gt(self)
        }
    }
}

/// How often `p` has to be doubled to reach `q`.
pub open spec fn doublings(p: nat, q: nat) -> nat
    decreases 2 * q - p,
{
    if p == 0 || p >= q {
        0
    } else {
        1 + doublings(2 * p, q)
    }
}

/// `p` doubled until it reaches `q`.
pub open spec fn doubled(p: nat, q: nat) -> nat
    decreases 2 * q - p,
{
    if p == 0 || p >= q {
        p
    } else {
        doubled(2 * p, q)
    }
}

/// The integer nearest to `n / d`; of two that are equally near, the even one.
pub open spec fn round_half_even(n: nat, d: nat) -> nat
    recommends
        d > 0,
{
    let floor = n / d;
    let rest = n % d;
    if 2 * rest < d || (2 * rest == d && floor % 2 == 0) {
        floor
    } else {
        floor + 1
    }
}

/// The bit pattern of the double-precision number nearest to `p / q`, for `0 < p <= q`: the
/// exponent is the number of doublings below that of 1, and 52 bits follow the leading one.
pub open spec fn quotient_bits(p: nat, q: nat) -> int
    recommends
        0 < p <= q,
{
    (1023 - doublings(p, q)) * 0x10_0000_0000_0000 + round_half_even(
        doubled(p, q) * 0x10_0000_0000_0000,
        q,
    ) - 0x10_0000_0000_0000
}

/// Doubling `p` until it reaches `q` multiplies it by a power of two and stops below `2 * q`.
proof fn lemma_doubled(p: nat, q: nat)
    requires
        0 < p <= q,
    ensures
        doubled(p, q) == p * pow2(doublings(p, q)),
        q <= doubled(p, q) < 2 * q,
        forall|j: nat| j < doublings(p, q) ==> p * #[trigger] pow2(j) < q,
    decreases 2 * q - p,
{
    lemma2_to64();
    assert(p * pow2(0) == p) by (nonlinear_arith)
        requires
            pow2(0) == 1,
    ;
    if p < q {
        let k = doublings(2 * p, q);
        if 2 * p <= q {
            lemma_doubled(2 * p, q);
            lemma_pow2_unfold(k + 1);
            assert(p * pow2(k + 1) == (2 * p) * pow2(k)) by (nonlinear_arith)
                requires
                    pow2(k + 1) == 2 * pow2(k),
            ;
        } else {
            assert(k == 0 && doubled(2 * p, q) == 2 * p);
            assert(p * pow2(1) == 2 * p) by (nonlinear_arith)
                requires
                    pow2(1) == 2,
            ;
        }
        assert forall|j: nat| j < doublings(p, q) implies p * #[trigger] pow2(j) < q by {
            if j == 0 {
                assert(p * pow2(j) == p);
            } else {
                let i = (j - 1) as nat;
                lemma_pow2_unfold(j);
                assert(2 * p <= q);
                assert((2 * p) * pow2(i) < q);
                assert(p * pow2(j) == (2 * p) * pow2(i)) by (nonlinear_arith)
                    requires
                        pow2(j) == 2 * pow2(i),
                ;
            }
        }
    }
}

/// Rounding moves a quotient by at most one half.
proof fn lemma_round(n: nat, d: nat)
    requires
        d > 0,
    ensures
        ({
            let m = round_half_even(n, d);
            &&& 2 * n - d <= 2 * m * d <= 2 * n + d
            &&& m % 2 == 1 ==> 2 * n - d < 2 * m * d < 2 * n + d
        }),
{
    let floor = n / d;
    let rest = n % d;
    lemma_fundamental_div_mod(n as int, d as int);
    let m = round_half_even(n, d);
    assert(d * floor == floor * d) by (nonlinear_arith);
    assert(2 * m * d == 2 * (m * d)) by (nonlinear_arith);
    assert((floor + 1) * d == floor * d + d) by (nonlinear_arith);
}

/// Rounding keeps the order of quotients.
proof fn lemma_round_monotone(n1: nat, d1: nat, n2: nat, d2: nat)
    requires
        d1 > 0,
        d2 > 0,
        n1 * d2 <= n2 * d1,
    ensures
        round_half_even(n1, d1) <= round_half_even(n2, d2),
{
    let m1 = round_half_even(n1, d1);
    let m2 = round_half_even(n2, d2);
    lemma_round(n1, d1);
    lemma_round(n2, d2);
    if m1 > m2 {
        // 2*m1*d1 <= 2*n1 + d1 and 2*n2 <= 2*m2*d2 + d2, one of them strictly
        if m1 == m2 + 1 {
            assert(m1 % 2 == 1 || m2 % 2 == 1);
        }
        assert(false) by (nonlinear_arith)
            requires
                m1 >= m2 + 1,
                d1 > 0,
                d2 > 0,
                n1 * d2 <= n2 * d1,
                2 * m1 * d1 <= 2 * n1 + d1,
                2 * n2 <= 2 * m2 * d2 + d2,
                m1 >= m2 + 2 || 2 * m1 * d1 < 2 * n1 + d1 || 2 * n2 < 2 * m2 * d2 + d2,
        ;
    }
}

/// The rounded significand of `p / q` has 53 bits, or is the power of two behind those.
proof fn lemma_significand(p: nat, q: nat)
    requires
        0 < p <= q,
    ensures
        0x10_0000_0000_0000 <= round_half_even(doubled(p, q) * 0x10_0000_0000_0000, q)
            <= 0x20_0000_0000_0000,
{
    lemma_doubled(p, q);
    let a = doubled(p, q);
    let one = 0x10_0000_0000_0000nat;
    assert(one * q <= (a * one) * 1 && (a * one) * 1 <= (2 * one) * q) by (nonlinear_arith)
        requires
            q <= a < 2 * q,
            one == 0x10_0000_0000_0000nat,
    ;
    assert(round_half_even(one, 1) == one);
    assert(round_half_even(2 * one, 1) == 2 * one);
    lemma_round_monotone(one, 1, a * one, q);
    lemma_round_monotone(a * one, q, 2 * one, 1);
}

/// The greater quotient needs no more doublings.
proof fn lemma_doublings_antitone(p1: nat, q1: nat, p2: nat, q2: nat)
    requires
        0 < p1 <= q1,
        0 < p2 <= q2,
        p1 * q2 <= p2 * q1,
    ensures
        doublings(p2, q2) <= doublings(p1, q1),
{
    lemma_doubled(p1, q1);
    lemma_doubled(p2, q2);
    let k1 = doublings(p1, q1);
    if k1 < doublings(p2, q2) {
        let t = pow2(k1);
        assert(p2 * t < q2);
        assert(false) by (nonlinear_arith)
            requires
                p1 * t >= q1,
                p2 * t < q2,
                p1 * q2 <= p2 * q1,
                0 < p1,
                0 < q1,
                0 < q2,
        ;
    }
}

/// Rounding to double precision keeps the order of quotients.
pub proof fn law_quotient_monotone(p1: nat, q1: nat, p2: nat, q2: nat)
    requires
        0 < p1 <= q1,
        0 < p2 <= q2,
        p1 * q2 <= p2 * q1,
    ensures
        quotient_bits(p1, q1) <= quotient_bits(p2, q2),
{
    let one = 0x10_0000_0000_0000nat;
    lemma_doublings_antitone(p1, q1, p2, q2);
    lemma_significand(p1, q1);
    lemma_significand(p2, q2);
    let k1 = doublings(p1, q1);
    let k2 = doublings(p2, q2);
    if k1 == k2 {
        lemma_doubled(p1, q1);
        lemma_doubled(p2, q2);
        let t = pow2(k1);
        assert(((p1 * t) * one) * q2 <= ((p2 * t) * one) * q1) by (nonlinear_arith)
            requires
                p1 * q2 <= p2 * q1,
                t >= 0,
                one >= 0,
        ;
        lemma_round_monotone(doubled(p1, q1) * one, q1, doubled(p2, q2) * one, q2);
    }
}

/// Quotients of small enough integers are never rounded onto each other: with
/// `q1 * q2 <= 2^51`, the double-precision numbers order as the exact quotients do.
pub proof fn law_quotient_order_is_exact(p1: nat, q1: nat, p2: nat, q2: nat)
    requires
        0 < p1 <= q1,
        0 < p2 <= q2,
        q1 * q2 <= 0x8_0000_0000_0000,
    ensures
        quotient_bits(p1, q1) < quotient_bits(p2, q2) <==> p1 * q2 < p2 * q1,
{
    if p1 * q2 >= p2 * q1 {
        law_quotient_monotone(p2, q2, p1, q1);
    } else {
        let one = 0x10_0000_0000_0000nat;
        lemma_doublings_antitone(p1, q1, p2, q2);
        lemma_significand(p1, q1);
        lemma_significand(p2, q2);
        lemma_doubled(p1, q1);
        lemma_doubled(p2, q2);
        let k1 = doublings(p1, q1);
        let k2 = doublings(p2, q2);
        let a1 = doubled(p1, q1);
        let a2 = doubled(p2, q2);
        let m1 = round_half_even(a1 * one, q1);
        let m2 = round_half_even(a2 * one, q2);
        lemma_round(a1 * one, q1);
        lemma_round(a2 * one, q2);
        if k1 == k2 {
            let t = pow2(k1);
            lemma_pow2_pos(k1);
            assert(a2 * q1 >= a1 * q2 + 1) by (nonlinear_arith)
                requires
                    a1 == p1 * t,
                    a2 == p2 * t,
                    p1 * q2 + 1 <= p2 * q1,
                    t >= 1,
            ;
            if m1 >= m2 {
                assert(false) by (nonlinear_arith)
                    requires
                        m1 >= m2,
                        2 * m1 * q1 <= 2 * (a1 * one) + q1,
                        2 * (a2 * one) <= 2 * m2 * q2 + q2,
                        a2 * q1 >= a1 * q2 + 1,
                        q1 * q2 <= 0x8_0000_0000_0000,
                        one == 0x10_0000_0000_0000nat,
                        q1 > 0,
                        q2 > 0,
                ;
            }
        } else {
            // a1 stays below the next power of two by at least one part in q1
            assert(q1 <= 0x8_0000_0000_0000) by (nonlinear_arith)
                requires
                    q1 * q2 <= 0x8_0000_0000_0000,
                    q2 >= 1,
            ;
            if m1 == 0x20_0000_0000_0000 {
                assert(a1 + 1 <= 2 * q1);
                assert(false) by (nonlinear_arith)
                    requires
                        m1 == 0x20_0000_0000_0000,
                        2 * m1 * q1 <= 2 * (a1 * one) + q1,
                        a1 + 1 <= 2 * q1,
                        q1 <= 0x8_0000_0000_0000,
                        one == 0x10_0000_0000_0000nat,
                ;
            }
        }
    }
}

/// How often the least quotient within range is doubled.
proof fn lemma_doublings_bound(p: nat, q: nat)
    requires
        0 < p <= q <= 0x1_0000_0000,
    ensures
        doublings(p, q) <= 32,
{
    lemma2_to64();
    lemma_doubled(p, q);
    if doublings(p, q) > 32 {
        assert(p * pow2(32) < q);
        assert(p * 0x1_0000_0000 >= 0x1_0000_0000);
    }
}

/// A quotient of at most 1 has the bit pattern of a positive number of at most 1.
pub proof fn law_quotient_range(p: nat, q: nat)
    requires
        0 < p <= q <= 0x1_0000_0000,
    ensures
        0x3DF0_0000_0000_0000 <= quotient_bits(p, q) <= 0x3FF0_0000_0000_0000,
{
    assert(quotient_bits(1, 1) == 0x3FF0_0000_0000_0000);
    law_quotient_monotone(p, q, 1, 1);
    lemma_doublings_bound(p, q);
    lemma_significand(p, q);
}

/// The double-precision number nearest to `p / q`, as `p as f64 / q as f64` gives it.
pub fn quotient(p: u64, q: u64) -> (res: Binary64)
    requires
        0 < p <= q,
        q <= 0x1_0000_0000,
    ensures
        res.bits == quotient_bits(p as nat, q as nat),
        res.bits <= 0x3FF0_0000_0000_0000,
        0x3DF0_0000_0000_0000 <= res.bits,
{
    let mut a: u64 = p;
    let mut k: u64 = 0;
    while a < q
        invariant
            0 < p <= q <= 0x1_0000_0000,
            0 < a < 2 * q,
            k <= 32,
            doublings(p as nat, q as nat) == k + doublings(a as nat, q as nat),
            doubled(p as nat, q as nat) == doubled(a as nat, q as nat),
        decreases 2 * q - a,
    {
        proof {
            lemma_doublings_bound(p as nat, q as nat);
        }
        a = 2 * a;
        k = k + 1;
    }
    proof {
        lemma_significand(p as nat, q as nat);
        lemma_doubled(p as nat, q as nat);
    }
    let n: u128 = (a as u128) * 0x10_0000_0000_0000u128;
    let d: u128 = q as u128;
    let floor: u128 = n / d;
    let rest: u128 = n % d;
    let m: u128 = if 2 * rest < d || (2 * rest == d && floor % 2 == 0) {
        floor
    } else {
        floor + 1
    };
    assert(m == round_half_even(n as nat, d as nat));
    proof {
        law_quotient_range(p as nat, q as nat);
    }
    Binary64 { bits: (1023 - k) * 0x10_0000_0000_0000 + (m as u64 - 0x10_0000_0000_0000) }
}

/// The quotient is above the double-precision number nearest to one tenth exactly where `p / q` is
/// above one tenth.
pub proof fn law_quotient_above_one_tenth(p: nat, q: nat)
    requires
        0 < p <= q <= 0x8_0000_0000_0000,
    ensures
        quotient_bits(p, q) > 0x3FB9_9999_9999_999A <==> 10 * p > q,
{
    let one = 0x10_0000_0000_0000nat;
    reveal_with_fuel(doublings, 6);
    reveal_with_fuel(doubled, 6);
    assert(quotient_bits(1, 10) == 0x3FB9_9999_9999_999A);
    if 10 * p <= q {
        law_quotient_monotone(p, q, 1, 10);
    } else {
        lemma_doublings_antitone(1, 10, p, q);
        lemma_significand(p, q);
        lemma_doubled(p, q);
        let k = doublings(p, q);
        let a = doubled(p, q);
        assert(k <= 4);
        if k == 4 {
            lemma2_to64();
            assert(a == 16 * p) by (nonlinear_arith)
                requires
                    a == p * pow2(4),
                    pow2(4) == 16,
            ;
            let m = round_half_even(a * one, q);
            lemma_round(a * one, q);
            if m <= 0x19_9999_9999_999A {
                assert(false) by (nonlinear_arith)
                    requires
                        m <= 0x19_9999_9999_999A,
                        2 * (a * one) <= 2 * m * q + q,
                        a == 16 * p,
                        10 * p >= q + 1,
                        q <= 0x8_0000_0000_0000,
                        one == 0x10_0000_0000_0000nat,
                ;
            }
        }
    }
}

/// Numbers that are not negative are in the order of their bit patterns, negative ones in the reverse
/// order and below them; the two zeros are equal, and what is not a number is in no order.
pub proof fn law_numbers_are_in_order(a: Binary64, b: Binary64)
    ensures
        a.bits <= 0x7FF0_0000_0000_0000 && b.bits <= 0x7FF0_0000_0000_0000 ==> (a.above(b) <==> a.bits
            > b.bits) && (a.at_least(b) <==> a.bits >= b.bits),
        0x8000_0000_0000_0000 <= a.bits <= 0xFFF0_0000_0000_0000 && 0x8000_0000_0000_0000 <= b.bits
            <= 0xFFF0_0000_0000_0000 ==> (a.above(b) <==> a.bits < b.bits) && (a.at_least(b)
            <==> a.bits <= b.bits),
        a.bits <= 0x7FF0_0000_0000_0000 && 0x8000_0000_0000_0000 <= b.bits <= 0xFFF0_0000_0000_0000
            ==> a.at_least(b) && !b.above(a) && (a.above(b) <==> a.bits > 0 || b.bits
            > 0x8000_0000_0000_0000),
        0x7FF0_0000_0000_0000 < a.bits < 0x8000_0000_0000_0000 || a.bits > 0xFFF0_0000_0000_0000
            ==> !a.above(b) && !a.at_least(b) && !b.above(a) && !b.at_least(a),
{
}

/// The number with the exponent `k` below one and the significand `m` is nearest to `p / q` among those
/// with 53 bits; of two that are equally near it is the even one.
pub open spec fn is_nearest(p: nat, q: nat, k: nat, m: nat) -> bool {
    &&& q <= p * pow2(k) < 2 * q
    &&& 2 * (p * pow2(k) * 0x10_0000_0000_0000) - q <= 2 * m * q <= 2 * (p * pow2(k)
        * 0x10_0000_0000_0000) + q
    &&& m % 2 == 1 ==> 2 * (p * pow2(k) * 0x10_0000_0000_0000) - q < 2 * m * q < 2 * (p * pow2(k)
        * 0x10_0000_0000_0000) + q
}

/// The quotient of two numbers is rounded to the nearest double-precision number.
pub proof fn law_quotient_is_the_nearest(p: nat, q: nat)
    requires
        0 < p <= q,
    ensures
        exists|k: nat, m: nat| #[trigger]
            is_nearest(p, q, k, m) && quotient_bits(p, q) == (1022 - k) * 0x10_0000_0000_0000 + m,
{
    lemma_doubled(p, q);
    let k = doublings(p, q);
    let n = doubled(p, q) * 0x10_0000_0000_0000;
    lemma_round(n, q);
    let m = round_half_even(n, q);
    assert(is_nearest(p, q, k, m));
}

} // verus!
