//! Double-precision numbers by their bit patterns: order, bounds and integral parts.
//!
//! A [`Real`] holds the 64 bits of an IEEE 754 binary64 number: one sign bit, eleven bits of
//! exponent and fifty-two bits of fraction, from the highest bit down.

use vstd::arithmetic::power2::pow2;
use vstd::prelude::*;

verus! {

/// A double-precision number, by its bit pattern.
#[derive(Clone, Copy, Debug, PartialEq, Eq, Structural)]
pub struct Real {
    pub bits: u64,
}

/// The bit pattern of the number one.
pub const ONE_BITS: u64 = 0x3ff0_0000_0000_0000;

impl Real {
    /// Whether the sign bit is set.
    pub open spec fn negative(self) -> bool {
        self.bits >= 0x8000_0000_0000_0000
    }

    /// The bits below the sign.
    pub open spec fn magnitude(self) -> int {
        self.bits as int % 0x8000_0000_0000_0000
    }

    /// The biased exponent.
    pub open spec fn exponent(self) -> int {
        self.magnitude() / 0x10_0000_0000_0000
    }

    /// The bits of the fraction.
    pub open spec fn fraction(self) -> int {
        self.magnitude() % 0x10_0000_0000_0000
    }

    /// Whether this is no number.
    pub open spec fn nan(self) -> bool {
        self.exponent() == 2047 && self.fraction() != 0
    }

    /// An integer that orders the numbers; both zeros have the same one.
    pub open spec fn rank(self) -> int {
        if self.negative() {
            -self.magnitude()
        } else {
            self.magnitude()
        }
    }

    /// Whether `self` is less than `other`; what is no number compares with nothing.
    pub open spec fn less(self, other: Real) -> bool {
        !self.nan() && !other.nan() && self.rank() < other.rank()
    }

    /// Whether `self` is at most `other`; what is no number compares with nothing.
    pub open spec fn at_most(self, other: Real) -> bool {
        !self.nan() && !other.nan() && self.rank() <= other.rank()
    }

    /// The lesser of the two, where one of them is no number the other.
    pub open spec fn lesser(self, other: Real) -> Real {
        if self.nan() || other.less(self) {
            other
        } else {
            self
        }
    }

    /// The greater of the two, where one of them is no number the other.
    pub open spec fn greater(self, other: Real) -> Real {
        if self.nan() || self.less(other) {
            other
        } else {
            self
        }
    }

    /// `self`, moved to the nearer end of `low..=high` where it lies outside.
    pub open spec fn within(self, low: Real, high: Real) -> Real {
        if self.less(low) {
            low
        } else if high.less(self) {
            high
        } else {
            self
        }
    }

    /// The magnitude of the integral part, for an exponent below 1086.
    pub open spec fn whole_magnitude(self) -> int {
        let significand = 0x10_0000_0000_0000 + self.fraction();
        if self.exponent() < 1023 {
            0
        } else if self.exponent() <= 1075 {
            significand / pow2((1075 - self.exponent()) as nat) as int
        } else {
            significand * pow2((self.exponent() - 1075) as nat)
        }
    }

    /// The integral part, moved to the nearer end of the 64-bit range where it lies outside; zero
    /// for what is no number.
    pub open spec fn whole(self) -> int {
        if self.nan() {
            0
        } else if self.exponent() >= 1086 {
            if self.negative() {
                i64::MIN as int
            } else {
                i64::MAX as int
            }
        } else if self.negative() {
            -self.whole_magnitude()
        } else {
            self.whole_magnitude()
        }
    }

    fn mag(self) -> (res: u64)
        ensures
            res == self.magnitude(),
    {
        self.bits % 0x8000_0000_0000_0000
    }

    /// Whether this is no number.
    pub fn is_nan(self) -> (res: bool)
        ensures
            res == self.nan(),
    {
        let m = self.mag();
        m / 0x10_0000_0000_0000 == 2047 && m % 0x10_0000_0000_0000 != 0
    }

    fn order(self) -> (res: i128)
        ensures
            res == self.rank(),
    {
        if self.bits >= 0x8000_0000_0000_0000 {
            -(self.mag() as i128)
        } else {
            self.mag() as i128
        }
    }

    /// Whether `self` is less than `other`.
    pub fn lt(self, other: Real) -> (res: bool)
        ensures
            res == self.less(other),
    {
        !self.is_nan() && !other.is_nan() && self.order() < other.order()
    }

    /// Whether `self` is at most `other`.
    pub fn le(self, other: Real) -> (res: bool)
        ensures
            res == self.at_most(other),
    {
        !self.is_nan() && !other.is_nan() && self.order() <= other.order()
    }

    /// The lesser of the two.
    pub fn min(self, other: Real) -> (res: Real)
        ensures
            res == self.lesser(other),
    {
        if self.is_nan() || other.lt(self) {
            other
        } else {
            self
        }
    }

    /// The greater of the two.
    pub fn max(self, other: Real) -> (res: Real)
        ensures
            res == self.greater(other),
    {
        if self.is_nan() || self.lt(other) {
            other
        } else {
            self
        }
    }

    /// `self`, moved to the nearer end of `low..=high` where it lies outside.
    pub fn clamp(self, low: Real, high: Real) -> (res: Real)
        ensures
            res == self.within(low, high),
    {
        if self.lt(low) {
            low
        } else if high.lt(self) {
            high
        } else {
            self
        }
    }

    /// The integral part.
    pub fn trunc(self) -> (res: i64)
        ensures
            res == self.whole(),
    {
        let m = self.mag();
        let exponent = m / 0x10_0000_0000_0000;
        let fraction = m % 0x10_0000_0000_0000;
        let negative = self.bits >= 0x8000_0000_0000_0000;
        if exponent == 2047 && fraction != 0 {
            return 0;
        }
        if exponent >= 1086 {
            return if negative {
                i64::MIN
            } else {
                i64::MAX
            };
        }
        if exponent < 1023 {
            return 0;
        }
        let significand: u64 = 0x10_0000_0000_0000 + fraction;
        let whole: u64 = if exponent <= 1075 {
            significand / power_of_two(1075 - exponent)
        } else {
            let p = power_of_two(exponent - 1075);
            proof {
                lemma_small_powers((exponent - 1075) as nat);
                assert(significand * p <= 0x1f_ffff_ffff_ffff * 1024) by (nonlinear_arith)
                    requires
                        0 <= significand <= 0x1f_ffff_ffff_ffff,
                        0 <= p <= 1024,
                ;
            }
            significand * p
        };
        proof {
            if exponent <= 1075 {
                lemma_power_positive((1075 - exponent) as nat);
                assert(whole <= significand) by (nonlinear_arith)
                    requires
                        whole == significand as int / pow2((1075 - exponent) as nat) as int,
                        pow2((1075 - exponent) as nat) >= 1,
                        significand >= 0,
                ;
            }
        }
        if negative {
            -(whole as i64)
        } else {
            whole as i64
        }
    }
}

/// The bits of the double-precision number that a text stands for, where it stands for one.
pub uninterp spec fn real_text_bits(s: Seq<char>) -> Option<u64>;

/// The double-precision number that a text stands for, where it stands for one.
pub open spec fn real_of_text(s: Seq<char>) -> Option<Real> {
    match real_text_bits(s) {
        Some(bits) => Some(Real { bits }),
        None => None,
    }
}

/// The double-precision number that a text stands for, where it stands for one.
pub fn parse_real(s: &str) -> (res: Option<Real>)
    ensures
        res == real_of_text(s@),
{
    match crate::json::read_decimal(s) {
        Some((bits, _)) => Some(Real { bits }),
        None => None,
    }
}

/// The place of the highest bit of a positive integer.
pub open spec fn top_bit(a: nat) -> nat
    decreases a,
{
    if a <= 1 {
        0
    } else {
        1 + top_bit(a / 2)
    }
}

/// Whether an integer has at most 53 bits.
pub open spec fn short(i: int) -> bool {
    -0x20_0000_0000_0000 < i < 0x20_0000_0000_0000
}

/// The bits below the sign of a positive integer of at most 53 bits: the place of its highest bit as
/// the exponent, and the bits below that one, moved to the top of the fraction.
pub open spec fn exact_magnitude(a: nat) -> int {
    (1023 + top_bit(a)) * 0x10_0000_0000_0000 + (a * pow2((52 - top_bit(a)) as nat)
        - 0x10_0000_0000_0000)
}

/// The bits of the double-precision number that an integer of at most 53 bits is.
pub open spec fn exact_bits(i: int) -> u64 {
    if i == 0 {
        0
    } else if i < 0 {
        (0x8000_0000_0000_0000 + exact_magnitude((-i) as nat)) as u64
    } else {
        exact_magnitude(i as nat) as u64
    }
}

/// The bits below the sign of a positive integer of more than 53 bits: of the two numbers with 53 bits
/// next to it the nearer one, and of two as near the even one.
pub open spec fn rounded_magnitude(a: nat) -> int {
    let unit = pow2((top_bit(a) - 52) as nat);
    let below = a / unit;
    let rest = a % unit;
    let up: int = if 2 * rest > unit || (2 * rest == unit && below % 2 == 1) {
        1
    } else {
        0
    };
    (1023 + top_bit(a)) * 0x10_0000_0000_0000 + (below + up - 0x10_0000_0000_0000)
}

/// The bits of the double-precision number nearest to an integer of more than 53 bits.
pub open spec fn rounded_bits(i: int) -> u64 {
    if i < 0 {
        (0x8000_0000_0000_0000 + rounded_magnitude((-i) as nat)) as u64
    } else {
        rounded_magnitude(i as nat) as u64
    }
}

/// The bits of an integer as a double-precision number: itself where it has at most 53 bits, else the
/// nearest one.
pub open spec fn int_bits(i: int) -> u64 {
    if short(i) {
        exact_bits(i)
    } else {
        rounded_bits(i)
    }
}

/// An integer of more than 53 bits is not farther from the double-precision number for it than half of
/// what lies between two such numbers there.
pub proof fn law_long_integers_are_rounded(i: int)
    requires
        !short(i),
        -0x1_0000_0000_0000_0000 < i < 0x1_0000_0000_0000_0000,
    ensures
        ({
            let x = Real { bits: int_bits(i) };
            let a: int = if i < 0 {
                -i
            } else {
                i
            };
            let unit = pow2((top_bit(a as nat) - 52) as nat);
            &&& x.negative() == (i < 0)
            &&& !x.nan()
            &&& -(unit as int) <= 2 * (x.whole_magnitude() - a) <= unit
        }),
{
    let a: nat = if i < 0 {
        (-i) as nat
    } else {
        i as nat
    };
    let x = Real { bits: int_bits(i) };
    let k = top_bit(a);
    lemma_top_bit(a);
    vstd::arithmetic::power2::lemma2_to64();
    vstd::arithmetic::power2::lemma2_to64_rest();
    if k < 53 {
        if k + 1 < 53 {
            vstd::arithmetic::power2::lemma_pow2_strictly_increases(k + 1, 53);
        }
        assert(false);
    }
    if k > 63 {
        if k > 64 {
            vstd::arithmetic::power2::lemma_pow2_strictly_increases(64, k);
        }
        assert(false);
    }
    let d = (k - 52) as nat;
    let unit = pow2(d) as int;
    lemma_power_positive(d);
    vstd::arithmetic::power2::lemma_pow2_adds(52, d);
    vstd::arithmetic::power2::lemma_pow2_adds(53, d);
    let below = a as int / unit;
    let rest = a as int % unit;
    vstd::arithmetic::div_mod::lemma_fundamental_div_mod(a as int, unit);
    vstd::arithmetic::div_mod::lemma_mod_bound(a as int, unit);
    assert(0x10_0000_0000_0000 <= below < 0x20_0000_0000_0000) by (nonlinear_arith)
        requires
            0x10_0000_0000_0000 * unit <= a < 0x20_0000_0000_0000 * unit,
            a == unit * below + rest,
            0 <= rest < unit,
            unit >= 1,
    ;
    let up: int = if 2 * rest > unit || (2 * rest == unit && below % 2 == 1) {
        1
    } else {
        0
    };
    let m = rounded_magnitude(a);
    assert(m == (1023 + k) * 0x10_0000_0000_0000 + (below + up - 0x10_0000_0000_0000));
    assert(x.magnitude() == m);
    let s = below + up;
    if s < 0x20_0000_0000_0000 {
        assert(x.exponent() == 1023 + k);
        assert(x.fraction() == s - 0x10_0000_0000_0000);
        assert(x.whole_magnitude() == s * unit);
    } else {
        assert(x.exponent() == 1024 + k);
        assert(x.fraction() == 0);
        vstd::arithmetic::power2::lemma_pow2_unfold(d + 1);
        assert(x.whole_magnitude() == 0x10_0000_0000_0000 * pow2(d + 1));
        assert(0x10_0000_0000_0000 * (2 * unit) == s * unit) by (nonlinear_arith)
            requires
                s == 0x20_0000_0000_0000,
        ;
    }
    assert(s * unit - a == up * unit - rest) by (nonlinear_arith)
        requires
            s == below + up,
            a == unit * below + rest,
    ;
}

proof fn lemma_top_bit(a: nat)
    requires
        a >= 1,
    ensures
        pow2(top_bit(a)) <= a < pow2(top_bit(a) + 1),
    decreases a,
{
    vstd::arithmetic::power2::lemma2_to64();
    if a > 1 {
        lemma_top_bit(a / 2);
        vstd::arithmetic::power2::lemma_pow2_unfold(top_bit(a));
        vstd::arithmetic::power2::lemma_pow2_unfold(top_bit(a) + 1);
    }
}

proof fn lemma_exact(a: nat)
    requires
        1 <= a < 0x20_0000_0000_0000,
    ensures
        top_bit(a) <= 52,
        0x10_0000_0000_0000 <= a * pow2((52 - top_bit(a)) as nat) < 0x20_0000_0000_0000,
        0 < exact_magnitude(a) < 0x8000_0000_0000_0000,
        exact_magnitude(a) / 0x10_0000_0000_0000 == 1023 + top_bit(a),
        exact_magnitude(a) % 0x10_0000_0000_0000 == a * pow2((52 - top_bit(a)) as nat)
            - 0x10_0000_0000_0000,
{
    let k = top_bit(a);
    lemma_top_bit(a);
    vstd::arithmetic::power2::lemma2_to64();
    vstd::arithmetic::power2::lemma2_to64_rest();
    if k > 52 {
        if k > 53 {
            vstd::arithmetic::power2::lemma_pow2_strictly_increases(53, k);
        }
        assert(false);
    }
    let d = (52 - k) as nat;
    vstd::arithmetic::power2::lemma_pow2_adds(k, d);
    vstd::arithmetic::power2::lemma_pow2_adds(k + 1, d);
    lemma_power_positive(d);
    let p = pow2(d) as int;
    let low = pow2(k) as int;
    let high = pow2(k + 1) as int;
    assert(low * p <= a * p < high * p) by (nonlinear_arith)
        requires
            low <= a < high,
            p >= 1,
    ;
}

/// An integer of at most 53 bits is a double-precision number: its integral part is the integer.
pub proof fn law_short_integers_are_exact(i: int)
    requires
        short(i),
    ensures
        (Real { bits: exact_bits(i) }).whole() == i,
        !(Real { bits: exact_bits(i) }).nan(),
{
    let x = Real { bits: exact_bits(i) };
    if i == 0 {
        assert(x.magnitude() == 0);
    } else {
        let a: nat = if i < 0 {
            (-i) as nat
        } else {
            i as nat
        };
        lemma_exact(a);
        assert(x.magnitude() == exact_magnitude(a));
        let p = pow2((52 - top_bit(a)) as nat) as int;
        lemma_power_positive((52 - top_bit(a)) as nat);
        assert(1075 - x.exponent() == 52 - top_bit(a));
        assert((a * p) / p == a) by (nonlinear_arith)
            requires
                p >= 1,
        ;
    }
}

proof fn lemma_exact_grows(a: nat, b: nat)
    requires
        1 <= a < b < 0x20_0000_0000_0000,
    ensures
        exact_magnitude(a) < exact_magnitude(b),
{
    lemma_exact(a);
    lemma_exact(b);
    lemma_top_bit(a);
    lemma_top_bit(b);
    if top_bit(b) < top_bit(a) {
        vstd::arithmetic::power2::lemma_pow2_strictly_increases(top_bit(b) + 1, top_bit(a) + 1);
        if top_bit(b) + 1 < top_bit(a) {
            vstd::arithmetic::power2::lemma_pow2_strictly_increases(top_bit(b) + 1, top_bit(a));
        }
        assert(false);
    }
    if top_bit(a) == top_bit(b) {
        let p = pow2((52 - top_bit(a)) as nat) as int;
        lemma_power_positive((52 - top_bit(a)) as nat);
        assert(a * p < b * p) by (nonlinear_arith)
            requires
                a < b,
                p >= 1,
        ;
    }
}

/// Integers of at most 53 bits are ordered as double-precision numbers just as they are themselves.
pub proof fn law_short_integers_keep_their_order(i: int, j: int)
    requires
        short(i),
        short(j),
    ensures
        (Real { bits: exact_bits(i) }).less(Real { bits: exact_bits(j) }) == (i < j),
{
    law_short_integers_are_exact(i);
    law_short_integers_are_exact(j);
    lemma_rank_of_exact(i);
    lemma_rank_of_exact(j);
    let a: nat = if i < 0 {
        (-i) as nat
    } else {
        i as nat
    };
    let b: nat = if j < 0 {
        (-j) as nat
    } else {
        j as nat
    };
    if 1 <= a < b {
        lemma_exact_grows(a, b);
    } else if 1 <= b < a {
        lemma_exact_grows(b, a);
    }
}

proof fn lemma_rank_of_exact(i: int)
    requires
        short(i),
    ensures
        i == 0 ==> (Real { bits: exact_bits(i) }).rank() == 0,
        i > 0 ==> (Real { bits: exact_bits(i) }).rank() == exact_magnitude(i as nat) > 0,
        i < 0 ==> (Real { bits: exact_bits(i) }).rank() == -exact_magnitude((-i) as nat) < 0,
{
    if i > 0 {
        lemma_exact(i as nat);
    } else if i < 0 {
        lemma_exact((-i) as nat);
    }
}

proof fn lemma_power_positive(k: nat)
    ensures
        pow2(k) >= 1,
{
    vstd::arithmetic::power2::lemma_pow2_pos(k);
}

proof fn lemma_small_powers(k: nat)
    requires
        k <= 10,
    ensures
        pow2(k) <= 1024,
{
    vstd::arithmetic::power2::lemma2_to64();
    if k < 10 {
        vstd::arithmetic::power2::lemma_pow2_strictly_increases(k, 10);
    }
}

/// Two to the power of `k`.
fn power_of_two(k: u64) -> (res: u64)
    requires
        k <= 52,
    ensures
        res == pow2(k as nat),
        res >= 1,
{
    let mut p: u64 = 1;
    let mut i: u64 = 0;
    proof {
        vstd::arithmetic::power2::lemma2_to64();
    }
    while i < k
        invariant
            i <= k <= 52,
            p >= 1,
            p == pow2(i as nat),
        decreases k - i,
    {
        proof {
            vstd::arithmetic::power2::lemma_pow2_unfold((i + 1) as nat);
            vstd::arithmetic::power2::lemma_pow2_strictly_increases((i + 1) as nat, 54);
            vstd::arithmetic::power2::lemma2_to64();
            vstd::arithmetic::power2::lemma2_to64_rest();
        }
        p = p * 2;
        i += 1;
    }
    p
}

/// Numbers are ordered totally: of two numbers, exactly one of less, greater and equal rank holds,
/// and the order is transitive.
pub proof fn law_order_is_total(a: Real, b: Real, c: Real)
    requires
        !a.nan(),
        !b.nan(),
        !c.nan(),
    ensures
        a.less(b) || b.less(a) || a.rank() == b.rank(),
        !(a.less(b) && b.less(a)),
        a.at_most(b) == !b.less(a),
        a.at_most(b) && b.at_most(c) ==> a.at_most(c),
        a.less(b) && b.less(c) ==> a.less(c),
{
}

/// What is moved between two bounds lies between them, and what lies there stays.
pub proof fn law_clamp_bounds(x: Real, low: Real, high: Real)
    requires
        !x.nan(),
        low.at_most(high),
    ensures
        low.at_most(x.within(low, high)),
        x.within(low, high).at_most(high),
        low.at_most(x) && x.at_most(high) ==> x.within(low, high) == x,
{
}

/// The integral part fits 64 bits.
pub proof fn law_whole_fits(x: Real)
    ensures
        i64::MIN <= x.whole() <= i64::MAX,
{
    if !x.nan() && x.exponent() < 1086 && x.exponent() >= 1023 {
        let significand = 0x10_0000_0000_0000 + x.fraction();
        if x.exponent() <= 1075 {
            let p = pow2((1075 - x.exponent()) as nat) as int;
            lemma_power_positive((1075 - x.exponent()) as nat);
            assert(0 <= significand / p <= significand) by (nonlinear_arith)
                requires
                    p >= 1,
                    significand >= 0,
            ;
        } else {
            let p = pow2((x.exponent() - 1075) as nat) as int;
            lemma_small_powers((x.exponent() - 1075) as nat);
            assert(0 <= significand * p <= 0x1f_ffff_ffff_ffff * 1024) by (nonlinear_arith)
                requires
                    0 <= significand <= 0x1f_ffff_ffff_ffff,
                    0 <= p <= 1024,
            ;
        }
    }
}

/// The lesser of two numbers is one of them and not above the other, the greater is one of them and not
/// below; where one is no number it is the other.
pub proof fn law_lesser_and_greater(a: Real, b: Real)
    ensures
        a.lesser(b) == a || a.lesser(b) == b,
        a.greater(b) == a || a.greater(b) == b,
        !a.nan() && !b.nan() ==> a.lesser(b).at_most(a) && a.lesser(b).at_most(b) && a.at_most(
            a.greater(b),
        ) && b.at_most(a.greater(b)),
        a.nan() ==> a.lesser(b) == b && a.greater(b) == b,
        b.nan() && !a.nan() ==> a.lesser(b) == a && a.greater(b) == a,
{
}

/// The integral part of a number is the number without what is behind the point: what is below one has
/// none, what is too large for 64 bits has the nearest that fits, and what is no number has none.
pub proof fn law_integral_part_is_toward_zero(x: Real)
    ensures
        x.nan() ==> x.whole() == 0,
        !x.nan() && x.exponent() < 1023 ==> x.whole() == 0,
        !x.nan() && x.exponent() >= 1086 ==> x.whole() == (if x.negative() {
            -0x8000_0000_0000_0000
        } else {
            0x7fff_ffff_ffff_ffff
        }),
        !x.nan() && 1023 <= x.exponent() < 1086 ==> {
            let significand = 0x10_0000_0000_0000 + x.fraction();
            let m = if x.negative() {
                -x.whole()
            } else {
                x.whole()
            };
            &&& x.exponent() <= 1075 ==> m * pow2((1075 - x.exponent()) as nat) <= significand < (m
                + 1) * pow2((1075 - x.exponent()) as nat)
            &&& x.exponent() > 1075 ==> m == significand * pow2((x.exponent() - 1075) as nat)
        },
{
    if !x.nan() && 1023 <= x.exponent() <= 1075 {
        let significand = 0x10_0000_0000_0000 + x.fraction();
        let p = pow2((1075 - x.exponent()) as nat) as int;
        lemma_power_positive((1075 - x.exponent()) as nat);
        let m = significand / p;
        vstd::arithmetic::div_mod::lemma_fundamental_div_mod(significand, p);
        vstd::arithmetic::div_mod::lemma_mod_bound(significand, p);
        assert(m * p <= significand < (m + 1) * p) by (nonlinear_arith)
            requires
                significand == p * m + significand % p,
                0 <= significand % p < p,
        ;
    }
}

} // verus!
