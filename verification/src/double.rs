//! Measured quantities, carried as IEEE 754 binary64 bit patterns.
use vstd::arithmetic::power2::{lemma_pow2_adds, lemma_pow2_pos, lemma_pow2_unfold, pow2};
use vstd::prelude::*;

verus! {

/// A binary64 number, given by its bit pattern.
#[derive(Clone, Copy, Debug, PartialEq, Eq, Structural)]
pub struct Double {
    pub bits: u64,
}

/// The number with the given pattern.
pub open spec fn number(bits: u64) -> Double {
    Double { bits }
}

impl Double {
    /// The sign bit is set.
    pub open spec fn negative(self) -> bool {
        self.bits >= 0x8000_0000_0000_0000
    }

    /// The pattern without its sign bit.
    pub open spec fn payload(self) -> int {
        if self.negative() {
            self.bits - 0x8000_0000_0000_0000
        } else {
            self.bits as int
        }
    }

    /// The biased exponent field.
    pub open spec fn exponent(self) -> int {
        self.payload() / 0x10_0000_0000_0000
    }

    /// The fraction field.
    pub open spec fn fraction(self) -> int {
        self.payload() % 0x10_0000_0000_0000
    }

    /// The pattern stands for no number.
    pub open spec fn is_nan(self) -> bool {
        self.exponent() == 2047 && self.fraction() != 0
    }

    /// The magnitude in units of the smallest positive number, 2 to the power of -1074. An
    /// infinity counts as the power of two that follows the largest finite number.
    pub open spec fn magnitude(self) -> int {
        magnitude_of(self.exponent(), self.fraction())
    }

    /// The value in units of the smallest positive number.
    pub open spec fn units(self) -> int {
        if self.negative() {
            -self.magnitude()
        } else {
            self.magnitude()
        }
    }

    /// `self <= other`. A pattern that is no number compares with nothing.
    pub open spec fn at_most(self, other: Double) -> bool {
        !self.is_nan() && !other.is_nan() && self.units() <= other.units()
    }

    /// `self < other`. A pattern that is no number compares with nothing.
    pub open spec fn less(self, other: Double) -> bool {
        !self.is_nan() && !other.is_nan() && self.units() < other.units()
    }

    /// The value without its fractional part, kept within the range of `i64`; zero where the
    /// pattern is no number.
    pub open spec fn whole(self) -> int {
        let m = self.magnitude() / (pow2(1074) as int);
        if self.is_nan() {
            0
        } else if self.negative() {
            if m > 0x8000_0000_0000_0000 {
                i64::MIN as int
            } else {
                -m
            }
        } else {
            if m > 0x7fff_ffff_ffff_ffff {
                i64::MAX as int
            } else {
                m
            }
        }
    }

    /// An integer that orders patterns as their values are ordered, with both zeros alike.
    pub open spec fn key(self) -> int {
        if self.negative() {
            -self.payload()
        } else {
            self.payload()
        }
    }
}

/// The magnitude that an exponent field and a fraction field denote.
pub open spec fn magnitude_of(exponent: int, fraction: int) -> int {
    if exponent == 0 {
        fraction
    } else {
        (0x10_0000_0000_0000 + fraction) * pow2((exponent - 1) as nat)
    }
}

proof fn lemma_magnitude_bounds(e: int, f: int)
    requires
        1 <= e,
        0 <= f < 0x10_0000_0000_0000,
    ensures
        0x10_0000_0000_0000 * pow2((e - 1) as nat) <= magnitude_of(e, f) < 0x10_0000_0000_0000
            * pow2(e as nat),
{
    let p = pow2((e - 1) as nat) as int;
    lemma_pow2_pos((e - 1) as nat);
    lemma_pow2_unfold(e as nat);
    assert(0x10_0000_0000_0000 * p <= (0x10_0000_0000_0000 + f) * p < 0x10_0000_0000_0000 * (2 * p))
        by (nonlinear_arith)
        requires
            0 <= f < 0x10_0000_0000_0000,
            p > 0,
    ;
}

proof fn lemma_power_grows(a: nat, b: nat)
    requires
        a <= b,
    ensures
        pow2(a) <= pow2(b),
{
    if a < b {
        vstd::arithmetic::power2::lemma_pow2_strictly_increases(a, b);
    }
}

/// Patterns without sign are ordered as the magnitudes that they denote.
proof fn lemma_payload_orders(e1: int, f1: int, e2: int, f2: int)
    requires
        0 <= e1,
        0 <= e2,
        0 <= f1 < 0x10_0000_0000_0000,
        0 <= f2 < 0x10_0000_0000_0000,
        e1 < e2 || (e1 == e2 && f1 < f2),
    ensures
        0 <= magnitude_of(e1, f1) < magnitude_of(e2, f2),
{
    lemma_pow2_pos((e1 - 1) as nat);
    lemma_pow2_pos((e2 - 1) as nat);
    let p1 = pow2((e1 - 1) as nat) as int;
    let p2 = pow2((e2 - 1) as nat) as int;
    if e1 == e2 {
        if e1 > 0 {
            assert(0 <= (0x10_0000_0000_0000 + f1) * p1 < (0x10_0000_0000_0000 + f2) * p1)
                by (nonlinear_arith)
                requires
                    0 <= f1 < f2,
                    p1 > 0,
            ;
        }
    } else {
        lemma_magnitude_bounds(e2, f2);
        if e1 == 0 {
            assert(0x10_0000_0000_0000 * p2 >= 0x10_0000_0000_0000) by (nonlinear_arith)
                requires
                    p2 > 0,
            ;
        } else {
            lemma_magnitude_bounds(e1, f1);
            lemma_power_grows(e1 as nat, (e2 - 1) as nat);
            let q = pow2(e1 as nat) as int;
            assert(0x10_0000_0000_0000 * q <= 0x10_0000_0000_0000 * p2) by (nonlinear_arith)
                requires
                    q <= p2,
            ;
            assert(0 <= 0x10_0000_0000_0000 * p1) by (nonlinear_arith)
                requires
                    p1 > 0,
            ;
        }
    }
}

/// The integer key orders numbers as their values are ordered: it is smaller exactly where the
/// value is smaller, and equal exactly where the values are equal.
pub proof fn key_orders_values(a: Double, b: Double)
    ensures
        a.key() < b.key() <==> a.units() < b.units(),
        a.key() == b.key() <==> a.units() == b.units(),
{
    lemma_key_orders(a, b);
    lemma_key_orders(b, a);
}

proof fn lemma_key_orders(a: Double, b: Double)
    ensures
        a.key() < b.key() ==> a.units() < b.units(),
        a.key() == b.key() ==> a.units() == b.units(),
{
    lemma_magnitude_zero(a);
    lemma_magnitude_zero(b);
    lemma_magnitude_orders(a, b);
    lemma_magnitude_orders(b, a);
}

proof fn lemma_magnitude_zero(a: Double)
    ensures
        a.magnitude() >= 0,
        a.magnitude() == 0 <==> a.payload() == 0,
{
    if a.payload() != 0 {
        lemma_payload_orders(0, 0, a.exponent(), a.fraction());
    }
}

proof fn lemma_magnitude_orders(a: Double, b: Double)
    ensures
        a.payload() < b.payload() ==> a.magnitude() < b.magnitude(),
        a.payload() == b.payload() ==> a.magnitude() == b.magnitude(),
{
    if a.payload() < b.payload() {
        lemma_payload_orders(a.exponent(), a.fraction(), b.exponent(), b.fraction());
    }
}

impl Double {
    /// The number with the given pattern.
    pub fn from_bits(bits: u64) -> (r: Double)
        ensures
            r.bits == bits,
    {
        Double { bits }
    }

    /// Whether the pattern stands for no number.
    pub fn no_number(&self) -> (r: bool)
        ensures
            r == self.is_nan(),
    {
        let payload: u64 = if self.bits >= 0x8000_0000_0000_0000 {
            self.bits - 0x8000_0000_0000_0000
        } else {
            self.bits
        };
        payload > 0x7ff0_0000_0000_0000
    }

    /// The integer that orders numbers as their values are ordered.
    pub fn order_key(&self) -> (r: i128)
        ensures
            r == self.key(),
    {
        if self.bits >= 0x8000_0000_0000_0000 {
            -((self.bits - 0x8000_0000_0000_0000) as i128)
        } else {
            self.bits as i128
        }
    }

    /// `self <= other`.
    pub fn le(&self, other: &Double) -> (r: bool)
        ensures
            r == self.at_most(*other),
    {
        proof {
            key_orders_values(*self, *other);
        }
        !self.no_number() && !other.no_number() && self.order_key() <= other.order_key()
    }

    /// `self < other`.
    pub fn lt(&self, other: &Double) -> (r: bool)
        ensures
            r == self.less(*other),
    {
        proof {
            key_orders_values(*self, *other);
        }
        !self.no_number() && !other.no_number() && self.order_key() < other.order_key()
    }

    /// The larger of two numbers; the other one where one is no number.
    pub fn larger(&self, other: &Double) -> (r: Double)
        ensures
            r == (if other.is_nan() || other.at_most(*self) {
                *self
            } else {
                *other
            }),
    {
        if other.no_number() || other.le(self) {
            *self
        } else {
            *other
        }
    }

    /// `self` kept between `low` and `high`; a pattern that is no number stays as it is.
    pub fn clamp(&self, low: &Double, high: &Double) -> (r: Double)
        requires
            low.at_most(*high),
        ensures
            r == (if self.less(*low) {
                *low
            } else if high.less(*self) {
                *high
            } else {
                *self
            }),
    {
        if self.lt(low) {
            *low
        } else if high.lt(self) {
            *high
        } else {
            *self
        }
    }

    /// The value without its fractional part, kept within the range of `i64`.
    pub fn to_whole(&self) -> (r: i64)
        ensures
            r == self.whole(),
    {
        let negative: bool = self.bits >= 0x8000_0000_0000_0000;
        let payload: u64 = if negative {
            self.bits - 0x8000_0000_0000_0000
        } else {
            self.bits
        };
        let e: u64 = payload / 0x10_0000_0000_0000;
        let f: u64 = payload % 0x10_0000_0000_0000;
        if self.no_number() {
            return 0;
        }
        proof {
            lemma_whole(e as int, f as int);
        }
        if e < 1023 {
            return 0;
        }
        if e >= 1086 {
            return if negative {
                i64::MIN
            } else {
                i64::MAX
            };
        }
        let m: u64 = 0x10_0000_0000_0000 + f;
        let w: u64 = if e < 1075 {
            proof {
                vstd::bits::lemma_u64_shr_is_div(m, (1075 - e) as u64);
                let d = pow2((1075 - e) as nat);
                lemma_pow2_pos((1075 - e) as nat);
                assert(0 <= m as int / d as int <= m) by (nonlinear_arith)
                    requires
                        d > 0,
                        m >= 0,
                ;
            }
            m >> (1075 - e)
        } else {
            proof {
                let k = (e - 1075) as nat;
                lemma_power_grows(k, 10);
                vstd::arithmetic::power2::lemma2_to64();
                assert(m * pow2(k) <= 0x1f_ffff_ffff_ffff * 1024) by (nonlinear_arith)
                    requires
                        m <= 0x1f_ffff_ffff_ffff,
                        0 <= pow2(k) <= 1024,
                ;
                vstd::bits::lemma_u64_shl_is_mul(m, (e - 1075) as u64);
            }
            m << (e - 1075)
        };
        assert(w == self.magnitude() / (pow2(1074) as int));
        assert(w <= i64::MAX);
        if negative {
            (-(w as i128)) as i64
        } else {
            w as i64
        }
    }
}

/// The whole part of a magnitude, by the range of its exponent field.
proof fn lemma_whole(e: int, f: int)
    requires
        0 <= e <= 2047,
        0 <= f < 0x10_0000_0000_0000,
    ensures
        e < 1023 ==> magnitude_of(e, f) / (pow2(1074) as int) == 0,
        e >= 1086 ==> magnitude_of(e, f) / (pow2(1074) as int) >= 0x8000_0000_0000_0000,
        1023 <= e < 1075 ==> magnitude_of(e, f) / (pow2(1074) as int) == (0x10_0000_0000_0000 + f)
            / (pow2((1075 - e) as nat) as int),
        1075 <= e < 1086 ==> magnitude_of(e, f) / (pow2(1074) as int) == (0x10_0000_0000_0000 + f)
            * pow2((e - 1075) as nat),
{
    let u = pow2(1074) as int;
    lemma_pow2_pos(1074);
    let m = 0x10_0000_0000_0000 + f;
    vstd::arithmetic::power2::lemma2_to64();
    vstd::arithmetic::power2::lemma2_to64_rest();
    if e < 1023 {
        if e >= 1 {
            lemma_magnitude_bounds(e, f);
            lemma_power_grows(e as nat, 1022);
        } else {
            lemma_power_grows(0, 1022);
        }
        lemma_pow2_adds(52, 1022);
        assert(0x10_0000_0000_0000 * pow2(1022) == u);
        lemma_pow2_pos((e - 1) as nat);
        let p = pow2((e - 1) as nat) as int;
        assert(0 <= m * p) by (nonlinear_arith)
            requires
                m >= 0,
                p > 0,
        ;
        vstd::arithmetic::div_mod::lemma_basic_div(magnitude_of(e, f), u);
    } else if e < 1075 {
        let p = pow2((e - 1) as nat) as int;
        let d = pow2((1075 - e) as nat) as int;
        lemma_pow2_pos((e - 1) as nat);
        lemma_pow2_pos((1075 - e) as nat);
        lemma_pow2_adds((e - 1) as nat, (1075 - e) as nat);
        assert(u == p * d);
        assert(m * p == p * m) by (nonlinear_arith);
        vstd::arithmetic::div_mod::lemma_div_multiples_vanish_quotient(p, m, d);
    } else {
        let k = pow2((e - 1075) as nat) as int;
        lemma_pow2_pos((e - 1075) as nat);
        lemma_pow2_adds((e - 1075) as nat, 1074);
        assert(magnitude_of(e, f) == m * (k * u));
        assert(m * (k * u) == u * (m * k)) by (nonlinear_arith);
        assert((u * (m * k)) / u == m * k) by {
            vstd::arithmetic::div_mod::lemma_div_multiples_vanish(m * k, u);
        }
        if e >= 1086 {
            lemma_power_grows(11, (e - 1075) as nat);
            assert(m * k >= 0x10_0000_0000_0000 * 2048) by (nonlinear_arith)
                requires
                    m >= 0x10_0000_0000_0000,
                    k >= 2048,
            ;
        }
    }
}

/// The number with this pattern is the whole number `k`, where its significand is `k` shifted up
/// by the `j` places that its exponent falls short of whole numbers.
pub proof fn lemma_whole_number(bits: u64, k: int, j: nat)
    requires
        number(bits).exponent() >= 1,
        !number(bits).negative(),
        number(bits).exponent() - 1 + j == 1074,
        0x10_0000_0000_0000 + number(bits).fraction() == k * pow2(j),
    ensures
        number(bits).units() == k * pow2(1074),
{
    let e = (number(bits).exponent() - 1) as nat;
    lemma_pow2_adds(j, e);
    assert((k * pow2(j)) * pow2(e) == k * (pow2(j) * pow2(e))) by (nonlinear_arith);
}

/// The whole part of a number is what is left without its fraction: it has the sign of the
/// number, is no larger than it, and falls short of it by less than one. What is no number has
/// none, and what is out of the range of 64 bits stops at its end.
pub proof fn whole_part_drops_the_fraction(x: Double)
    ensures
        x.is_nan() ==> x.whole() == 0,
        !x.is_nan() && 0 <= x.units() < 0x8000_0000_0000_0000 * pow2(1074) ==> x.whole() * pow2(
            1074,
        ) <= x.units() < (x.whole() + 1) * pow2(1074),
        !x.is_nan() && -0x8000_0000_0000_0000 * pow2(1074) <= x.units() < 0 ==> (x.whole() - 1)
            * pow2(1074) < x.units() <= x.whole() * pow2(1074),
        !x.is_nan() && x.units() >= 0x8000_0000_0000_0000 * pow2(1074) ==> x.whole()
            == 0x7fff_ffff_ffff_ffff,
        !x.is_nan() && x.units() < -0x8000_0000_0000_0000 * pow2(1074) ==> x.whole()
            == -0x8000_0000_0000_0000,
{
    let u = pow2(1074) as int;
    let v = x.magnitude();
    let m = v / u;
    vstd::arithmetic::power2::lemma_pow2_pos(1074);
    lemma_magnitude_zero(x);
    vstd::arithmetic::div_mod::lemma_fundamental_div_mod(v, u);
    vstd::arithmetic::div_mod::lemma_mod_bound(v, u);
    assert(u * m == m * u) by (nonlinear_arith);
    assert((m + 1) * u == m * u + u) by (nonlinear_arith);
    assert((-m) * u == -(m * u)) by (nonlinear_arith);
    assert((-m - 1) * u == -(m * u) - u) by (nonlinear_arith);
    let big = 0x8000_0000_0000_0000int;
    if m >= big {
        assert(m * u >= big * u) by (nonlinear_arith)
            requires
                m >= big,
                u > 0,
        ;
    } else {
        assert((m + 1) * u <= big * u) by (nonlinear_arith)
            requires
                m + 1 <= big,
                u > 0,
        ;
    }
    if m > big {
        assert(m * u >= big * u + u) by (nonlinear_arith)
            requires
                m >= big + 1,
                u > 0,
        ;
    }
    if m == big {
        assert(m * u == big * u);
    }
}

/// What a pattern stands for follows from its bits: the topmost one is the sign, the next eleven
/// are the exponent and the rest is the fraction; it stands for no number where all bits of the
/// exponent are set and some of the fraction are.
pub proof fn patterns_are_read_by_bits(bits: u64)
    ensures
        number(bits).negative() <==> bits >> 63 == 1,
        number(bits).payload() == bits & 0x7fff_ffff_ffff_ffff,
        number(bits).exponent() == (bits >> 52) & 0x7ff,
        number(bits).fraction() == bits & 0x000f_ffff_ffff_ffff,
        number(bits).is_nan() <==> bits & 0x7ff0_0000_0000_0000 == 0x7ff0_0000_0000_0000 && bits
            & 0x000f_ffff_ffff_ffff != 0,
{
    assert((bits >= 0x8000_0000_0000_0000 <==> bits >> 63 == 1) && (bits >= 0x8000_0000_0000_0000
        ==> bits - 0x8000_0000_0000_0000 == bits & 0x7fff_ffff_ffff_ffff) && (bits
        < 0x8000_0000_0000_0000 ==> bits == bits & 0x7fff_ffff_ffff_ffff)) by (bit_vector);
    let p: u64 = bits & 0x7fff_ffff_ffff_ffff;
    assert(p == bits & 0x7fff_ffff_ffff_ffff ==> p / 0x10_0000_0000_0000 == (bits >> 52) & 0x7ff && p
        % 0x10_0000_0000_0000 == bits & 0x000f_ffff_ffff_ffff) by (bit_vector);
    assert((bits >> 52) & 0x7ff == 0x7ff <==> bits & 0x7ff0_0000_0000_0000 == 0x7ff0_0000_0000_0000)
        by (bit_vector);
}

} // verus!
