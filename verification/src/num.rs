//! Real numbers as they travel through the hot path: binary64 bit patterns.
//!
//! The library compares numbers, flips their sign, tests them against zero and cuts
//! them down to integers. It does no arithmetic on them: that is the host's work.

use vstd::arithmetic::div_mod::{
    lemma_div_denominator, lemma_div_multiples_vanish, lemma_fundamental_div_mod,
};
use vstd::arithmetic::mul::{
    lemma_mul_inequality, lemma_mul_is_associative, lemma_mul_is_commutative,
    lemma_mul_strict_inequality,
};
use vstd::arithmetic::power2::{
    lemma_pow2_adds, lemma_pow2_pos, lemma_pow2_strictly_increases, lemma_pow2_unfold, pow2,
};
use vstd::bits::{lemma_u64_shl_is_mul, lemma_u64_shr_is_div};
use vstd::prelude::*;

verus! {

/// The weight of the sign bit.
pub const SIGN: u64 = 0x8000_0000_0000_0000;

/// The pattern of plus infinity. A magnitude above it is not a number.
pub const INFINITE: u64 = 0x7FF0_0000_0000_0000;

/// The weight of the lowest exponent bit.
pub const STEP: u64 = 0x0010_0000_0000_0000;

/// A number, by its binary64 pattern.
#[derive(Clone, Copy, PartialEq, Eq, Structural, Debug)]
pub struct Num {
    pub bits: u64,
}

/// What a pattern without its sign bit stands for, in units of the smallest positive
/// number (2 to the power of -1074). Infinity stands one step above the greatest
/// finite number.
pub open spec fn size_of_pattern(pattern: nat) -> nat {
    let exponent = pattern / STEP as nat;
    let fraction = pattern % STEP as nat;
    if exponent == 0 {
        fraction
    } else {
        (STEP as nat + fraction) * pow2((exponent - 1) as nat)
    }
}

impl Num {
    /// The pattern without its sign bit.
    pub open spec fn pattern(self) -> nat {
        if self.bits < SIGN {
            self.bits as nat
        } else {
            (self.bits - SIGN) as nat
        }
    }

    /// Not a number.
    pub open spec fn nan(self) -> bool {
        self.pattern() > INFINITE
    }

    /// The number, in units of the smallest positive number.
    pub open spec fn value(self) -> int {
        if self.bits < SIGN {
            size_of_pattern(self.pattern()) as int
        } else {
            -(size_of_pattern(self.pattern()) as int)
        }
    }

    /// `self > other`, which nothing is that is not a number.
    pub open spec fn above(self, other: Num) -> bool {
        !self.nan() && !other.nan() && self.value() > other.value()
    }

    /// `self >= other`.
    pub open spec fn at_least(self, other: Num) -> bool {
        !self.nan() && !other.nan() && self.value() >= other.value()
    }

    pub open spec fn zero() -> Num {
        Num { bits: 0 }
    }

    pub open spec fn one() -> Num {
        Num { bits: 0x3FF0_0000_0000_0000 }
    }

    /// A truth value as a number.
    pub open spec fn of_bool(b: bool) -> Num {
        if b {
            Num::one()
        } else {
            Num::zero()
        }
    }

    /// The whole part, and 0 for what is negative or not a number.
    pub open spec fn whole(self) -> nat {
        if self.nan() || self.bits >= SIGN {
            0
        } else {
            self.value() as nat / pow2(1074)
        }
    }

    /// The number without its fraction, and 0 for what is not a number.
    pub open spec fn truncated(self) -> int {
        if self.nan() {
            0
        } else if self.bits < SIGN {
            self.whole() as int
        } else {
            -(self.opposite().whole() as int)
        }
    }

    /// The same number with the other sign.
    pub open spec fn opposite(self) -> Num {
        Num {
            bits: if self.bits < SIGN {
                (self.bits + SIGN) as u64
            } else {
                (self.bits - SIGN) as u64
            },
        }
    }

    /// Where the number stands among all numbers. Both zeros stand at 0.
    pub open spec fn rank(self) -> int {
        if self.bits < SIGN {
            self.bits as int
        } else {
            SIGN - self.bits
        }
    }

    /// Numbers order as their patterns do: whole patterns for positive numbers, patterns
    /// without the sign bit in reverse for negative ones.
    pub proof fn law_rank_orders(self, other: Num)
        ensures
            self.rank() < other.rank() <==> self.value() < other.value(),
            self.rank() == other.rank() <==> self.value() == other.value(),
    {
        let p = self.pattern();
        let q = other.pattern();
        assert(size_of_pattern(0) == 0);
        if p < q {
            lemma_size_increases(p, q);
        } else if q < p {
            lemma_size_increases(q, p);
        }
        if p > 0 {
            lemma_size_increases(0, p);
        }
        if q > 0 {
            lemma_size_increases(0, q);
        }
    }

    /// Zero stands for nothing, and one for more than that.
    pub proof fn law_zero_is_nothing()
        ensures
            Num::zero().value() == 0,
            !Num::zero().nan(),
            Num::one().value() > 0,
            !Num::one().nan(),
    {
        assert(size_of_pattern(0) == 0);
        Num::law_truth_values(true);
    }

    /// The opposite of a number is its negative, and a number exactly when the number is one.
    pub proof fn law_opposite_negates(self)
        ensures
            self.opposite().value() == -self.value(),
            self.opposite().nan() == self.nan(),
            self.opposite().opposite() == self,
    {
    }

    /// A truth value is greater than zero exactly when it is true.
    pub proof fn law_truth_values(b: bool)
        ensures
            Num::of_bool(b).above(Num::zero()) == b,
    {
        Num::of_bool(b).law_rank_orders(Num::zero());
        Num::zero().law_rank_orders(Num::of_bool(b));
    }

    fn sorted(self) -> (r: i64)
        ensures
            r == self.rank(),
    {
        if self.bits < SIGN {
            self.bits as i64
        } else {
            -((self.bits - SIGN) as i64)
        }
    }

    /// Whether the pattern is not a number.
    pub fn is_nan(self) -> (r: bool)
        ensures
            r == self.nan(),
    {
        if self.bits < SIGN {
            self.bits > INFINITE
        } else {
            self.bits - SIGN > INFINITE
        }
    }

    /// `self > other`.
    pub fn gt(self, other: Num) -> (r: bool)
        ensures
            r == self.above(other),
    {
        proof {
            other.law_rank_orders(self);
        }
        !self.is_nan() && !other.is_nan() && self.sorted() > other.sorted()
    }

    /// `self < other`.
    pub fn lt(self, other: Num) -> (r: bool)
        ensures
            r == other.above(self),
    {
        other.gt(self)
    }

    /// `self >= other`.
    pub fn ge(self, other: Num) -> (r: bool)
        ensures
            r == self.at_least(other),
    {
        proof {
            other.law_rank_orders(self);
        }
        !self.is_nan() && !other.is_nan() && self.sorted() >= other.sorted()
    }

    /// `self <= other`.
    pub fn le(self, other: Num) -> (r: bool)
        ensures
            r == other.at_least(self),
    {
        other.ge(self)
    }

    /// Whether the number is a zero of either sign.
    pub fn is_zero(self) -> (r: bool)
        ensures
            r == (!self.nan() && self.value() == 0),
    {
        proof {
            self.law_rank_orders(Num::zero());
            assert(size_of_pattern(0) == 0);
        }
        self.bits == 0 || self.bits == SIGN
    }

    /// A number counts as true when it is greater than zero.
    pub fn is_true(self) -> (r: bool)
        ensures
            r == self.above(Num::zero()),
    {
        self.gt(Num { bits: 0 })
    }

    /// 1 for true, 0 for false.
    pub fn from_bool(b: bool) -> (r: Num)
        ensures
            r == Num::of_bool(b),
    {
        if b {
            Num { bits: 0x3FF0_0000_0000_0000 }
        } else {
            Num { bits: 0 }
        }
    }

    /// The number with the other sign.
    pub fn neg(self) -> (r: Num)
        ensures
            r == self.opposite(),
    {
        if self.bits < SIGN {
            Num { bits: self.bits + SIGN }
        } else {
            Num { bits: self.bits - SIGN }
        }
    }

    /// The whole part as far as a `u64` reaches.
    pub fn to_u64(self) -> (r: u64)
        ensures
            r == if self.whole() <= u64::MAX {
                self.whole()
            } else {
                u64::MAX as nat
            },
    {
        if self.is_nan() || self.bits >= SIGN {
            return 0;
        }
        let exponent: u64 = self.bits / STEP;
        let fraction: u64 = self.bits % STEP;
        if exponent == 0 {
            proof {
                lemma_pow2_value();
                lemma_pow2_strictly_increases(53, 1074);
                lemma_small_div(self.value() as nat, pow2(1074));
            }
            return 0;
        }
        let mantissa: u64 = STEP + fraction;
        proof {
            lemma_pow2_value();
        }
        if exponent <= 1075 {
            let down: u64 = 1075 - exponent;
            proof {
                lemma_scaled_down(mantissa as nat, exponent as nat);
            }
            if down >= 53 {
                proof {
                    if down > 53 {
                        lemma_pow2_strictly_increases(53, down as nat);
                    }
                    lemma_small_div(mantissa as nat, pow2(down as nat));
                }
                0
            } else {
                proof {
                    lemma_u64_shr_is_div(mantissa, down);
                    lemma_pow2_pos(down as nat);
                    lemma_quotient_bound(mantissa as nat, pow2(down as nat));
                }
                mantissa >> down
            }
        } else {
            let up: u64 = exponent - 1075;
            proof {
                lemma_scaled_up(mantissa as nat, exponent as nat);
            }
            if up > 11 {
                proof {
                    lemma_pow2_adds(52, up as nat);
                    if up > 12 {
                        lemma_pow2_strictly_increases(64, (52 + up) as nat);
                    }
                    lemma_mul_inequality(STEP as int, mantissa as int, pow2(up as nat) as int);
                }
                u64::MAX
            } else {
                proof {
                    lemma_pow2_adds(53, up as nat);
                    if up < 11 {
                        lemma_pow2_strictly_increases((53 + up) as nat, 64);
                    }
                    lemma_pow2_pos(up as nat);
                    lemma_mul_strict_inequality(
                        mantissa as int,
                        2 * STEP as int,
                        pow2(up as nat) as int,
                    );
                    lemma_u64_shl_is_mul(mantissa, up);
                }
                mantissa << up
            }
        }
    }

    /// The number without its fraction, as far as an `i64` reaches.
    pub fn to_i64(self) -> (r: i64)
        ensures
            r == if self.truncated() > i64::MAX {
                i64::MAX as int
            } else if self.truncated() < i64::MIN {
                i64::MIN as int
            } else {
                self.truncated()
            },
    {
        if self.is_nan() {
            return 0;
        }
        if self.bits < SIGN {
            let n = self.to_u64();
            if n > i64::MAX as u64 {
                i64::MAX
            } else {
                n as i64
            }
        } else {
            let n = self.neg().to_u64();
            if n > i64::MAX as u64 {
                i64::MIN
            } else {
                -(n as i64)
            }
        }
    }

    /// The whole part as far as a `usize` reaches.
    pub fn to_usize(self) -> (r: usize)
        ensures
            r == if self.whole() <= usize::MAX {
                self.whole()
            } else {
                usize::MAX as nat
            },
    {
        let n = self.to_u64();
        if n > usize::MAX as u64 {
            usize::MAX
        } else {
            n as usize
        }
    }
}

proof fn lemma_pow2_value()
    ensures
        pow2(52) == STEP,
        pow2(53) == 2 * STEP,
        pow2(64) == 0x1_0000_0000_0000_0000,
{
    vstd::arithmetic::power2::lemma2_to64();
    vstd::arithmetic::power2::lemma2_to64_rest();
}

proof fn lemma_size_increases(p: nat, q: nat)
    requires
        p < q,
    ensures
        size_of_pattern(p) < size_of_pattern(q),
{
    let step = STEP as int;
    lemma_fundamental_div_mod(p as int, step);
    lemma_fundamental_div_mod(q as int, step);
    let e1 = p / STEP as nat;
    let e2 = q / STEP as nat;
    let f1 = p % STEP as nat;
    let f2 = q % STEP as nat;
    assert(e1 <= e2) by (nonlinear_arith)
        requires
            p < q,
            step > 0,
            p == step * e1 + f1,
            q == step * e2 + f2,
            0 <= f1 < step,
            0 <= f2 < step,
    ;
    if e1 == e2 {
        if e1 > 0 {
            lemma_pow2_pos((e1 - 1) as nat);
            lemma_mul_strict_inequality(
                step + f1,
                step + f2,
                pow2((e1 - 1) as nat) as int,
            );
        }
    } else {
        let low: nat = if e1 == 0 {
            1
        } else {
            pow2((e1 - 1) as nat)
        };
        let high = pow2((e2 - 1) as nat);
        lemma_pow2_pos((e2 - 1) as nat);
        vstd::arithmetic::power2::lemma2_to64();
        assert(size_of_pattern(p) < 2 * step * low) by {
            if e1 > 0 {
                lemma_pow2_pos((e1 - 1) as nat);
                lemma_mul_strict_inequality(step + f1, 2 * step, low as int);
            }
        }
        if e1 == 0 {
            assert(size_of_pattern(p) < step);
            lemma_mul_inequality(1, high as int, step);
            lemma_mul_is_commutative(step, high as int);
            lemma_mul_inequality(step, step + f2, high as int);
        } else {
            if e1 < e2 - 1 {
                lemma_pow2_strictly_increases(e1, (e2 - 1) as nat);
            }
            lemma_pow2_unfold(e1);
            assert(2 * low <= high);
            assert(2 * step * low == step * (2 * low)) by (nonlinear_arith);
            lemma_mul_inequality(2 * low as int, high as int, step);
            lemma_mul_is_commutative(step, 2 * low as int);
            lemma_mul_is_commutative(step, high as int);
            lemma_mul_inequality(step, step + f2, high as int);
        }
    }
}

proof fn lemma_small_div(a: nat, d: nat)
    requires
        a < d,
    ensures
        a / d == 0,
{
    vstd::arithmetic::div_mod::lemma_basic_div(a as int, d as int);
}

proof fn lemma_quotient_bound(a: nat, d: nat)
    requires
        d > 0,
    ensures
        a / d <= a,
{
    vstd::arithmetic::div_mod::lemma_div_is_ordered_by_denominator(a as int, 1, d as int);
}

/// The unit of the value cancels below the unit of the whole part.
proof fn lemma_scaled_down(m: nat, e: nat)
    requires
        1 <= e <= 1075,
    ensures
        m * pow2((e - 1) as nat) / pow2(1074) == m / pow2((1075 - e) as nat),
{
    let a = pow2((e - 1) as nat);
    let d = pow2((1075 - e) as nat);
    lemma_pow2_adds((e - 1) as nat, (1075 - e) as nat);
    lemma_pow2_pos((e - 1) as nat);
    lemma_pow2_pos((1075 - e) as nat);
    lemma_div_denominator((m * a) as int, a as int, d as int);
    lemma_mul_is_commutative(m as int, a as int);
    lemma_div_multiples_vanish(m as int, a as int);
}

proof fn lemma_scaled_up(m: nat, e: nat)
    requires
        e >= 1075,
    ensures
        m * pow2((e - 1) as nat) / pow2(1074) == m * pow2((e - 1075) as nat),
{
    let a = pow2(1074);
    let d = pow2((e - 1075) as nat);
    lemma_pow2_adds(1074, (e - 1075) as nat);
    lemma_pow2_pos(1074);
    lemma_mul_is_associative(m as int, d as int, a as int);
    lemma_mul_is_commutative(a as int, d as int);
    lemma_mul_is_commutative((m * d) as int, a as int);
    lemma_div_multiples_vanish((m * d) as int, a as int);
}

/// Not a number is a pattern above that of infinity, with either sign.
pub proof fn law_patterns_above_infinity_are_no_numbers(x: Num)
    ensures
        x.nan() <==> 0x7FF0_0000_0000_0000 < x.bits < 0x8000_0000_0000_0000 || x.bits
            > 0xFFF0_0000_0000_0000,
{
}

/// One number is greater than another where both are numbers and its value is the greater;
/// the patterns show it: a positive one by a greater pattern, a negative one by a smaller
/// one, and any positive one but zero over any negative one.
pub proof fn law_the_greater_number_is_above(x: Num, y: Num)
    ensures
        x.above(y) <==> !x.nan() && !y.nan() && x.value() > y.value(),
        x.at_least(y) <==> !x.nan() && !y.nan() && x.value() >= y.value(),
        !x.nan() && !y.nan() && x.bits < 0x8000_0000_0000_0000 && y.bits < 0x8000_0000_0000_0000
            ==> (x.above(y) <==> x.bits > y.bits),
        !x.nan() && !y.nan() && x.bits >= 0x8000_0000_0000_0000 && y.bits
            >= 0x8000_0000_0000_0000 ==> (x.above(y) <==> x.bits < y.bits),
        !x.nan() && !y.nan() && 0 < x.bits < 0x8000_0000_0000_0000 && y.bits
            >= 0x8000_0000_0000_0000 ==> x.above(y),
{
    x.law_rank_orders(y);
    y.law_rank_orders(x);
}

/// The smallest positive number is the unit; one more in the exponent doubles a number, and
/// one is 2 to the power of 1074 units.
pub proof fn law_values_double_with_the_exponent(x: Num)
    ensures
        (Num { bits: 1 }).value() == 1,
        (Num { bits: 0x3FF0_0000_0000_0000 }).value() == pow2(1074),
        STEP <= x.bits < INFINITE ==> (Num { bits: (x.bits + STEP) as u64 }).value() == 2
            * x.value(),
        x.bits < STEP ==> x.value() == x.bits,
{
    let step = STEP as int;
    assert(size_of_pattern(1) == 1);
    lemma_pow2_value();
    let one = 0x3FF0_0000_0000_0000nat;
    assert(one / STEP as nat == 1023 && one % STEP as nat == 0);
    lemma_pow2_adds(52, 1022);
    if STEP <= x.bits < INFINITE {
        let p = x.bits as nat;
        let e = p / STEP as nat;
        let f = p % STEP as nat;
        lemma_fundamental_div_mod(p as int, step);
        assert(e >= 1) by (nonlinear_arith)
            requires
                p == step * e + f,
                p >= step,
                0 <= f < step,
                step > 0,
                e >= 0,
        ;
        vstd::arithmetic::div_mod::lemma_fundamental_div_mod_converse(
            p + step,
            step,
            e as int + 1,
            f as int,
        );
        lemma_pow2_unfold(e);
        let m = STEP as nat + f;
        let low = pow2((e - 1) as nat);
        assert(m * (2 * low) == 2 * (m * low)) by (nonlinear_arith);
    }
}

/// Numbers of one exponent are evenly spaced: each is one more step above the power of two
/// that they start from.
pub proof fn law_values_are_evenly_spaced(exponent: nat, fraction: nat)
    requires
        1 <= exponent < 2047,
        fraction < STEP,
    ensures
        (Num { bits: (exponent * STEP + fraction) as u64 }).value() == (STEP + fraction) * pow2(
            (exponent - 1) as nat,
        ),
{
    let p = exponent * STEP as nat + fraction;
    assert(p < 0x8000_0000_0000_0000) by (nonlinear_arith)
        requires
            exponent < 2047,
            fraction < STEP,
            p == exponent * STEP as nat + fraction,
    ;
    lemma_mul_is_commutative(exponent as int, STEP as int);
    vstd::arithmetic::div_mod::lemma_fundamental_div_mod_converse(
        p as int,
        STEP as int,
        exponent as int,
        fraction as int,
    );
}

/// The whole part is the greatest whole number that is not above the number; nothing that is
/// negative or no number has one. Cutting the fraction off keeps the sign.
pub proof fn law_whole_parts_are_just_below(x: Num)
    ensures
        !x.nan() && x.bits < 0x8000_0000_0000_0000 ==> x.whole() * pow2(1074) <= x.value() < (
        x.whole() + 1) * pow2(1074),
        x.nan() || x.bits >= 0x8000_0000_0000_0000 ==> x.whole() == 0,
        x.nan() ==> x.truncated() == 0,
        !x.nan() && x.bits < 0x8000_0000_0000_0000 ==> x.truncated() == x.whole(),
        !x.nan() ==> x.opposite().truncated() == -x.truncated(),
{
    lemma_pow2_pos(1074);
    if !x.nan() && x.bits < SIGN {
        let v = x.value();
        let one = pow2(1074) as int;
        lemma_fundamental_div_mod(v, one);
        let w = x.whole() as int;
        assert(v == one * w + v % one);
        assert(0 <= v % one < one) by {
            vstd::arithmetic::div_mod::lemma_mod_bound(v, one);
        }
        assert(w * one <= v < (w + 1) * one) by (nonlinear_arith)
            requires
                v == one * w + v % one,
                0 <= v % one < one,
        ;
    }
}

} // verus!
