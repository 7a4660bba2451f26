//! Non-negative numbers of double precision, in integer arithmetic.
//!
//! A [`Double`] has a significand of 53 bits and a binary exponent. Its operations
//! round as IEEE 754 prescribes for the binary64 format: to the nearest number,
//! and of two that are as near to the one with the even significand. Negative
//! numbers, infinities and numbers below 2^-82 are left out: nothing here
//! produces one.

use crate::rounding::{self, SIGNIFICAND_LIMIT};
use vstd::arithmetic::div_mod::*;
use vstd::arithmetic::power2::*;
use vstd::prelude::*;

verus! {

/// Half of [`SIGNIFICAND_LIMIT`], 2^52: the least significand of a normalised
/// number.
const NORMAL_SIGNIFICAND: u64 = 0x10_0000_0000_0000;

/// The exponent at which a significand counts whole numbers.
pub const INTEGER_EXPONENT: u32 = 82;

/// Above every exponent that occurs.
const EXPONENT_LIMIT: u32 = 400;

/// The number `significand * 2^(exponent - 82)`.
#[derive(Debug, Clone, Copy)]
pub struct Double {
    significand: u64,
    exponent: u32,
}

/// How many units of 2^-82 make up the whole number `n`.
pub open spec fn integer_units(n: nat) -> nat {
    n * pow2(INTEGER_EXPONENT as nat)
}

/// Every number that occurs is below this many units.
pub open spec fn units_limit() -> nat {
    pow2(200)
}

/// `num / den` rounded to 53 significant bits, as a significand and the power of
/// two that it is to be multiplied by.
fn round_quotient(num: u128, den: u128) -> (parts: (u64, u32))
    requires
        den > 0,
    ensures
        parts.0 <= SIGNIFICAND_LIMIT,
        parts.1 <= 128,
        parts.0 * pow2(parts.1 as nat) == rounding::rounded(num as nat, den as nat),
{
    let mut scaled: u128 = den;
    let mut shift: u32 = 0;
    proof {
        lemma2_to64();
        assert(rounding::rounded(num as nat, den as nat) * 1 == rounding::rounded(
            num as nat,
            den as nat,
        )) by (nonlinear_arith);
    }
    while scaled <= num / 0x20_0000_0000_0000
        invariant
            scaled > 0,
            shift <= 128,
            pow2(shift as nat) <= scaled,
            rounding::rounded(num as nat, scaled as nat) * pow2(shift as nat) == rounding::rounded(
                num as nat,
                den as nat,
            ),
        decreases num - scaled,
    {
        proof {
            lemma2_to64();
            lemma2_to64_rest();
            if shift >= 127 {
                lemma_pow2_adds(63, 64);
                assert(pow2(127) >= 0x8000_0000_0000_0000 * pow2(64)) by (nonlinear_arith)
                    requires
                        pow2(63) == 0x8000_0000_0000_0000,
                        pow2(127) == pow2(63) * pow2(64),
                ;
                if shift > 127 {
                    lemma_pow2_strictly_increases(127, shift as nat);
                }
                assert(scaled < 0x8000_0000_0000_0000 * 0x1_0000_0000_0000_0000);
            }
            lemma_pow2_unfold((shift + 1) as nat);
            let r = rounding::rounded(num as nat, 2 * scaled as nat);
            assert((2 * r) * pow2(shift as nat) == r * pow2((shift + 1) as nat)) by (
            nonlinear_arith)
                requires
                    pow2((shift + 1) as nat) == 2 * pow2(shift as nat),
            ;
        }
        scaled = 2 * scaled;
        shift = shift + 1;
    }
    let quotient: u128 = num / scaled;
    let remainder: u128 = num % scaled;
    proof {
        lemma_fundamental_div_mod(num as int, scaled as int);
        assert(quotient < SIGNIFICAND_LIMIT) by (nonlinear_arith)
            requires
                num == scaled * quotient + remainder,
                0 <= remainder,
                num < scaled * SIGNIFICAND_LIMIT,
                scaled > 0,
        ;
    }
    let down: bool = remainder < scaled - remainder || (remainder == scaled - remainder && quotient
        % 2 == 0);
    if down {
        (quotient as u64, shift)
    } else {
        ((quotient + 1) as u64, shift)
    }
}

impl Double {
    /// The number, in units of 2^-82.
    pub closed spec fn units(self) -> nat {
        self.significand as nat * pow2(self.exponent as nat)
    }

    /// The significand has all its bits, unless the number is too small for that.
    #[verifier::type_invariant]
    spec fn normalised(self) -> bool {
        &&& self.significand < SIGNIFICAND_LIMIT
        &&& self.exponent < EXPONENT_LIMIT
        &&& self.exponent > 0 ==> self.significand >= NORMAL_SIGNIFICAND
    }

    /// The number `significand * 2^(exponent - 82)`, in normal form.
    fn normalise(significand: u64, exponent: u32) -> (number: Self)
        requires
            significand <= SIGNIFICAND_LIMIT,
            exponent < 1000,
            significand as nat * pow2(exponent as nat) <= units_limit(),
        ensures
            number.units() == significand as nat * pow2(exponent as nat),
    {
        let mut significand: u64 = significand;
        let mut exponent: u32 = exponent;
        let ghost units = significand as nat * pow2(exponent as nat);
        if significand == SIGNIFICAND_LIMIT {
            proof {
                lemma_pow2_unfold((exponent + 1) as nat);
                assert(NORMAL_SIGNIFICAND as nat * pow2((exponent + 1) as nat)
                    == SIGNIFICAND_LIMIT as nat * pow2(exponent as nat)) by (nonlinear_arith)
                    requires
                        pow2((exponent + 1) as nat) == 2 * pow2(exponent as nat),
                        2 * NORMAL_SIGNIFICAND == SIGNIFICAND_LIMIT,
                ;
            }
            significand = NORMAL_SIGNIFICAND;
            exponent = exponent + 1;
        }
        while significand < NORMAL_SIGNIFICAND && exponent > 0
            invariant
                significand < SIGNIFICAND_LIMIT,
                exponent <= 1000,
                significand as nat * pow2(exponent as nat) == units,
            decreases exponent,
        {
            proof {
                lemma_pow2_unfold(exponent as nat);
                let half = pow2((exponent - 1) as nat);
                assert((2 * significand) as nat * half == significand as nat * (2 * half)) by (
                nonlinear_arith);
            }
            significand = 2 * significand;
            exponent = exponent - 1;
        }
        proof {
            if exponent >= EXPONENT_LIMIT {
                lemma_pow2_strictly_increases(200, 201);
                exponent_is_bounded(significand as nat, exponent as nat, 201);
            }
        }
        Self { significand, exponent }
    }

    /// `num * 2^(exponent - 82)`, rounded.
    fn round(num: u128, exponent: u32) -> (number: Self)
        requires
            exponent < EXPONENT_LIMIT,
            num as nat * pow2(exponent as nat) <= units_limit(),
        ensures
            number.units() == rounding::rounded(num as nat * pow2(exponent as nat), 1),
    {
        let (significand, shift) = round_quotient(num, 1);
        proof {
            let m = significand as nat;
            rounding::rounded_scales(num as nat, exponent as nat);
            lemma_pow2_adds(shift as nat, exponent as nat);
            assert(m * pow2((exponent + shift) as nat) == (m * pow2(shift as nat)) * pow2(
                exponent as nat,
            )) by (nonlinear_arith)
                requires
                    pow2((exponent + shift) as nat) == pow2(shift as nat) * pow2(exponent as nat),
            ;
            rounded_below_limit(num as nat * pow2(exponent as nat));
        }
        Self::normalise(significand, exponent + shift)
    }

    /// A whole number.
    pub fn from_integer(n: u64) -> (number: Self)
        ensures
            number.units() == rounding::rounded(integer_units(n as nat), 1),
            n <= u32::MAX ==> number.units() == integer_units(n as nat),
    {
        proof {
            lemma2_to64();
            product_is_bounded(n as nat, 64, INTEGER_EXPONENT as nat);
            if n <= u32::MAX {
                rounding::rounded_is_exact(n as nat, INTEGER_EXPONENT as nat);
            }
        }
        Self::round(n as u128, INTEGER_EXPONENT)
    }

    /// The quotient of two whole numbers. The divisor is at most 2^30, so that
    /// the quotient is 0 or has all its bits above 2^-82.
    pub fn from_quotient(num: u32, den: u32) -> (number: Self)
        requires
            0 < den <= 0x4000_0000,
        ensures
            number.units() == rounding::rounded(integer_units(num as nat), den as nat),
    {
        proof {
            integer_exponent_power();
        }
        let (significand, shift) = round_quotient(
            num as u128 * 0x4_0000_0000_0000_0000_0000,
            den as u128,
        );
        proof {
            lemma2_to64();
            assert(SIGNIFICAND_LIMIT as nat <= pow2(64));
            product_is_bounded(significand as nat, 64, shift as nat);
        }
        Self::normalise(significand, shift)
    }

    /// The sum of two numbers.
    pub fn plus(self, other: Self) -> (sum: Self)
        requires
            self.units() + other.units() <= units_limit(),
        ensures
            sum.units() == rounding::rounded(self.units() + other.units(), 1),
    {
        proof {
            use_type_invariant(&self);
            use_type_invariant(&other);
        }
        let (high, low) = if self.exponent >= other.exponent {
            (self, other)
        } else {
            (other, self)
        };
        let gap: u32 = high.exponent - low.exponent;
        if gap > 64 {
            proof {
                far_sum(high.significand as nat, high.exponent as nat, low.significand as nat,
                    low.exponent as nat);
            }
            return high;
        }
        let scale: u128 = power_of_two(gap);
        proof {
            lemma2_to64();
            if gap < 64 {
                lemma_pow2_strictly_increases(gap as nat, 64);
            }
            assert(high.significand * scale < 0x20_0000_0000_0000 * 0x1_0000_0000_0000_0001) by (
            nonlinear_arith)
                requires
                    high.significand < 0x20_0000_0000_0000,
                    scale <= 0x1_0000_0000_0000_0000,
            ;
            lemma_pow2_adds(gap as nat, low.exponent as nat);
            let h = high.significand as nat;
            let l = low.significand as nat;
            let p = pow2(low.exponent as nat);
            assert((h * pow2(gap as nat) + l) * p == h * (pow2(gap as nat) * p) + l * p) by (
            nonlinear_arith);
        }
        let num: u128 = high.significand as u128 * scale + low.significand as u128;
        Self::round(num, low.exponent)
    }

    /// The product with a whole number.
    pub fn times(self, factor: u32) -> (product: Self)
        requires
            self.units() * factor <= units_limit(),
        ensures
            product.units() == rounding::rounded(self.units() * factor as nat, 1),
    {
        proof {
            use_type_invariant(&self);
            let s = self.significand as nat;
            let p = pow2(self.exponent as nat);
            assert(s * factor < 0x20_0000_0000_0000 * 0x1_0000_0000) by (nonlinear_arith)
                requires
                    s < 0x20_0000_0000_0000,
                    factor < 0x1_0000_0000,
            ;
            assert((s * factor as nat) * p == (s * p) * factor as nat) by (nonlinear_arith);
        }
        Self::round(self.significand as u128 * factor as u128, self.exponent)
    }

    /// Whether the number is at most `other`.
    pub fn at_most(self, other: Self) -> (result: bool)
        ensures
            result == (self.units() <= other.units()),
    {
        proof {
            use_type_invariant(&self);
            use_type_invariant(&other);
            if self.exponent < other.exponent {
                smaller_exponent(self.significand as nat, self.exponent as nat,
                    other.significand as nat, other.exponent as nat);
            } else if other.exponent < self.exponent {
                smaller_exponent(other.significand as nat, other.exponent as nat,
                    self.significand as nat, self.exponent as nat);
            } else {
                let p = pow2(self.exponent as nat);
                lemma_pow2_pos(self.exponent as nat);
                let a = self.significand as nat;
                let b = other.significand as nat;
                assert((a <= b) == (a * p <= b * p)) by (nonlinear_arith)
                    requires
                        p > 0,
                ;
            }
        }
        self.exponent < other.exponent || (self.exponent == other.exponent && self.significand
            <= other.significand)
    }

    /// The smaller of two numbers.
    pub fn min(self, other: Self) -> (smaller: Self)
        ensures
            smaller.units() == vstd::math::min(self.units() as int, other.units() as int),
    {
        if self.at_most(other) {
            self
        } else {
            other
        }
    }

    /// One less than the number. The difference needs no rounding below 2^53.
    pub fn minus_one(self) -> (difference: Self)
        requires
            integer_units(1) <= self.units() < integer_units(SIGNIFICAND_LIMIT as nat),
        ensures
            difference.units() == self.units() - integer_units(1),
    {
        proof {
            use_type_invariant(&self);
            one_is_representable(self.significand as nat, self.exponent as nat);
        }
        let one: u128 = power_of_two(INTEGER_EXPONENT - self.exponent);
        proof {
            difference_of_scaled(self.significand as nat, one as nat, self.exponent as nat);
        }
        Self::normalise(self.significand - one as u64, self.exponent)
    }
}

/// A power of two that fits.
fn power_of_two(exponent: u32) -> (power: u128)
    requires
        exponent <= 64,
    ensures
        power == pow2(exponent as nat),
{
    let mut power: u128 = 1;
    let mut k: u32 = 0;
    proof {
        lemma2_to64();
    }
    while k < exponent
        invariant
            k <= exponent <= 64,
            power == pow2(k as nat),
        decreases exponent - k,
    {
        proof {
            lemma2_to64();
            lemma_pow2_strictly_increases(k as nat, 64);
            lemma_pow2_unfold((k + 1) as nat);
        }
        power = 2 * power;
        k = k + 1;
    }
    power
}

/// A whole number is a multiple of 2^82 units.
proof fn integer_exponent_power()
    ensures
        pow2(INTEGER_EXPONENT as nat) == 0x4_0000_0000_0000_0000_0000,
{
    lemma2_to64();
    lemma_pow2_adds(18, 64);
    assert(pow2(18) * pow2(64) == 0x4_0000_0000_0000_0000_0000) by (nonlinear_arith)
        requires
            pow2(18) == 0x4_0000,
            pow2(64) == 0x1_0000_0000_0000_0000,
    ;
}

/// A number more than 64 places below a normalised one is lost in their sum.
proof fn far_sum(high: nat, high_exponent: nat, low: nat, low_exponent: nat)
    requires
        NORMAL_SIGNIFICAND <= high < SIGNIFICAND_LIMIT,
        low < SIGNIFICAND_LIMIT,
        high_exponent > low_exponent + 64,
    ensures
        rounding::rounded(high * pow2(high_exponent) + low * pow2(low_exponent), 1) == high * pow2(
            high_exponent,
        ),
{
    let p = pow2(high_exponent);
    let q = pow2(low_exponent);
    let small = low * q;
    lemma2_to64();
    lemma_pow2_adds(64, low_exponent);
    lemma_pow2_strictly_increases(64 + low_exponent, high_exponent);
    assert(2 * small < p) by (nonlinear_arith)
        requires
            low < 0x20_0000_0000_0000,
            small == low * q,
            0x1_0000_0000_0000_0000 * q < p,
            q >= 0,
    ;
    let sum = high * p + small;
    assert(sum >= NORMAL_SIGNIFICAND * p && sum == p * high + small) by (nonlinear_arith)
        requires
            NORMAL_SIGNIFICAND <= high,
            sum == high * p + small,
            0 <= small,
    ;
    rounding::rounded_at_place(sum, 1, high_exponent);
    rounding::rounded_drops_small(high, p, small);
}

/// Of two normalised numbers the one with the smaller exponent is smaller.
proof fn smaller_exponent(a: nat, a_exponent: nat, b: nat, b_exponent: nat)
    requires
        a < SIGNIFICAND_LIMIT,
        b >= NORMAL_SIGNIFICAND,
        a_exponent < b_exponent,
    ensures
        a * pow2(a_exponent) < b * pow2(b_exponent),
{
    let p = pow2(a_exponent);
    let q = pow2(b_exponent);
    lemma_pow2_pos(a_exponent);
    lemma_pow2_unfold(a_exponent + 1);
    if a_exponent + 1 < b_exponent {
        lemma_pow2_strictly_increases(a_exponent + 1, b_exponent);
    }
    assert(a * p < b * q) by (nonlinear_arith)
        requires
            a < 0x20_0000_0000_0000,
            b >= 0x10_0000_0000_0000,
            2 * p <= q,
            p > 0,
    ;
}

/// Where 1 stands among the bits of a number between 1 and 2^53.
proof fn one_is_representable(significand: nat, exponent: nat)
    requires
        significand < SIGNIFICAND_LIMIT,
        exponent > 0 ==> significand >= NORMAL_SIGNIFICAND,
        integer_units(1) <= significand * pow2(exponent) < integer_units(SIGNIFICAND_LIMIT as nat),
    ensures
        30 <= exponent <= INTEGER_EXPONENT,
        pow2((INTEGER_EXPONENT - exponent) as nat) <= significand,
        pow2((INTEGER_EXPONENT - exponent) as nat) * pow2(exponent) == integer_units(1),
        significand * pow2(exponent) <= units_limit(),
{
    let p = pow2(exponent);
    lemma2_to64();
    lemma2_to64_rest();
    lemma_pow2_pos(exponent);
    integer_exponent_power();
    lemma_pow2_adds(53, INTEGER_EXPONENT as nat);
    assert(integer_units(1) == pow2(82));
    assert(integer_units(SIGNIFICAND_LIMIT as nat) == pow2(135));
    lemma_pow2_strictly_increases(135, 200);
    if exponent > 0 {
        exponent_is_bounded(significand, exponent, 135);
    }
    if exponent < 30 {
        lemma_pow2_strictly_increases(exponent, 30);
        lemma_pow2_adds(53, 29);
        if exponent < 29 {
            lemma_pow2_strictly_increases(exponent, 29);
        }
        assert(significand * p < pow2(53) * pow2(29)) by (nonlinear_arith)
            requires
                significand < pow2(53),
                p <= pow2(29),
                p > 0,
        ;
    }
    let one = pow2((82 - exponent) as nat);
    lemma_pow2_adds((82 - exponent) as nat, exponent);
    assert(one <= significand) by (nonlinear_arith)
        requires
            one * p <= significand * p,
            p > 0,
    ;
}

proof fn difference_of_scaled(a: nat, b: nat, exponent: nat)
    requires
        b <= a,
    ensures
        (a - b) as nat * pow2(exponent) == a * pow2(exponent) - b * pow2(exponent),
        (a - b) as nat * pow2(exponent) <= a * pow2(exponent),
{
    let p = pow2(exponent);
    assert((a - b) * p == a * p - b * p) by (nonlinear_arith);
    assert(b * p >= 0) by (nonlinear_arith);
}

/// A normalised number below `2^limit` has an exponent below `limit`.
proof fn exponent_is_bounded(significand: nat, exponent: nat, limit: nat)
    requires
        significand >= NORMAL_SIGNIFICAND,
        significand * pow2(exponent) < pow2(limit),
    ensures
        exponent + 52 < limit,
{
    if exponent + 52 >= limit {
        lemma2_to64_rest();
        lemma_pow2_adds(52, exponent);
        assert(pow2(52) * pow2(exponent) <= significand * pow2(exponent)) by (nonlinear_arith)
            requires
                pow2(52) <= significand,
        ;
        if exponent + 52 > limit {
            lemma_pow2_strictly_increases(limit, exponent + 52);
        }
    }
}

/// Rounding does not carry a number over the limit.
proof fn rounded_below_limit(units: nat)
    requires
        units <= units_limit(),
    ensures
        rounding::rounded(units, 1) <= units_limit(),
{
    rounding::rounded_is_monotonic(units, units_limit(), 1);
    rounding::rounded_is_exact(1, 200);
    assert(1 * pow2(200) == pow2(200)) by (nonlinear_arith);
}

/// A number of `bits` bits, scaled by `2^exponent`, is within the limit where
/// the two make up at most 200 bits.
proof fn product_is_bounded(n: nat, bits: nat, exponent: nat)
    requires
        n <= pow2(bits),
        bits + exponent <= 200,
    ensures
        n * pow2(exponent) <= pow2(bits + exponent),
        n * pow2(exponent) <= units_limit(),
{
    lemma_pow2_adds(bits, exponent);
    assert(n * pow2(exponent) <= pow2(bits) * pow2(exponent)) by (nonlinear_arith)
        requires
            n <= pow2(bits),
    ;
    if bits + exponent < 200 {
        lemma_pow2_strictly_increases(bits + exponent, 200);
    }
}

/// Units add up, and one is 2^82 of them.
pub proof fn units_add_up(a: nat, b: nat)
    ensures
        integer_units(a + b) == integer_units(a) + integer_units(b),
        integer_units(1) == 0x4_0000_0000_0000_0000_0000,
        integer_units(a) == a * 0x4_0000_0000_0000_0000_0000,
{
    integer_exponent_power();
    assert((a + b) * pow2(82) == a * pow2(82) + b * pow2(82)) by (nonlinear_arith);
}

} // verus!
