//! Points in time, and the time between them.

use crate::double::{self, Double};
use crate::rounding;
use vstd::arithmetic::div_mod::*;
use vstd::arithmetic::power2::*;
use vstd::prelude::*;

verus! {

/// Nanoseconds in a second.
pub const NANOS_PER_SEC: u32 = 1_000_000_000;

/// A point in time, as the time since some fixed point before it.
#[derive(Debug, Clone, Copy)]
pub struct Timestamp {
    secs: u64,
    nanos: u32,
}

/// `nanos` nanoseconds as a number of seconds of double precision: the rounded
/// sum of the rounded number of whole seconds and the rounded fraction. In units
/// of 2^-82 seconds.
pub open spec fn seconds(nanos: nat) -> nat {
    rounding::rounded(
        rounding::rounded(double::integer_units(nanos / NANOS_PER_SEC as nat), 1)
            + rounding::rounded(
            double::integer_units(nanos % NANOS_PER_SEC as nat),
            NANOS_PER_SEC as nat,
        ),
        1,
    )
}

/// The nanoseconds from `earlier` to `later`, none if `earlier` is not earlier.
pub open spec fn nanos_between(earlier: nat, later: nat) -> nat {
    if later >= earlier {
        (later - earlier) as nat
    } else {
        0
    }
}

impl Timestamp {
    /// Nanoseconds since the fixed point.
    pub closed spec fn nanos(self) -> nat {
        (self.secs * NANOS_PER_SEC + self.nanos) as nat
    }

    #[verifier::type_invariant]
    spec fn valid(self) -> bool {
        self.nanos < NANOS_PER_SEC
    }

    /// The point in time `secs` seconds and `nanos` nanoseconds after the fixed
    /// point.
    pub fn new(secs: u64, nanos: u32) -> (timestamp: Self)
        requires
            nanos < NANOS_PER_SEC,
        ensures
            timestamp.nanos() == secs * NANOS_PER_SEC + nanos,
    {
        Self { secs, nanos }
    }

    /// The seconds from `earlier` to this point in time, none if `earlier` is not
    /// earlier.
    pub fn seconds_since(self, earlier: Self) -> (elapsed: Double)
        ensures
            elapsed.units() == seconds(nanos_between(earlier.nanos(), self.nanos())),
            elapsed.units() <= double::integer_units(0x2_0000_0000_0000_0000),
    {
        proof {
            use_type_invariant(&self);
            use_type_invariant(&earlier);
        }
        let (secs, nanos): (u64, u32) = if self.secs < earlier.secs || (self.secs == earlier.secs
            && self.nanos <= earlier.nanos) {
            (0, 0)
        } else if self.nanos >= earlier.nanos {
            (self.secs - earlier.secs, self.nanos - earlier.nanos)
        } else {
            (self.secs - earlier.secs - 1, NANOS_PER_SEC + self.nanos - earlier.nanos)
        };
        proof {
            let elapsed = nanos_between(earlier.nanos(), self.nanos());
            assert(elapsed == secs * 1_000_000_000 + nanos);
            lemma_fundamental_div_mod_converse(
                elapsed as int,
                NANOS_PER_SEC as int,
                secs as int,
                nanos as int,
            );
            seconds_are_bounded(secs as nat, nanos as nat);
        }
        Double::from_integer(secs).plus(Double::from_quotient(nanos, NANOS_PER_SEC))
    }
}

/// The fraction of a second, rounded, in units of 2^-82 seconds.
spec fn fraction(nanos: nat) -> nat {
    rounding::rounded(double::integer_units(nanos), NANOS_PER_SEC as nat)
}

/// A fraction of a second does not round up to a second.
proof fn fraction_is_less_than_one(nanos: nat)
    requires
        nanos < NANOS_PER_SEC,
    ensures
        fraction(nanos) < double::integer_units(1),
{
    let unit = pow2(82);
    let step = pow2(52);
    let below = (0x3fff_ffff * step) as nat;
    lemma2_to64();
    lemma2_to64_rest();
    lemma_pow2_adds(30, 52);
    assert(unit == 0x4000_0000 * step);
    assert(nanos * unit <= NANOS_PER_SEC as nat * below) by (nonlinear_arith)
        requires
            nanos <= 999_999_999,
            NANOS_PER_SEC == 1_000_000_000,
            unit == 0x4000_0000 * step,
            below == 0x3fff_ffff * step,
            step >= 0,
    ;
    rounding::rounded_is_monotonic(
        nanos * unit,
        NANOS_PER_SEC as nat * below,
        NANOS_PER_SEC as nat,
    );
    rounding::rounded_of_multiples(NANOS_PER_SEC as nat, below, 1);
    rounding::rounded_is_exact(0x3fff_ffff, 52);
}

/// How many seconds can lie between two points in time.
proof fn seconds_are_bounded(secs: nat, nanos: nat)
    requires
        secs <= u64::MAX,
        nanos < NANOS_PER_SEC,
    ensures
        rounding::rounded(double::integer_units(secs), 1) + fraction(nanos)
            <= double::integer_units(0x2_0000_0000_0000_0000),
        rounding::rounded(
            rounding::rounded(double::integer_units(secs), 1) + fraction(nanos),
            1,
        ) <= double::integer_units(0x2_0000_0000_0000_0000),
        double::integer_units(0x2_0000_0000_0000_0000) <= double::units_limit(),
{
    let unit = pow2(82);
    let most = pow2(64);
    fraction_is_less_than_one(nanos);
    lemma2_to64();
    lemma_pow2_pos(82);
    assert(secs * unit <= most * unit) by (nonlinear_arith)
        requires
            secs <= most,
    ;
    rounding::rounded_is_monotonic(secs * unit, most * unit, 1);
    lemma_pow2_adds(64, 82);
    rounding::rounded_is_exact(1, 146);
    rounding::rounded_is_exact(1, 147);
    lemma_pow2_unfold(147);
    assert(double::integer_units(0x2_0000_0000_0000_0000) == pow2(147));
    let sum = rounding::rounded(double::integer_units(secs), 1) + fraction(nanos);
    rounding::rounded_is_monotonic(sum, pow2(147), 1);
    lemma_pow2_strictly_increases(147, 200);
}

/// More time is not fewer seconds.
pub proof fn seconds_are_monotonic(nanos1: nat, nanos2: nat)
    requires
        nanos1 <= nanos2,
    ensures
        seconds(nanos1) <= seconds(nanos2),
{
    let unit = pow2(82);
    let s1 = nanos1 / NANOS_PER_SEC as nat;
    let s2 = nanos2 / NANOS_PER_SEC as nat;
    let n1 = nanos1 % NANOS_PER_SEC as nat;
    let n2 = nanos2 % NANOS_PER_SEC as nat;
    let whole1 = rounding::rounded(s1, 1);
    let whole2 = rounding::rounded(s2, 1);
    let sum1 = whole1 * unit + fraction(n1);
    let sum2 = whole2 * unit + fraction(n2);
    rounding::rounded_scales(s1, 82);
    rounding::rounded_scales(s2, 82);
    lemma_pow2_pos(82);
    if s1 == s2 {
        assert(n1 * unit <= n2 * unit) by (nonlinear_arith)
            requires
                n1 <= n2,
        ;
        rounding::rounded_is_monotonic(n1 * unit, n2 * unit, NANOS_PER_SEC as nat);
        rounding::rounded_is_monotonic(sum1, sum2, 1);
    } else {
        fraction_is_less_than_one(n1);
        rounding::rounded_is_monotonic(s1, s2, 1);
        if s1 < rounding::SIGNIFICAND_LIMIT {
            rounding::rounded_is_monotonic(s1 + 1, s2, 1);
            lemma2_to64();
            rounding::rounded_is_exact(s1, 0);
            rounding::rounded_is_exact(s1 + 1, 0);
            assert(whole1 + 1 <= whole2);
            later_whole_second(whole1, whole2, fraction(n1), unit);
            rounding::rounded_is_monotonic(sum1, sum2, 1);
        } else if whole1 < whole2 {
            later_whole_second(whole1, whole2, fraction(n1), unit);
            rounding::rounded_is_monotonic(sum1, sum2, 1);
        } else {
            fraction_is_less_than_one(n2);
            fraction_is_lost(s1, fraction(n1));
            fraction_is_lost(s2, fraction(n2));
        }
    }
}

/// Less than a second does not make up for a later whole second.
proof fn later_whole_second(whole1: nat, whole2: nat, part: nat, unit: nat)
    requires
        whole1 < whole2,
        part < unit,
    ensures
        whole1 * unit + part <= whole2 * unit,
{
    assert(whole1 * unit + part <= whole2 * unit) by (nonlinear_arith)
        requires
            whole1 + 1 <= whole2,
            part < unit,
    ;
}

/// From 2^53 seconds on, a fraction of a second is lost.
proof fn fraction_is_lost(secs: nat, part: nat)
    requires
        secs >= rounding::SIGNIFICAND_LIMIT,
        part < double::integer_units(1),
    ensures
        ({
            let whole = rounding::rounded(secs, 1) * pow2(82);
            rounding::rounded(whole + part, 1) == whole
        }),
{
    let unit = pow2(83);
    let half = rounding::rounded(secs, 2);
    let whole = rounding::rounded(secs, 1) * pow2(82);
    lemma_pow2_unfold(83);
    lemma_pow2_pos(83);
    rounding::rounded_is_idempotent(secs, 2);
    rounding::rounded_is_monotonic(rounding::SIGNIFICAND_LIMIT as nat, secs, 2);
    lemma2_to64();
    rounding::rounded_is_exact(rounding::SIGNIFICAND_LIMIT as nat, 0);
    assert(half >= rounding::SIGNIFICAND_LIMIT / 2);
    assert(whole == unit * half && whole == half * unit) by (nonlinear_arith)
        requires
            whole == (2 * half) * pow2(82),
            unit == 2 * pow2(82),
    ;
    assert((rounding::SIGNIFICAND_LIMIT / 2) * unit <= whole) by (nonlinear_arith)
        requires
            half >= rounding::SIGNIFICAND_LIMIT / 2,
            whole == half * unit,
    ;
    rounding::rounded_at_place(whole + part, 1, 83);
    rounding::rounded_drops_small(half, unit, part);
}

/// Rounding makes time longer by at most two parts in 2^53, and a little.
pub proof fn seconds_are_close(nanos: nat)
    ensures
        seconds(nanos) * NANOS_PER_SEC * rounding::SIGNIFICAND_LIMIT * rounding::SIGNIFICAND_LIMIT
            <= double::integer_units(nanos) * (rounding::SIGNIFICAND_LIMIT + 1) * (
        rounding::SIGNIFICAND_LIMIT + 1),
{
    let unit = pow2(82);
    let limit = rounding::SIGNIFICAND_LIMIT as nat;
    let sec = NANOS_PER_SEC as nat;
    let secs = nanos / sec;
    let part = nanos % sec;
    let whole = rounding::rounded(secs * unit, 1);
    let frac = rounding::rounded(part * unit, sec);
    let sum = whole + frac;
    let result = rounding::rounded(sum, 1);
    lemma_fundamental_div_mod(nanos as int, sec as int);
    rounding::rounded_is_close(secs * unit, 1);
    lemma2_to64();
    lemma2_to64_rest();
    lemma_pow2_adds(30, 52);
    assert(part * unit == 0 || part * unit >= sec * (limit / 2)) by (nonlinear_arith)
        requires
            unit == 0x4000_0000 * pow2(52),
            pow2(52) == limit / 2,
            sec <= 0x4000_0000,
    ;
    rounding::rounded_is_close(part * unit, sec);
    rounding::rounded_is_close(sum, 1);
    assert(sum * sec * limit <= (nanos * unit) * (limit + 1)) by (nonlinear_arith)
        requires
            whole * 1 * limit <= (secs * unit) * (limit + 1),
            frac * sec * limit <= (part * unit) * (limit + 1),
            sum == whole + frac,
            nanos == sec * secs + part,
            sec >= 0,
    {
        assert(whole * limit * sec <= (secs * unit) * (limit + 1) * sec);
        assert((whole + frac) * sec * limit == whole * limit * sec + frac * sec * limit);
        assert((secs * unit) * (limit + 1) * sec + (part * unit) * (limit + 1) == ((sec * secs
            + part) * unit) * (limit + 1));
    }
    assert(result * sec * limit * limit <= (nanos * unit) * (limit + 1) * (limit + 1)) by (
    nonlinear_arith)
        requires
            result * 1 * limit <= sum * (limit + 1),
            sum * sec * limit <= (nanos * unit) * (limit + 1),
            sec >= 0,
            limit >= 0,
    {
        let bound = (nanos * unit) * (limit + 1);
        assert(result * limit * (sec * limit) <= (sum * (limit + 1)) * (sec * limit));
        assert((sum * (limit + 1)) * (sec * limit) == (sum * sec * limit) * (limit + 1));
        assert((sum * sec * limit) * (limit + 1) <= bound * (limit + 1));
        assert(result * sec * limit * limit == result * limit * (sec * limit));
    }
}

/// Rounding makes time shorter by at most two parts in 2^53.
pub proof fn seconds_are_not_short(nanos: nat)
    ensures
        seconds(nanos) * NANOS_PER_SEC * rounding::SIGNIFICAND_LIMIT * rounding::SIGNIFICAND_LIMIT
            >= double::integer_units(nanos) * (rounding::SIGNIFICAND_LIMIT - 1) * (
        rounding::SIGNIFICAND_LIMIT - 1),
{
    let unit = pow2(82);
    let limit = rounding::SIGNIFICAND_LIMIT as nat;
    let less = (limit - 1) as nat;
    let sec = NANOS_PER_SEC as nat;
    let secs = nanos / sec;
    let part = nanos % sec;
    let whole = rounding::rounded(secs * unit, 1);
    let frac = rounding::rounded(part * unit, sec);
    let sum = whole + frac;
    let result = rounding::rounded(sum, 1);
    lemma_fundamental_div_mod(nanos as int, sec as int);
    rounding::rounded_is_not_short(secs * unit, 1);
    lemma2_to64();
    lemma2_to64_rest();
    lemma_pow2_adds(30, 52);
    assert(part * unit == 0 || part * unit >= sec * (limit / 2)) by (nonlinear_arith)
        requires
            unit == 0x4000_0000 * pow2(52),
            pow2(52) == limit / 2,
            sec <= 0x4000_0000,
    ;
    rounding::rounded_is_not_short(part * unit, sec);
    rounding::rounded_is_not_short(sum, 1);
    assert(sum * sec * limit >= (nanos * unit) * less) by (nonlinear_arith)
        requires
            whole * 1 * limit >= (secs * unit) * less,
            frac * sec * limit >= (part * unit) * less,
            sum == whole + frac,
            nanos == sec * secs + part,
            sec >= 0,
    {
        assert(whole * limit * sec >= (secs * unit) * less * sec);
        assert((whole + frac) * sec * limit == whole * limit * sec + frac * sec * limit);
        assert((secs * unit) * less * sec + (part * unit) * less == ((sec * secs + part) * unit)
            * less);
    }
    assert(result * sec * limit * limit >= (nanos * unit) * less * less) by (nonlinear_arith)
        requires
            result * 1 * limit >= sum * less,
            sum * sec * limit >= (nanos * unit) * less,
            sec >= 0,
            limit >= 0,
            less >= 0,
    {
        let bound = (nanos * unit) * less;
        assert(result * limit * (sec * limit) >= (sum * less) * (sec * limit));
        assert((sum * less) * (sec * limit) == (sum * sec * limit) * less);
        assert((sum * sec * limit) * less >= bound * less);
        assert(result * sec * limit * limit == result * limit * (sec * limit));
    }
}

/// The time from one point to a later one is the time that leads from one to the other.
/// There is none to an earlier one.
pub proof fn time_leads_from_one_to_the_other(earlier: nat, later: nat)
    ensures
        earlier <= later ==> earlier + nanos_between(earlier, later) == later,
        later <= earlier ==> nanos_between(earlier, later) == 0,
{
}

/// Seconds are rounded three times: the whole seconds, the fraction of a second, and
/// their sum.
pub proof fn seconds_are_rounded_thrice(secs: nat, part: nat)
    requires
        part < 1_000_000_000,
    ensures
        seconds(secs * 1_000_000_000 + part) == rounding::rounded(
            rounding::rounded(secs * pow2(82), 1) + rounding::rounded(
                part * pow2(82),
                1_000_000_000,
            ),
            1,
        ),
{
    lemma_fundamental_div_mod_converse(
        (secs * 1_000_000_000 + part) as int,
        1_000_000_000,
        secs as int,
        part as int,
    );
}

} // verus!
