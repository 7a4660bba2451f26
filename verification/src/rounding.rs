//! Rounding to 53 significant bits, to the nearest and halves to even.

use vstd::arithmetic::div_mod::*;
use vstd::arithmetic::power2::*;
use vstd::prelude::*;

verus! {

/// The first number with more than 53 significant bits is above this one, 2^53.
pub const SIGNIFICAND_LIMIT: u64 = 0x20_0000_0000_0000;

/// The integer nearest to `num / den`, the even one of two that are as near.
pub open spec fn nearest_even(num: nat, den: nat) -> nat {
    let quotient = num / den;
    let remainder = num % den;
    if 2 * remainder < den || (2 * remainder == den && quotient % 2 == 0) {
        quotient
    } else {
        quotient + 1
    }
}

/// The number of 53 significant bits that is nearest to `num / den`: below 2^53
/// an integer, from there on an even one, from 2^54 on a multiple of four, and
/// so on.
pub open spec fn rounded(num: nat, den: nat) -> nat
    decreases
            (if num < den * SIGNIFICAND_LIMIT {
                0
            } else {
                num - den * SIGNIFICAND_LIMIT + 1
            }),
{
    if den == 0 || num < den * SIGNIFICAND_LIMIT {
        nearest_even(num, den)
    } else {
        2 * rounded(num, 2 * den)
    }
}

/// Multiplying both sides of a quotient by the same number changes nothing.
proof fn nearest_even_of_multiples(factor: nat, num: nat, den: nat)
    requires
        factor > 0,
        den > 0,
    ensures
        nearest_even(factor * num, factor * den) == nearest_even(num, den),
{
    let q = num / den;
    let r = num % den;
    lemma_fundamental_div_mod(num as int, den as int);
    assert(factor * num == q * (factor * den) + factor * r) by (nonlinear_arith)
        requires
            num == den * q + r,
    ;
    assert(0 <= factor * r < factor * den) by (nonlinear_arith)
        requires
            0 <= r < den,
            factor > 0,
    ;
    lemma_fundamental_div_mod_converse(
        (factor * num) as int,
        (factor * den) as int,
        q as int,
        (factor * r) as int,
    );
    assert(2 * (factor * r) < factor * den <==> 2 * r < den) by (nonlinear_arith)
        requires
            factor > 0,
    ;
    assert(2 * (factor * r) == factor * den <==> 2 * r == den) by (nonlinear_arith)
        requires
            factor > 0,
    ;
}

/// A quotient is rounded the same way, whatever its terms are multiplied by.
pub proof fn rounded_of_multiples(factor: nat, num: nat, den: nat)
    requires
        factor > 0,
        den > 0,
    ensures
        rounded(factor * num, factor * den) == rounded(num, den),
    decreases
            (if num < den * SIGNIFICAND_LIMIT {
                0
            } else {
                num - den * SIGNIFICAND_LIMIT + 1
            }),
{
    assert(factor * den > 0) by (nonlinear_arith)
        requires
            factor > 0,
            den > 0,
    ;
    assert(factor * num < (factor * den) * SIGNIFICAND_LIMIT <==> num < den * SIGNIFICAND_LIMIT)
        by (nonlinear_arith)
        requires
            factor > 0,
    ;
    if num < den * SIGNIFICAND_LIMIT {
        nearest_even_of_multiples(factor, num, den);
    } else {
        assert(2 * (factor * den) == factor * (2 * den)) by (nonlinear_arith);
        rounded_of_multiples(factor, num, 2 * den);
    }
}

/// Rounding commutes with doubling.
proof fn rounded_doubles(n: nat)
    ensures
        rounded(2 * n, 1) == 2 * rounded(n, 1),
{
    if 2 * n >= SIGNIFICAND_LIMIT {
        rounded_of_multiples(2, n, 1);
    }
}

/// Rounding commutes with scaling by a power of two.
pub proof fn rounded_scales(n: nat, k: nat)
    ensures
        rounded(n * pow2(k), 1) == rounded(n, 1) * pow2(k),
    decreases k,
{
    if k == 0 {
        lemma2_to64();
        assert(n * pow2(0) == n) by (nonlinear_arith)
            requires
                pow2(0) == 1,
        ;
        assert(rounded(n, 1) * pow2(0) == rounded(n, 1)) by (nonlinear_arith)
            requires
                pow2(0) == 1,
        ;
    } else {
        let j = (k - 1) as nat;
        lemma_pow2_unfold(k);
        rounded_scales(n, j);
        rounded_doubles(n * pow2(j));
        assert(n * pow2(k) == 2 * (n * pow2(j))) by (nonlinear_arith)
            requires
                pow2(k) == 2 * pow2(j),
        ;
        assert(rounded(n, 1) * pow2(k) == 2 * (rounded(n, 1) * pow2(j))) by (nonlinear_arith)
            requires
                pow2(k) == 2 * pow2(j),
        ;
    }
}

/// A number of at most 53 significant bits is its own rounding.
pub proof fn rounded_is_exact(n: nat, k: nat)
    requires
        n <= SIGNIFICAND_LIMIT,
    ensures
        rounded(n * pow2(k), 1) == n * pow2(k),
{
    rounded_scales(n, k);
    if n == SIGNIFICAND_LIMIT {
        rounded_doubles((n / 2) as nat);
    }
}

/// Rounding keeps order.
pub proof fn rounded_is_monotonic(n1: nat, n2: nat, den: nat)
    requires
        n1 <= n2,
        den > 0,
    ensures
        rounded(n1, den) <= rounded(n2, den),
    decreases
            (if n2 < den * SIGNIFICAND_LIMIT {
                0
            } else {
                n2 - den * SIGNIFICAND_LIMIT + 1
            }),
{
    if n2 < den * SIGNIFICAND_LIMIT {
        nearest_even_is_monotonic(n1, n2, den);
    } else if n1 >= den * SIGNIFICAND_LIMIT {
        rounded_is_monotonic(n1, n2, 2 * den);
    } else {
        let limit = (den * SIGNIFICAND_LIMIT) as nat;
        nearest_even_is_monotonic(n1, limit, den);
        nearest_even_of_multiple(SIGNIFICAND_LIMIT as nat, den);
        rounded_is_monotonic(limit, n2, 2 * den);
        nearest_even_of_multiple((SIGNIFICAND_LIMIT / 2) as nat, 2 * den);
    }
}

proof fn nearest_even_is_monotonic(n1: nat, n2: nat, den: nat)
    requires
        n1 <= n2,
        den > 0,
    ensures
        nearest_even(n1, den) <= nearest_even(n2, den),
{
    let q1 = n1 / den;
    let q2 = n2 / den;
    lemma_fundamental_div_mod(n1 as int, den as int);
    lemma_fundamental_div_mod(n2 as int, den as int);
    assert(q1 <= q2 && (q1 == q2 ==> n1 % den <= n2 % den)) by (nonlinear_arith)
        requires
            n1 <= n2,
            den > 0,
            n1 == den * q1 + n1 % den,
            n2 == den * q2 + n2 % den,
            0 <= n1 % den < den,
            0 <= n2 % den < den,
    ;
}

proof fn nearest_even_of_multiple(n: nat, den: nat)
    requires
        den > 0,
    ensures
        nearest_even(den * n, den) == n,
{
    assert(den * n == n * den + 0) by (nonlinear_arith);
    lemma_fundamental_div_mod_converse((den * n) as int, den as int, n as int, 0);
}

/// The rounding of a large number is found at a higher place: a number with at
/// least 53 bits before the place of `2^k` may be rounded in multiples of `2^k`.
pub proof fn rounded_at_place(num: nat, den: nat, k: nat)
    requires
        den > 0,
        num >= den * (SIGNIFICAND_LIMIT / 2) * pow2(k),
    ensures
        rounded(num, den) == rounded(num, den * pow2(k)) * pow2(k),
    decreases k,
{
    if k == 0 {
        lemma2_to64();
        assert(den * pow2(0) == den) by (nonlinear_arith)
            requires
                pow2(0) == 1,
        ;
        assert(rounded(num, den) * pow2(0) == rounded(num, den)) by (nonlinear_arith)
            requires
                pow2(0) == 1,
        ;
    } else {
        let j = (k - 1) as nat;
        lemma_pow2_unfold(k);
        lemma_pow2_pos(j);
        assert(den * (SIGNIFICAND_LIMIT / 2) * pow2(k) == (2 * den) * (SIGNIFICAND_LIMIT / 2)
            * pow2(j)) by (nonlinear_arith)
            requires
                pow2(k) == 2 * pow2(j),
        ;
        assert((2 * den) * (SIGNIFICAND_LIMIT / 2) * pow2(j) >= den * SIGNIFICAND_LIMIT) by (
        nonlinear_arith)
            requires
                pow2(j) >= 1,
                SIGNIFICAND_LIMIT == 2 * (SIGNIFICAND_LIMIT / 2),
        ;
        assert(den * pow2(k) == (2 * den) * pow2(j)) by (nonlinear_arith)
            requires
                pow2(k) == 2 * pow2(j),
        ;
        rounded_at_place(num, 2 * den, j);
        let higher = rounded(num, den * pow2(k));
        assert(higher * pow2(k) == 2 * (higher * pow2(j))) by (nonlinear_arith)
            requires
                pow2(k) == 2 * pow2(j),
        ;
    }
}

/// Rounding twice is rounding once.
pub proof fn rounded_is_idempotent(num: nat, den: nat)
    requires
        den > 0,
    ensures
        rounded(rounded(num, den), 1) == rounded(num, den),
    decreases
            (if num < den * SIGNIFICAND_LIMIT {
                0
            } else {
                num - den * SIGNIFICAND_LIMIT + 1
            }),
{
    if num < den * SIGNIFICAND_LIMIT {
        let nearest = nearest_even(num, den);
        nearest_even_is_monotonic(num, den * SIGNIFICAND_LIMIT as nat, den);
        nearest_even_of_multiple(SIGNIFICAND_LIMIT as nat, den);
        lemma2_to64();
        rounded_is_exact(nearest, 0);
        assert(nearest * pow2(0) == nearest) by (nonlinear_arith)
            requires
                pow2(0) == 1,
        ;
    } else {
        rounded_is_idempotent(num, 2 * den);
        rounded_doubles(rounded(num, 2 * den));
    }
}

/// Less than half of the last place is lost: added to a number that needs no
/// rounding, it changes nothing.
pub proof fn rounded_drops_small(n: nat, den: nat, small: nat)
    requires
        rounded(n, 1) == n,
        2 * small < den,
    ensures
        rounded(den * n + small, den) == n,
    decreases n,
{
    let num = den * n + small;
    if n < SIGNIFICAND_LIMIT {
        assert(num < den * SIGNIFICAND_LIMIT) by (nonlinear_arith)
            requires
                num == den * n + small,
                small < den,
                n + 1 <= SIGNIFICAND_LIMIT,
        ;
        assert(num == n * den + small) by (nonlinear_arith)
            requires
                num == den * n + small,
        ;
        lemma_fundamental_div_mod_converse(num as int, den as int, n as int, small as int);
    } else {
        let half = rounded(n, 2);
        rounded_of_multiples(2, half, 1);
        assert(num >= den * SIGNIFICAND_LIMIT) by (nonlinear_arith)
            requires
                num == den * n + small,
                n >= SIGNIFICAND_LIMIT,
        ;
        assert(num == (2 * den) * half + small) by (nonlinear_arith)
            requires
                num == den * n + small,
                n == 2 * half,
        ;
        rounded_drops_small(half, 2 * den, small);
    }
}

/// Rounding up adds at most one part in 2^53.
pub proof fn rounded_is_close(num: nat, den: nat)
    requires
        den > 0,
        den == 1 || num == 0 || num >= den * (SIGNIFICAND_LIMIT / 2),
    ensures
        rounded(num, den) * den * SIGNIFICAND_LIMIT <= num * (SIGNIFICAND_LIMIT + 1),
    decreases
            (if num < den * SIGNIFICAND_LIMIT {
                0
            } else {
                num - den * SIGNIFICAND_LIMIT + 1
            }),
{
    let limit = SIGNIFICAND_LIMIT as nat;
    let result = rounded(num, den);
    if num < den * SIGNIFICAND_LIMIT {
        let q = num / den;
        let r = num % den;
        lemma_fundamental_div_mod(num as int, den as int);
        if den == 1 || num == 0 {
            if num == 0 {
                nearest_even_of_multiple(0, den);
            }
            assert(result * den == num) by (nonlinear_arith)
                requires
                    result == num,
                    den == 1 || num == 0,
            ;
            assert(result * den * limit <= num * (limit + 1)) by (nonlinear_arith)
                requires
                    result * den == num,
                    limit >= 0,
            ;
        } else {
            assert(2 * (result * den) <= 2 * num + den) by (nonlinear_arith)
                requires
                    num == den * q + r,
                    result == q || (result == q + 1 && 2 * r >= den),
                    r >= 0,
            ;
            assert(result * den * limit <= num * (limit + 1)) by (nonlinear_arith)
                requires
                    2 * (result * den) <= 2 * num + den,
                    den * (limit / 2) <= num,
                    limit == 2 * (limit / 2),
            ;
        }
    } else {
        rounded_is_close(num, 2 * den);
        let half = rounded(num, 2 * den);
        assert((2 * half) * den * limit == half * (2 * den) * limit) by (nonlinear_arith);
    }
}

/// Rounding down takes away at most one part in 2^53.
pub proof fn rounded_is_not_short(num: nat, den: nat)
    requires
        den > 0,
        den == 1 || num == 0 || num >= den * (SIGNIFICAND_LIMIT / 2),
    ensures
        rounded(num, den) * den * SIGNIFICAND_LIMIT >= num * (SIGNIFICAND_LIMIT - 1),
    decreases
            (if num < den * SIGNIFICAND_LIMIT {
                0
            } else {
                num - den * SIGNIFICAND_LIMIT + 1
            }),
{
    let limit = SIGNIFICAND_LIMIT as nat;
    let result = rounded(num, den);
    if num < den * SIGNIFICAND_LIMIT {
        let q = num / den;
        let r = num % den;
        lemma_fundamental_div_mod(num as int, den as int);
        if den == 1 || num == 0 {
            assert(result * den >= num) by (nonlinear_arith)
                requires
                    num == 0 || (den == 1 && result == num),
                    result >= 0,
                    den >= 0,
            ;
            assert(result * den * limit >= num * (limit - 1)) by (nonlinear_arith)
                requires
                    result * den >= num,
                    limit >= 1,
                    num >= 0,
            ;
        } else {
            assert(2 * (result * den) + den >= 2 * num) by (nonlinear_arith)
                requires
                    num == den * q + r,
                    (result == q && 2 * r <= den) || result == q + 1,
                    0 <= r < den,
            ;
            assert(result * den * limit >= num * (limit - 1)) by (nonlinear_arith)
                requires
                    2 * (result * den) + den >= 2 * num,
                    den * (limit / 2) <= num,
                    limit == 2 * (limit / 2),
            ;
        }
    } else {
        rounded_is_not_short(num, 2 * den);
        let half = rounded(num, 2 * den);
        assert((2 * half) * den * limit == half * (2 * den) * limit) by (nonlinear_arith);
    }
}

/// A number that needs no rounding needs none when a power of two is taken away
/// whose place is among the places of the number.
pub proof fn difference_is_exact(x: nat, k: nat, j: nat)
    requires
        rounded(x, 1) == x,
        j <= k,
        pow2(k) <= x,
        (SIGNIFICAND_LIMIT / 2) * pow2(j) <= x < SIGNIFICAND_LIMIT * pow2(k),
    ensures
        rounded((x - pow2(k)) as nat, 1) == x - pow2(k),
    decreases k - j,
{
    let p = pow2(j);
    lemma_pow2_pos(j);
    if x >= SIGNIFICAND_LIMIT * p {
        lemma_pow2_unfold(j + 1);
        assert((SIGNIFICAND_LIMIT / 2) * pow2(j + 1) == SIGNIFICAND_LIMIT * p) by (nonlinear_arith)
            requires
                pow2(j + 1) == 2 * p,
                SIGNIFICAND_LIMIT == 2 * (SIGNIFICAND_LIMIT / 2),
        ;
        difference_is_exact(x, k, j + 1);
    } else {
        let m = rounded(x, p);
        let one = pow2((k - j) as nat);
        assert(1 * (SIGNIFICAND_LIMIT / 2) * p == (SIGNIFICAND_LIMIT / 2) * p && 1 * p == p)
            by (nonlinear_arith);
        rounded_at_place(x, 1, j);
        lemma_pow2_adds((k - j) as nat, j);
        assert(m < SIGNIFICAND_LIMIT && one <= m) by (nonlinear_arith)
            requires
                m * p < SIGNIFICAND_LIMIT * p,
                one * p <= m * p,
                p > 0,
        ;
        assert((m - one) * p == m * p - one * p) by (nonlinear_arith);
        rounded_is_exact((m - one) as nat, j);
    }
}

/// No integer is nearer to a quotient than its rounding, and where another one is as
/// near, the rounding is even.
pub proof fn nearest_even_is_nearest(num: nat, den: nat, other: nat)
    requires
        den > 0,
    ensures
        ({
            let nearest = nearest_even(num, den);
            let error = vstd::math::abs(nearest * den - num);
            let other_error = vstd::math::abs(other * den - num);
            &&& error <= other_error
            &&& error == other_error && other != nearest ==> nearest % 2 == 0
        }),
{
    let q = num / den;
    let r = num % den;
    lemma_fundamental_div_mod(num as int, den as int);
    assert(q * den == num - r && (q + 1) * den == num - r + den) by (nonlinear_arith)
        requires
            num == den * q + r,
    ;
    if other <= q {
        assert(other * den <= q * den && (other < q ==> other * den + den <= q * den)) by (
        nonlinear_arith)
            requires
                other <= q,
                den > 0,
        ;
    } else {
        assert(other * den >= (q + 1) * den && (other > q + 1 ==> other * den >= (q + 1) * den
            + den)) by (nonlinear_arith)
            requires
                other >= q + 1,
                den > 0,
        ;
    }
}

/// Rounding to 53 significant bits is rounding to the nearest multiple of the power of
/// two that leaves 53 bits: integers below 2^53, and the place of `2^k` for quotients
/// between 2^(52+k) and 2^(53+k).
pub proof fn rounded_keeps_53_bits(num: nat, den: nat, k: nat)
    requires
        den > 0,
    ensures
        num < den * SIGNIFICAND_LIMIT ==> rounded(num, den) == nearest_even(num, den),
        den * (SIGNIFICAND_LIMIT / 2) * pow2(k) <= num < den * pow2(k) * SIGNIFICAND_LIMIT
            ==> rounded(num, den) == nearest_even(num, den * pow2(k)) * pow2(k),
        SIGNIFICAND_LIMIT == pow2(53),
{
    lemma2_to64();
    lemma2_to64_rest();
    lemma_pow2_pos(k);
    if den * (SIGNIFICAND_LIMIT / 2) * pow2(k) <= num {
        rounded_at_place(num, den, k);
    }
}

} // verus!
