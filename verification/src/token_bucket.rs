//! Token buckets.
//!
//! A bucket gains tokens as time goes by, up to a capacity, and each admitted
//! attempt takes one. Tokens are numbers of double precision, see
//! [`crate::double`]; here they are counted in units of 2^-82, and time in
//! nanoseconds.

use crate::clock;
use crate::double;
use crate::rounding;
use vstd::arithmetic::div_mod::*;
use vstd::arithmetic::power2::*;
use vstd::prelude::*;

verus! {

/// A token bucket: what is left in it, and when that was worked out.
pub struct Bucket {
    pub tokens: nat,
    pub last_refill: nat,
}

/// Tokens of a bucket after refilling for the time since its last refill, clamped
/// to the burst capacity.
pub open spec fn refilled_tokens(bucket: Bucket, now: nat, rate: nat, burst: nat) -> nat {
    let elapsed = clock::seconds(clock::nanos_between(bucket.last_refill, now));
    let added = rounding::rounded(elapsed * rate, 1);
    let refilled = rounding::rounded(bucket.tokens + added, 1);
    let capacity = double::integer_units(burst);
    if refilled <= capacity {
        refilled
    } else {
        capacity
    }
}

/// The bucket of a source that has not been seen.
pub open spec fn full_bucket(now: nat, burst: nat) -> Bucket {
    Bucket { tokens: double::integer_units(burst), last_refill: now }
}

/// Whether a bucket has a token to give away at `now`.
pub open spec fn admits(bucket: Bucket, now: nat, rate: nat, burst: nat) -> bool {
    refilled_tokens(bucket, now, rate, burst) >= double::integer_units(1)
}

/// A bucket after an attempt at `now`: refilled, and with a token less if there
/// was one.
pub open spec fn after_attempt(bucket: Bucket, now: nat, rate: nat, burst: nat) -> Bucket {
    let refilled = refilled_tokens(bucket, now, rate, burst);
    let tokens = if admits(bucket, now, rate, burst) {
        (refilled - double::integer_units(1)) as nat
    } else {
        refilled
    };
    Bucket { tokens, last_refill: now }
}

/// A bucket never refills beyond the burst capacity, however long it has been
/// idle, nor does an attempt leave it with more.
pub proof fn tokens_stay_within_the_burst(bucket: Bucket, now: nat, rate: nat, burst: nat)
    ensures
        refilled_tokens(bucket, now, rate, burst) <= double::integer_units(burst),
        after_attempt(bucket, now, rate, burst).tokens <= double::integer_units(burst),
{
}

/// Whether a bucket holds a number of double precision, and not more than the burst
/// capacity.
pub open spec fn is_valid(bucket: Bucket, burst: nat) -> bool {
    &&& bucket.tokens <= double::integer_units(burst)
    &&& rounding::rounded(bucket.tokens, 1) == bucket.tokens
}

/// A refill takes no tokens away, and where no time has passed, or the clock has
/// gone back, it adds none.
pub proof fn refilling_takes_no_tokens(bucket: Bucket, now: nat, rate: nat, burst: nat)
    requires
        is_valid(bucket, burst),
    ensures
        bucket.tokens <= refilled_tokens(bucket, now, rate, burst),
        now <= bucket.last_refill ==> refilled_tokens(bucket, now, rate, burst) == bucket.tokens,
{
    let elapsed = clock::seconds(clock::nanos_between(bucket.last_refill, now));
    let added = rounding::rounded(elapsed * rate, 1);
    rounding::rounded_is_monotonic(bucket.tokens, bucket.tokens + added, 1);
    whole_seconds(0);
    assert(0 * rate == 0) by (nonlinear_arith);
    assert(0 * pow2(82) == 0) by (nonlinear_arith);
}

/// New buckets are valid, and attempts leave valid buckets behind.
pub proof fn buckets_are_valid(bucket: Bucket, now: nat, rate: nat, burst: nat)
    requires
        burst <= u32::MAX,
    ensures
        is_valid(full_bucket(now, burst), burst),
        is_valid(after_attempt(bucket, now, rate, burst), burst),
{
    let unit = pow2(82);
    let elapsed = clock::seconds(clock::nanos_between(bucket.last_refill, now));
    let sum = bucket.tokens + rounding::rounded(elapsed * rate, 1);
    let refilled = refilled_tokens(bucket, now, rate, burst);
    rounding::rounded_is_exact(burst, 82);
    rounding::rounded_is_idempotent(sum, 1);
    if admits(bucket, now, rate, burst) {
        lemma_pow2_pos(82);
        lemma2_to64();
        lemma2_to64_rest();
        lemma_pow2_adds(52, 30);
        assert(burst * unit < rounding::SIGNIFICAND_LIMIT * unit) by (nonlinear_arith)
            requires
                burst < rounding::SIGNIFICAND_LIMIT,
                unit > 0,
        ;
        assert(double::integer_units(1) == unit);
        rounding::difference_is_exact(refilled, 82, 30);
    }
}

/// A bucket only gains by waiting.
pub proof fn refilling_is_monotonic(bucket: Bucket, now: nat, later: nat, rate: nat, burst: nat)
    requires
        now <= later,
    ensures
        refilled_tokens(bucket, now, rate, burst) <= refilled_tokens(bucket, later, rate, burst),
{
    let dt1 = clock::nanos_between(bucket.last_refill, now);
    let dt2 = clock::nanos_between(bucket.last_refill, later);
    clock::seconds_are_monotonic(dt1, dt2);
    let e1 = clock::seconds(dt1);
    let e2 = clock::seconds(dt2);
    assert(e1 * rate <= e2 * rate) by (nonlinear_arith)
        requires
            e1 <= e2,
    ;
    rounding::rounded_is_monotonic(e1 * rate, e2 * rate, 1);
    rounding::rounded_is_monotonic(
        bucket.tokens + rounding::rounded(e1 * rate, 1),
        bucket.tokens + rounding::rounded(e2 * rate, 1),
        1,
    );
}

/// No time adds no tokens to a bucket of a whole number of tokens.
pub proof fn refilling_at_once(tokens: nat, now: nat, rate: nat, burst: nat)
    requires
        tokens <= burst <= u32::MAX,
    ensures
        refilled_tokens(
            Bucket { tokens: double::integer_units(tokens), last_refill: now },
            now,
            rate,
            burst,
        ) == double::integer_units(tokens),
{
    whole_seconds(0);
    rounding::rounded_is_exact(tokens, 82);
    assert(0 * rate == 0) by (nonlinear_arith);
    assert(0 * pow2(82) == 0) by (nonlinear_arith);
    whole_tokens_are_ordered(tokens, burst);
}

/// A whole number of seconds is rounded once.
proof fn whole_seconds(secs: nat)
    ensures
        clock::seconds(secs * clock::NANOS_PER_SEC as nat) == rounding::rounded(secs, 1) * pow2(82),
{
    let nanos = secs * clock::NANOS_PER_SEC as nat;
    lemma_fundamental_div_mod_converse(
        nanos as int,
        clock::NANOS_PER_SEC as int,
        secs as int,
        0,
    );
    assert(double::integer_units(0) == 0) by (nonlinear_arith)
        requires
            double::integer_units(0) == 0 * pow2(82),
    ;
    rounding::rounded_scales(secs, 82);
    rounding::rounded_is_idempotent(double::integer_units(secs), 1);
}

proof fn whole_tokens_are_ordered(a: nat, b: nat)
    requires
        a <= b,
    ensures
        double::integer_units(a) <= double::integer_units(b),
{
    assert(a * pow2(82) <= b * pow2(82)) by (nonlinear_arith)
        requires
            a <= b,
    ;
}

/// A bucket after `count` attempts at the same point in time.
pub open spec fn after_attempts(
    bucket: Bucket,
    count: nat,
    now: nat,
    rate: nat,
    burst: nat,
) -> Bucket
    decreases count,
{
    if count == 0 {
        bucket
    } else {
        after_attempt(
            after_attempts(bucket, (count - 1) as nat, now, rate, burst),
            now,
            rate,
            burst,
        )
    }
}

/// A source that has not been seen gets its full burst at once, and not one
/// connection more: after `count` attempts at one point in time the next one is
/// admitted exactly if `count` is less than the burst.
pub proof fn burst_is_admitted_at_once(count: nat, now: nat, rate: nat, burst: nat)
    requires
        burst <= u32::MAX,
    ensures
        admits(
            after_attempts(full_bucket(now, burst), count, now, rate, burst),
            now,
            rate,
            burst,
        ) <==> count < burst,
        after_attempts(full_bucket(now, burst), count, now, rate, burst) == (Bucket {
            tokens: double::integer_units(left_of_burst(count, burst)),
            last_refill: now,
        }),
    decreases count,
{
    let left = left_of_burst(count, burst);
    lemma_pow2_pos(82);
    if count > 0 {
        let before = left_of_burst((count - 1) as nat, burst);
        burst_is_admitted_at_once((count - 1) as nat, now, rate, burst);
        refilling_at_once(before, now, rate, burst);
        if count <= burst {
            assert((left + 1) * pow2(82) == left * pow2(82) + 1 * pow2(82)) by (nonlinear_arith);
        }
    }
    refilling_at_once(left, now, rate, burst);
    if left > 0 {
        whole_tokens_are_ordered(1, left);
    } else {
        assert(0 * pow2(82) < 1 * pow2(82)) by (nonlinear_arith)
            requires
                pow2(82) > 0,
        ;
    }
}

/// What is left of a burst after `count` attempts.
pub open spec fn left_of_burst(count: nat, burst: nat) -> nat {
    if count <= burst {
        (burst - count) as nat
    } else {
        0
    }
}

/// A bucket refills at the configured rate: a whole number of seconds adds `rate`
/// tokens each, up to the burst capacity, without any rounding.
pub proof fn whole_seconds_refill_at_the_rate(
    tokens: nat,
    last_refill: nat,
    secs: nat,
    rate: nat,
    burst: nat,
)
    requires
        tokens <= burst <= u32::MAX,
        0 < rate <= u32::MAX,
    ensures
        refilled_tokens(
            Bucket { tokens: double::integer_units(tokens), last_refill },
            last_refill + secs * clock::NANOS_PER_SEC as nat,
            rate,
            burst,
        ) == double::integer_units(
            if tokens + secs * rate <= burst {
                tokens + secs * rate
            } else {
                burst
            },
        ),
{
    let bucket = Bucket { tokens: double::integer_units(tokens), last_refill };
    let limit = rounding::SIGNIFICAND_LIMIT as nat;
    if tokens + secs * rate <= limit {
        exact_refill(tokens, last_refill, secs, rate, burst);
    } else {
        let enough = ((limit - tokens) / rate as int) as nat;
        lemma_fundamental_div_mod(limit - tokens, rate as int);
        assert(enough <= secs && tokens + enough * rate <= limit && tokens + enough * rate > limit
            - rate) by (nonlinear_arith)
            requires
                rate > 0,
                limit - tokens == rate * enough + (limit - tokens) % rate as int,
                0 <= (limit - tokens) % rate as int,
                (limit - tokens) % (rate as int) < rate,
                tokens + secs * rate > limit,
        ;
        exact_refill(tokens, last_refill, enough, rate, burst);
        assert(enough * clock::NANOS_PER_SEC as nat <= secs * clock::NANOS_PER_SEC as nat) by (
        nonlinear_arith)
            requires
                enough <= secs,
        ;
        refilling_is_monotonic(
            bucket,
            last_refill + enough * clock::NANOS_PER_SEC as nat,
            last_refill + secs * clock::NANOS_PER_SEC as nat,
            rate,
            burst,
        );
    }
}

/// Whole tokens and seconds, as long as they are exact.
proof fn exact_refill(tokens: nat, last_refill: nat, secs: nat, rate: nat, burst: nat)
    requires
        tokens + secs * rate <= rounding::SIGNIFICAND_LIMIT,
        0 < rate,
    ensures
        refilled_tokens(
            Bucket { tokens: double::integer_units(tokens), last_refill },
            last_refill + secs * clock::NANOS_PER_SEC as nat,
            rate,
            burst,
        ) == double::integer_units(
            if tokens + secs * rate <= burst {
                tokens + secs * rate
            } else {
                burst
            },
        ),
{
    let unit = pow2(82);
    let sum = tokens + secs * rate;
    whole_seconds(secs);
    assert(secs <= secs * rate) by (nonlinear_arith)
        requires
            rate > 0,
    ;
    lemma2_to64();
    rounding::rounded_is_exact(secs, 0);
    assert(secs * pow2(0) == secs) by (nonlinear_arith)
        requires
            pow2(0) == 1,
    ;
    assert((secs * unit) * rate == (secs * rate) * unit) by (nonlinear_arith);
    rounding::rounded_is_exact(secs * rate, 82);
    assert(tokens * unit + (secs * rate) * unit == sum * unit) by (nonlinear_arith)
        requires
            sum == tokens + secs * rate,
    ;
    rounding::rounded_is_exact(sum, 82);
    if sum <= burst {
        whole_tokens_are_ordered(sum, burst);
    } else {
        whole_tokens_are_ordered(burst, sum);
    }
}

/// Tokens gained in a while are at most what the rate allows, but for four parts
/// in 2^53.
proof fn gain_is_bounded(nanos: nat, rate: nat)
    ensures
        rounding::rounded(clock::seconds(nanos) * rate, 1) * clock::NANOS_PER_SEC
            * rounding::SIGNIFICAND_LIMIT <= double::integer_units(nanos * rate) * (
        rounding::SIGNIFICAND_LIMIT + 4),
{
    let unit = pow2(82);
    let limit = rounding::SIGNIFICAND_LIMIT as nat;
    let sec = clock::NANOS_PER_SEC as nat;
    let elapsed = clock::seconds(nanos);
    let added = rounding::rounded(elapsed * rate, 1);
    let exact = nanos * unit;
    clock::seconds_are_close(nanos);
    rounding::rounded_is_close(elapsed * rate, 1);
    let more = limit + 1;
    let scale = sec * limit * limit;
    let factor = rate * more;
    assert(added * limit * scale <= (elapsed * rate) * more * scale) by (nonlinear_arith)
        requires
            added * 1 * limit <= (elapsed * rate) * more,
            scale >= 0,
    ;
    assert((elapsed * rate) * more * scale == (elapsed * sec * limit * limit) * factor) by (
    nonlinear_arith)
        requires
            scale == sec * limit * limit,
            factor == rate * more,
    ;
    assert((elapsed * sec * limit * limit) * factor <= (exact * more * more) * factor) by (
    nonlinear_arith)
        requires
            elapsed * sec * limit * limit <= exact * more * more,
            factor >= 0,
    ;
    assert((exact * more * more) * factor == exact * rate * (more * more * more)) by (
    nonlinear_arith)
        requires
            factor == rate * more,
    ;
    assert(added * limit * scale == added * sec * limit * (limit * limit)) by (nonlinear_arith)
        requires
            scale == sec * limit * limit,
    ;
    assert((limit + 1) * (limit + 1) * (limit + 1) <= (limit + 4) * (limit * limit)) by (
    nonlinear_arith)
        requires
            limit >= 4,
    ;
    let cube = (limit + 1) * (limit + 1) * (limit + 1);
    assert(added * sec * limit <= exact * rate * (limit + 4)) by (nonlinear_arith)
        requires
            added * sec * limit * (limit * limit) <= exact * rate * cube,
            cube <= (limit + 4) * (limit * limit),
            limit > 0,
            exact * rate >= 0,
    {
        assert(exact * rate * cube <= exact * rate * ((limit + 4) * (limit * limit)));
        assert(exact * rate * ((limit + 4) * (limit * limit)) == (exact * rate * (limit + 4)) * (
        limit * limit));
        assert(limit * limit > 0);
    }
    assert((nanos * unit) * rate == (nanos * rate) * unit) by (nonlinear_arith);
}

/// One refill adds at most the tokens that the rate allows, and one part in 2^53
/// of the burst capacity.
pub proof fn refill_is_close(bucket: Bucket, now: nat, rate: nat, burst: nat)
    ensures
        ({
            let dt = clock::nanos_between(bucket.last_refill, now);
            refilled_tokens(bucket, now, rate, burst) * clock::NANOS_PER_SEC
                * rounding::SIGNIFICAND_LIMIT <= bucket.tokens * clock::NANOS_PER_SEC
                * rounding::SIGNIFICAND_LIMIT + double::integer_units(dt * rate) * (
            rounding::SIGNIFICAND_LIMIT + 4) + double::integer_units(burst) * clock::NANOS_PER_SEC
        }),
{
    let limit = rounding::SIGNIFICAND_LIMIT as nat;
    let sec = clock::NANOS_PER_SEC as nat;
    let dt = clock::nanos_between(bucket.last_refill, now);
    let added = rounding::rounded(clock::seconds(dt) * rate, 1);
    let sum = bucket.tokens + added;
    let capacity = double::integer_units(burst);
    let refilled = refilled_tokens(bucket, now, rate, burst);
    gain_is_bounded(dt, rate);
    rounding::rounded_is_close(sum, 1);
    assert(refilled * limit <= sum * limit + capacity) by (nonlinear_arith)
        requires
            refilled <= capacity,
            sum <= capacity ==> refilled * 1 * limit <= sum * (limit + 1),
            limit >= 0,
            capacity >= 0,
    ;
    assert(refilled * sec * limit <= (sum * limit + capacity) * sec) by (nonlinear_arith)
        requires
            refilled * limit <= sum * limit + capacity,
            sec >= 0,
    ;
    assert((sum * limit + capacity) * sec == bucket.tokens * sec * limit + added * sec * limit
        + capacity * sec) by (nonlinear_arith)
        requires
            sum == bucket.tokens + added,
    ;
}

/// Tokens gained in a while are at least what the rate allows, but for four parts
/// in 2^53.
proof fn gain_is_not_short(nanos: nat, rate: nat)
    ensures
        rounding::rounded(clock::seconds(nanos) * rate, 1) * clock::NANOS_PER_SEC
            * rounding::SIGNIFICAND_LIMIT >= double::integer_units(nanos * rate) * (
        rounding::SIGNIFICAND_LIMIT - 4),
{
    let unit = pow2(82);
    let limit = rounding::SIGNIFICAND_LIMIT as nat;
    let less = (limit - 1) as nat;
    let sec = clock::NANOS_PER_SEC as nat;
    let elapsed = clock::seconds(nanos);
    let added = rounding::rounded(elapsed * rate, 1);
    let exact = nanos * unit;
    clock::seconds_are_not_short(nanos);
    rounding::rounded_is_not_short(elapsed * rate, 1);
    let scale = sec * limit * limit;
    let factor = rate * less;
    assert(added * limit * scale >= (elapsed * rate) * less * scale) by (nonlinear_arith)
        requires
            added * 1 * limit >= (elapsed * rate) * less,
            scale >= 0,
    ;
    assert((elapsed * rate) * less * scale == (elapsed * sec * limit * limit) * factor) by (
    nonlinear_arith)
        requires
            scale == sec * limit * limit,
            factor == rate * less,
    ;
    assert((elapsed * sec * limit * limit) * factor >= (exact * less * less) * factor) by (
    nonlinear_arith)
        requires
            elapsed * sec * limit * limit >= exact * less * less,
            factor >= 0,
    ;
    assert((exact * less * less) * factor == exact * rate * (less * less * less)) by (
    nonlinear_arith)
        requires
            factor == rate * less,
    ;
    assert(added * limit * scale == added * sec * limit * (limit * limit)) by (nonlinear_arith)
        requires
            scale == sec * limit * limit,
    ;
    assert((limit - 1) * (limit - 1) * (limit - 1) >= (limit - 4) * (limit * limit)) by (
    nonlinear_arith)
        requires
            limit >= 4,
    ;
    let cube = less * less * less;
    assert(added * sec * limit >= exact * rate * (limit - 4)) by (nonlinear_arith)
        requires
            added * sec * limit * (limit * limit) >= exact * rate * cube,
            cube >= (limit - 4) * (limit * limit),
            limit > 0,
            exact * rate >= 0,
    {
        assert(exact * rate * cube >= exact * rate * ((limit - 4) * (limit * limit)));
        assert(exact * rate * ((limit - 4) * (limit * limit)) == (exact * rate * (limit - 4)) * (
        limit * limit));
        assert(limit * limit > 0);
    }
    assert((nanos * unit) * rate == (nanos * rate) * unit) by (nonlinear_arith);
}

/// A bucket that a refill does not fill gains at least the tokens that the rate
/// allows, but for four parts in 2^53 of them and one part in 2^53 of the burst
/// capacity.
pub proof fn refill_is_not_short(bucket: Bucket, now: nat, rate: nat, burst: nat)
    requires
        burst <= u32::MAX,
        refilled_tokens(bucket, now, rate, burst) < double::integer_units(burst),
    ensures
        ({
            let dt = clock::nanos_between(bucket.last_refill, now);
            refilled_tokens(bucket, now, rate, burst) * clock::NANOS_PER_SEC
                * rounding::SIGNIFICAND_LIMIT + double::integer_units(burst) * clock::NANOS_PER_SEC
                >= bucket.tokens * clock::NANOS_PER_SEC * rounding::SIGNIFICAND_LIMIT
                + double::integer_units(dt * rate) * (rounding::SIGNIFICAND_LIMIT - 4)
        }),
{
    let limit = rounding::SIGNIFICAND_LIMIT as nat;
    let sec = clock::NANOS_PER_SEC as nat;
    let dt = clock::nanos_between(bucket.last_refill, now);
    let added = rounding::rounded(clock::seconds(dt) * rate, 1);
    let sum = bucket.tokens + added;
    let capacity = double::integer_units(burst);
    let refilled = refilled_tokens(bucket, now, rate, burst);
    gain_is_not_short(dt, rate);
    rounding::rounded_is_not_short(sum, 1);
    if sum > capacity {
        rounding::rounded_is_exact(burst, 82);
        rounding::rounded_is_monotonic(capacity, sum, 1);
    }
    assert(refilled * limit + capacity >= sum * limit) by (nonlinear_arith)
        requires
            sum <= capacity,
            refilled * 1 * limit >= sum * (limit - 1),
    ;
    assert(refilled * sec * limit + capacity * sec >= sum * limit * sec) by (nonlinear_arith)
        requires
            refilled * limit + capacity >= sum * limit,
            sec >= 0,
    ;
    assert(sum * limit * sec == bucket.tokens * sec * limit + added * sec * limit) by (
    nonlinear_arith)
        requires
            sum == bucket.tokens + added,
    ;
}

/// Whether two amounts of tokens differ by at most `parts` parts in 2^53 of the
/// burst capacity.
pub open spec fn is_close(a: nat, b: nat, parts: nat, burst: nat) -> bool {
    &&& a * rounding::SIGNIFICAND_LIMIT <= b * rounding::SIGNIFICAND_LIMIT + parts
        * double::integer_units(burst)
    &&& b * rounding::SIGNIFICAND_LIMIT <= a * rounding::SIGNIFICAND_LIMIT + parts
        * double::integer_units(burst)
}

/// What two ways to refill have between them: `more` is at most what the rate
/// allows and `less` at least that, up to rounding, and so they are close.
proof fn refills_are_close(more: nat, less: nat, tokens: nat, gained: nat, capacity: nat, up: nat)
    requires
        less <= capacity,
        1 <= up <= 2,
        more * clock::NANOS_PER_SEC * rounding::SIGNIFICAND_LIMIT <= tokens * clock::NANOS_PER_SEC
            * rounding::SIGNIFICAND_LIMIT + gained * (rounding::SIGNIFICAND_LIMIT + 4) + up * (
        capacity * clock::NANOS_PER_SEC),
        less * clock::NANOS_PER_SEC * rounding::SIGNIFICAND_LIMIT + (3 - up) * (capacity
            * clock::NANOS_PER_SEC) >= tokens * clock::NANOS_PER_SEC * rounding::SIGNIFICAND_LIMIT
            + gained * (rounding::SIGNIFICAND_LIMIT - 4),
    ensures
        more * rounding::SIGNIFICAND_LIMIT <= less * rounding::SIGNIFICAND_LIMIT + 12 * capacity,
{
    let sec = clock::NANOS_PER_SEC as nat;
    let limit = rounding::SIGNIFICAND_LIMIT as nat;
    let part = capacity * sec;
    assert(0 <= up * part <= 2 * part && 0 <= (3 - up) * part <= 2 * part && up * part + (3 - up)
        * part == 3 * part) by (nonlinear_arith)
        requires
            1 <= up <= 2,
            part >= 0,
    ;
    assert(less * sec * limit <= part * limit) by (nonlinear_arith)
        requires
            less <= capacity,
            part == capacity * sec,
            sec >= 0,
            limit >= 0,
    ;
    assert(8 * gained <= 9 * part) by (nonlinear_arith)
        requires
            gained * (limit - 4) <= part * limit + 2 * part,
            limit >= 100,
    ;
    assert(gained * (limit + 4) == gained * (limit - 4) + 8 * gained) by (nonlinear_arith);
    assert(more * limit <= less * limit + 12 * capacity) by (nonlinear_arith)
        requires
            more * sec * limit <= less * sec * limit + 12 * part,
            part == capacity * sec,
            sec > 0,
    {
        assert(more * sec * limit == (more * limit) * sec);
        assert(less * sec * limit + 12 * part == (less * limit + 12 * capacity) * sec);
    }
}

/// A refused attempt loses no refill credit, fractions of a token included: what
/// the bucket holds at any later point in time is what it would hold without the
/// attempt, up to twelve parts in 2^53 of the burst capacity.
pub proof fn refused_attempt_loses_no_credit(
    bucket: Bucket,
    now: nat,
    later: nat,
    rate: nat,
    burst: nat,
)
    requires
        0 < burst <= u32::MAX,
        bucket.last_refill <= now <= later,
        !admits(bucket, now, rate, burst),
    ensures
        is_close(
            refilled_tokens(after_attempt(bucket, now, rate, burst), later, rate, burst),
            refilled_tokens(bucket, later, rate, burst),
            12,
            burst,
        ),
{
    let unit = pow2(82);
    let capacity = double::integer_units(burst);
    let after = after_attempt(bucket, now, rate, burst);
    let with = refilled_tokens(after, later, rate, burst);
    let without = refilled_tokens(bucket, later, rate, burst);
    let d1 = (now - bucket.last_refill) as nat;
    let d2 = (later - now) as nat;
    let gained = double::integer_units((d1 + d2) * rate);
    whole_tokens_are_ordered(1, burst);
    assert((d1 * rate) * unit + (d2 * rate) * unit == ((d1 + d2) * rate) * unit) by (
    nonlinear_arith);
    refill_is_close(bucket, now, rate, burst);
    refill_is_close(after, later, rate, burst);
    refill_is_close(bucket, later, rate, burst);
    refill_is_not_short(bucket, now, rate, burst);
    if without < capacity {
        refill_is_not_short(bucket, later, rate, burst);
        refills_are_close(with, without, bucket.tokens, gained, capacity, 2);
    }
    if with < capacity {
        refill_is_not_short(after, later, rate, burst);
        refills_are_close(without, with, bucket.tokens, gained, capacity, 1);
    }
}

/// Buckets that are close stay close: refilled at the same point in time they
/// differ by at most two parts in 2^53 of the burst capacity more than before, and
/// no more than that if both then give a token away or neither does.
pub proof fn close_buckets_stay_close(
    a: Bucket,
    b: Bucket,
    now: nat,
    parts: nat,
    rate: nat,
    burst: nat,
)
    requires
        burst <= u32::MAX,
        a.last_refill == b.last_refill,
        is_close(a.tokens, b.tokens, parts, burst),
    ensures
        is_close(
            refilled_tokens(a, now, rate, burst),
            refilled_tokens(b, now, rate, burst),
            parts + 2,
            burst,
        ),
        admits(a, now, rate, burst) == admits(b, now, rate, burst) ==> is_close(
            after_attempt(a, now, rate, burst).tokens,
            after_attempt(b, now, rate, burst).tokens,
            parts + 2,
            burst,
        ),
{
    let capacity = double::integer_units(burst);
    assert((parts + 2) * capacity == parts * capacity + 2 * capacity) by (nonlinear_arith);
    refill_keeps_distance(a, b, now, parts * capacity, rate, burst);
    refill_keeps_distance(b, a, now, parts * capacity, rate, burst);
}

/// A refill adds at most two parts in 2^53 of the burst capacity to how far one
/// bucket is ahead of another.
proof fn refill_keeps_distance(
    ahead: Bucket,
    behind: Bucket,
    now: nat,
    lead: nat,
    rate: nat,
    burst: nat,
)
    requires
        burst <= u32::MAX,
        ahead.last_refill == behind.last_refill,
        ahead.tokens * rounding::SIGNIFICAND_LIMIT <= behind.tokens * rounding::SIGNIFICAND_LIMIT
            + lead,
    ensures
        refilled_tokens(ahead, now, rate, burst) * rounding::SIGNIFICAND_LIMIT <= refilled_tokens(
            behind,
            now,
            rate,
            burst,
        ) * rounding::SIGNIFICAND_LIMIT + lead + 2 * double::integer_units(burst),
{
    let dt = clock::nanos_between(ahead.last_refill, now);
    let added = rounding::rounded(clock::seconds(dt) * rate, 1);
    let sum1 = ahead.tokens + added;
    let sum2 = behind.tokens + added;
    let capacity = double::integer_units(burst);
    rounding::rounded_is_close(sum1, 1);
    rounding::rounded_is_not_short(sum2, 1);
    if sum2 > capacity {
        rounding::rounded_is_exact(burst, 82);
        rounding::rounded_is_monotonic(capacity, sum2, 1);
    }
}

/// What is close is close by a wider measure too.
pub proof fn closeness_widens(a: nat, b: nat, parts1: nat, parts2: nat, burst: nat)
    requires
        parts1 <= parts2,
        is_close(a, b, parts1, burst),
    ensures
        is_close(a, b, parts2, burst),
{
    let capacity = double::integer_units(burst);
    assert(parts1 * capacity <= parts2 * capacity) by (nonlinear_arith)
        requires
            parts1 <= parts2,
            capacity >= 0,
    ;
}

/// A bucket follows the rate: `nanos` nanoseconds after its last refill it holds what
/// it held and what the rate gives in that time, within four parts in 2^53 of the latter
/// and one part in 2^53 of the burst capacity, but never more than the capacity.
pub proof fn refill_follows_the_rate(bucket: Bucket, nanos: nat, rate: nat, burst: nat)
    requires
        burst <= u32::MAX,
    ensures
        ({
            let capacity = burst * pow2(82);
            let tokens = refilled_tokens(bucket, bucket.last_refill + nanos, rate, burst);
            let gained = nanos * rate * pow2(82);
            let scaled = tokens * 1_000_000_000 * 0x20_0000_0000_0000;
            let before = bucket.tokens * 1_000_000_000 * 0x20_0000_0000_0000;
            &&& tokens <= capacity
            &&& scaled <= before + gained * 0x20_0000_0000_0004 + capacity * 1_000_000_000
            &&& tokens == capacity || scaled + capacity * 1_000_000_000 >= before + gained
                * 0x1f_ffff_ffff_fffc
        }),
{
    let now = bucket.last_refill + nanos;
    clock::time_leads_from_one_to_the_other(bucket.last_refill, now);
    refill_is_close(bucket, now, rate, burst);
    if refilled_tokens(bucket, now, rate, burst) < double::integer_units(burst) {
        refill_is_not_short(bucket, now, rate, burst);
    }
}

/// A bucket that has been idle for long enough is full: the rate has given the burst
/// capacity and what rounding can take.
pub proof fn idle_bucket_is_full(bucket: Bucket, nanos: nat, rate: nat, burst: nat)
    requires
        burst <= u32::MAX,
        nanos * rate * 0x1f_ffff_ffff_fffc >= burst * 1_000_000_000 * 0x20_0000_0000_0001,
    ensures
        refilled_tokens(bucket, bucket.last_refill + nanos, rate, burst) == burst * pow2(82),
{
    let unit = pow2(82);
    let capacity = burst * unit;
    let tokens = refilled_tokens(bucket, bucket.last_refill + nanos, rate, burst);
    let gained = nanos * rate * unit;
    refill_follows_the_rate(bucket, nanos, rate, burst);
    lemma_pow2_pos(82);
    assert(gained * 0x1f_ffff_ffff_fffc >= capacity * 1_000_000_000 * 0x20_0000_0000_0001) by (
    nonlinear_arith)
        requires
            gained == (nanos * rate) * unit,
            capacity == burst * unit,
            nanos * rate * 0x1f_ffff_ffff_fffc >= burst * 1_000_000_000 * 0x20_0000_0000_0001,
            unit > 0,
    {
        assert(gained * 0x1f_ffff_ffff_fffc == (nanos * rate * 0x1f_ffff_ffff_fffc) * unit);
        assert(capacity * 1_000_000_000 * 0x20_0000_0000_0001 == (burst * 1_000_000_000
            * 0x20_0000_0000_0001) * unit);
    }
}

/// An attempt is admitted exactly if there is a token, and takes exactly that token.
/// What was there at the time, and was not taken, is kept.
pub proof fn attempt_takes_its_token(bucket: Bucket, now: nat, rate: nat, burst: nat)
    ensures
        ({
            let tokens = refilled_tokens(bucket, now, rate, burst);
            let after = after_attempt(bucket, now, rate, burst);
            &&& after.last_refill == now
            &&& admits(bucket, now, rate, burst) <==> tokens >= pow2(82)
            &&& tokens >= pow2(82) ==> after.tokens + pow2(82) == tokens
            &&& tokens < pow2(82) ==> after.tokens == tokens
        }),
        full_bucket(now, burst).tokens == burst * pow2(82),
        full_bucket(now, burst).last_refill == now,
{
    assert(1 * pow2(82) == pow2(82)) by (nonlinear_arith);
}

/// A refill rounds twice: what the rate gives in the seconds that have passed, and the
/// sum of that and what was there. Then it clamps.
pub proof fn refill_is_rounded_twice(bucket: Bucket, nanos: nat, rate: nat, burst: nat)
    ensures
        ({
            let given = rounding::rounded(clock::seconds(nanos) * rate, 1);
            refilled_tokens(bucket, bucket.last_refill + nanos, rate, burst) == vstd::math::min(
                rounding::rounded(bucket.tokens + given, 1) as int,
                (burst * pow2(82)) as int,
            )
        }),
{
    clock::time_leads_from_one_to_the_other(bucket.last_refill, bucket.last_refill + nanos);
}

} // verus!
