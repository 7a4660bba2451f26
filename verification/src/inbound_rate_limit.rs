//! A limit on the rate of inbound connections, for each source address.

use crate::clock::{self, Timestamp};
use crate::double::{self, Double};
use crate::ip_map::{IpAddr, IpMap};
use crate::rounding;
use crate::token_bucket::{self, Bucket};
use vstd::arithmetic::power2::*;
use vstd::prelude::*;

verus! {

/// Hard cap on the number of distinct source addresses tracked at once.
pub const MAX_TRACKED_IPS: usize = 16_384;

/// What a source has left, and when that was worked out.
#[derive(Clone, Copy)]
struct TokenBucket {
    tokens: Double,
    last_refill: Timestamp,
}

/// A token-bucket rate limiter keyed by source address, used to bound the rate at
/// which new inbound connections from any single source are admitted.
pub struct InboundIpRateLimiter {
    /// Sustained refill rate, in tokens (connections) per second.
    rate_per_sec: u32,
    /// Bucket capacity, i.e. the largest instantaneous burst.
    burst: u32,
    buckets: IpMap<TokenBucket>,
}

/// An attempt from `ip` at `now`: whether it is admitted, and the buckets
/// afterwards.
///
/// A source that is not tracked has a full bucket, but is turned away while
/// [`MAX_TRACKED_IPS`] others are tracked.
pub open spec fn checked(
    buckets: Map<IpAddr, Bucket>,
    ip: IpAddr,
    now: nat,
    rate: nat,
    burst: nat,
) -> (bool, Map<IpAddr, Bucket>) {
    if !buckets.contains_key(ip) && buckets.dom().len() >= MAX_TRACKED_IPS {
        (false, buckets)
    } else {
        let bucket = if buckets.contains_key(ip) {
            buckets[ip]
        } else {
            token_bucket::full_bucket(now, burst)
        };
        (
            token_bucket::admits(bucket, now, rate, burst),
            buckets.insert(ip, token_bucket::after_attempt(bucket, now, rate, burst)),
        )
    }
}

/// The buckets that are not full at `now`.
pub open spec fn busy_buckets(
    buckets: Map<IpAddr, Bucket>,
    now: nat,
    rate: nat,
    burst: nat,
) -> Map<IpAddr, Bucket> {
    buckets.restrict(
        Set::new(
            |ip: IpAddr|
                token_bucket::refilled_tokens(buckets[ip], now, rate, burst)
                    < double::integer_units(burst),
        ),
    )
}

/// Whether every bucket holds a number of double precision, and not more than the
/// burst capacity.
pub open spec fn are_valid(buckets: Map<IpAddr, Bucket>, burst: nat) -> bool {
    forall|ip: IpAddr|
        buckets.contains_key(ip) ==> token_bucket::is_valid(#[trigger] buckets[ip], burst)
}

impl TokenBucket {
    spec fn numbers(self) -> Bucket {
        Bucket { tokens: self.tokens.units(), last_refill: self.last_refill.nanos() }
    }
}

impl InboundIpRateLimiter {
    /// Tokens that a bucket gains per second.
    pub closed spec fn rate(self) -> nat {
        self.rate_per_sec as nat
    }

    /// Tokens that a bucket holds at most.
    pub closed spec fn burst(self) -> nat {
        self.burst as nat
    }

    /// The buckets of the sources that are tracked.
    pub closed spec fn buckets(self) -> Map<IpAddr, Bucket> {
        self.buckets@.map_values(|bucket: TokenBucket| bucket.numbers())
    }

    /// Every bucket is valid, and there are not too many.
    #[verifier::type_invariant]
    spec fn valid(self) -> bool {
        &&& self.rate_per_sec > 0
        &&& self.burst > 0
        &&& self.buckets@.dom().finite()
        &&& self.buckets@.dom().len() <= MAX_TRACKED_IPS
        &&& forall|ip: IpAddr|
            self.buckets@.contains_key(ip) ==> token_bucket::is_valid(
                (#[trigger] self.buckets@[ip]).numbers(),
                self.burst as nat,
            )
    }

    /// A limiter that tracks no source yet.
    pub fn new(rate_per_sec: u32, burst: u32) -> (limiter: Self)
        requires
            rate_per_sec > 0,
            burst > 0,
        ensures
            limiter.rate() == rate_per_sec,
            limiter.burst() == burst,
            limiter.buckets() == Map::<IpAddr, Bucket>::empty(),
            are_valid(limiter.buckets(), limiter.burst()),
    {
        let limiter = Self { rate_per_sec, burst, buckets: IpMap::new() };
        assert(limiter.buckets() =~= Map::<IpAddr, Bucket>::empty());
        limiter
    }

    /// Returns `true` if a new inbound connection from `ip` is permitted at `now`,
    /// consuming one token.
    ///
    /// A source that is not tracked has a full bucket, but is turned away while
    /// [`MAX_TRACKED_IPS`] others are tracked.
    pub fn check(&mut self, ip: IpAddr, now: Timestamp) -> (admitted: bool)
        ensures
            final(self).rate() == old(self).rate(),
            final(self).burst() == old(self).burst(),
            final(self).buckets().dom().finite(),
            final(self).buckets().dom().len() <= MAX_TRACKED_IPS,
            are_valid(old(self).buckets(), old(self).burst()),
            are_valid(final(self).buckets(), final(self).burst()),
            (admitted, final(self).buckets()) == checked(
                old(self).buckets(),
                ip,
                now.nanos(),
                old(self).rate(),
                old(self).burst(),
            ),
            ({
                let known = old(self).buckets().contains_key(ip);
                let bucket = if known {
                    old(self).buckets()[ip]
                } else {
                    (Bucket { tokens: old(self).burst() * pow2(82), last_refill: now.nanos() })
                };
                let tokens = token_bucket::refilled_tokens(
                    bucket,
                    now.nanos(),
                    old(self).rate(),
                    old(self).burst(),
                );
                let after = final(self).buckets();
                let room = known || old(self).buckets().dom().len() < 16_384;
                &&& admitted <==> room && tokens >= pow2(82)
                &&& !room ==> after == old(self).buckets()
                &&& room ==> after.contains_key(ip) && after[ip].last_refill == now.nanos()
                &&& room ==> after[ip].tokens == if admitted {
                    tokens - pow2(82)
                } else {
                    tokens as int
                }
                &&& after.remove(ip) == old(self).buckets().remove(ip)
            }),
    {
        proof {
            use_type_invariant(&*self);
            assert(self.buckets().dom() =~= self.buckets@.dom());
            attempt_is_decided_by_its_bucket(
                self.buckets(),
                ip,
                now.nanos(),
                self.rate(),
                self.burst(),
            );
        }
        let known = self.buckets.get(ip);
        if self.buckets.len() >= MAX_TRACKED_IPS && known.is_none() {
            return false;
        }
        let bucket = match known {
            Some(bucket) => bucket,
            None => TokenBucket {
                tokens: Double::from_integer(self.burst as u64),
                last_refill: now,
            },
        };
        proof {
            rounding::rounded_is_exact(self.burst as nat, 82);
        }
        let refilled = Self::refilled_tokens(&bucket, now, self.rate_per_sec, self.burst);
        let admitted: bool = Double::from_integer(1).at_most(refilled);
        proof {
            burst_is_small(self.burst as nat);
            token_bucket::buckets_are_valid(
                bucket.numbers(),
                now.nanos(),
                self.rate_per_sec as nat,
                self.burst as nat,
            );
        }
        let tokens = if admitted {
            refilled.minus_one()
        } else {
            refilled
        };
        let mut buckets = IpMap::new();
        std::mem::swap(&mut buckets, &mut self.buckets);
        buckets.insert(ip, TokenBucket { tokens, last_refill: now });
        self.buckets = buckets;
        proof {
            let bucket = TokenBucket { tokens, last_refill: now };
            assert(self.buckets() =~= old(self).buckets().insert(ip, bucket.numbers()));
        }
        admitted
    }

    /// Drops buckets that have refilled to capacity (i.e. have seen no recent
    /// activity).
    pub fn evict_idle(&mut self, now: Timestamp)
        ensures
            final(self).rate() == old(self).rate(),
            final(self).burst() == old(self).burst(),
            are_valid(old(self).buckets(), old(self).burst()),
            are_valid(final(self).buckets(), final(self).burst()),
            final(self).buckets() == busy_buckets(
                old(self).buckets(),
                now.nanos(),
                old(self).rate(),
                old(self).burst(),
            ),
            forall|ip: IpAddr|
                {
                    let before = old(self).buckets();
                    let full = token_bucket::refilled_tokens(
                        before[ip],
                        now.nanos(),
                        old(self).rate(),
                        old(self).burst(),
                    ) == old(self).burst() * pow2(82);
                    &&& #[trigger] final(self).buckets().contains_key(ip)
                        <==> before.contains_key(ip) && !full
                    &&& final(self).buckets().contains_key(ip) ==> final(self).buckets()[ip]
                        == before[ip]
                },
    {
        proof {
            use_type_invariant(&*self);
            let before = self.buckets();
            let (at, per_sec, most) = (now.nanos(), self.rate(), self.burst());
            let after = busy_buckets(before, at, per_sec, most);
            assert forall|ip: IpAddr|
                {
                    &&& #[trigger] after.contains_key(ip) <==> before.contains_key(ip)
                        && token_bucket::refilled_tokens(before[ip], at, per_sec, most) != most
                        * pow2(82)
                    &&& after.contains_key(ip) ==> after[ip] == before[ip]
                } by {
                eviction_drops_exactly_the_full(before, ip, at, per_sec, most);
            }
        }
        let capacity = Double::from_integer(self.burst as u64);
        let keys = self.buckets.keys();
        let mut kept: IpMap<TokenBucket> = IpMap::new();
        let ghost all = self.buckets@;
        let ghost rate = self.rate_per_sec as nat;
        let ghost burst = self.burst as nat;
        for i in 0..keys.len()
            invariant
                self == old(self),
                self.valid(),
                all == self.buckets@,
                rate == self.rate_per_sec,
                burst == self.burst,
                capacity.units() == double::integer_units(burst),
                forall|ip: IpAddr| #[trigger] keys@.contains(ip) <==> all.contains_key(ip),
                forall|ip: IpAddr| #[trigger]
                    kept@.contains_key(ip) <==> (keys@.take(i as int).contains(ip)
                        && token_bucket::refilled_tokens(
                        all[ip].numbers(),
                        now.nanos(),
                        rate,
                        burst,
                    ) < double::integer_units(burst)),
                forall|ip: IpAddr| #[trigger] kept@.contains_key(ip) ==> kept@[ip] == all[ip],
        {
            let ip = keys[i];
            assert(keys@.contains(ip));
            assert(keys@.take(i + 1) =~= keys@.take(i as int).push(ip));
            assert forall|other: IpAddr| keys@.take(i + 1).contains(other) <==> (keys@.take(
                i as int,
            ).contains(other) || other == ip) by {
                if other == ip {
                    assert(keys@.take(i + 1)[i as int] == other);
                }
                if keys@.take(i as int).contains(other) {
                    let j = keys@.take(i as int).index_of(other);
                    assert(keys@.take(i + 1)[j] == other);
                }
            }
            let ghost before = kept@;
            if let Some(bucket) = self.buckets.get(ip) {
                let refilled = Self::refilled_tokens(&bucket, now, self.rate_per_sec, self.burst);
                if !capacity.at_most(refilled) {
                    kept.insert(ip, bucket);
                }
            }
            assert forall|other: IpAddr| #[trigger]
                kept@.contains_key(other) <==> (keys@.take(i + 1).contains(other)
                    && token_bucket::refilled_tokens(all[other].numbers(), now.nanos(), rate, burst)
                    < double::integer_units(burst)) by {
                assert(before.contains_key(other) <==> (keys@.take(i as int).contains(other)
                    && token_bucket::refilled_tokens(all[other].numbers(), now.nanos(), rate, burst)
                    < double::integer_units(burst)));
            }
        }
        proof {
            assert(keys@.take(keys@.len() as int) =~= keys@);
            assert(kept@.dom().subset_of(all.dom()));
            vstd::set_lib::lemma_len_subset(kept@.dom(), all.dom());
        }
        self.buckets = kept;
        assert(self.buckets() =~= busy_buckets(old(self).buckets(), now.nanos(), rate, burst));
    }

    /// The number of sources that are tracked.
    pub fn tracked_ips(&self) -> (count: usize)
        ensures
            count == self.buckets().dom().len(),
            count <= MAX_TRACKED_IPS,
    {
        proof {
            use_type_invariant(self);
            assert(self.buckets().dom() =~= self.buckets@.dom());
        }
        self.buckets.len()
    }

    /// Tokens `bucket` holds after refilling for the time elapsed since its last
    /// update, clamped to the burst capacity.
    fn refilled_tokens(bucket: &TokenBucket, now: Timestamp, rate: u32, burst: u32) -> (tokens:
        Double)
        requires
            token_bucket::is_valid(bucket.numbers(), burst as nat),
        ensures
            bucket.tokens.units() <= tokens.units() <= double::integer_units(burst as nat),
            now.nanos() <= bucket.last_refill.nanos() ==> tokens.units() == bucket.tokens.units(),
            tokens.units() == token_bucket::refilled_tokens(
                bucket.numbers(),
                now.nanos(),
                rate as nat,
                burst as nat,
            ),
    {
        let elapsed = now.seconds_since(bucket.last_refill);
        proof {
            refill_is_bounded(elapsed.units(), bucket.tokens.units(), rate as nat, burst as nat);
            token_bucket::refilling_takes_no_tokens(
                bucket.numbers(),
                now.nanos(),
                rate as nat,
                burst as nat,
            );
        }
        bucket.tokens.plus(elapsed.times(rate)).min(Double::from_integer(burst as u64))
    }
}

/// No step of refilling leaves the range of the numbers.
proof fn refill_is_bounded(elapsed: nat, tokens: nat, rate: nat, burst: nat)
    requires
        elapsed <= double::integer_units(0x2_0000_0000_0000_0000),
        tokens <= double::integer_units(burst),
        rate <= u32::MAX,
        burst <= u32::MAX,
    ensures
        elapsed * rate <= double::units_limit(),
        tokens + rounding::rounded(elapsed * rate, 1) <= double::units_limit(),
{
    let unit = pow2(82);
    lemma2_to64();
    lemma_pow2_unfold(65);
    lemma_pow2_adds(65, 82);
    lemma_pow2_adds(32, 147);
    lemma_pow2_adds(32, 82);
    assert(elapsed * rate <= pow2(147) * pow2(32)) by (nonlinear_arith)
        requires
            elapsed <= pow2(147),
            rate <= pow2(32),
    ;
    assert(burst * unit <= pow2(32) * unit) by (nonlinear_arith)
        requires
            burst <= pow2(32),
    ;
    rounding::rounded_is_monotonic(elapsed * rate, pow2(179), 1);
    rounding::rounded_is_exact(1, 179);
    lemma_pow2_strictly_increases(114, 179);
    lemma_pow2_unfold(180);
    lemma_pow2_strictly_increases(180, 200);
    lemma_pow2_strictly_increases(179, 200);
}

/// Buckets are far smaller than the numbers that lose their last place.
proof fn burst_is_small(burst: nat)
    requires
        burst <= u32::MAX,
    ensures
        double::integer_units(burst) < double::integer_units(rounding::SIGNIFICAND_LIMIT as nat),
        double::integer_units(1) == rounding::rounded(double::integer_units(1), 1),
{
    let unit = pow2(82);
    lemma_pow2_pos(82);
    assert(burst * unit < rounding::SIGNIFICAND_LIMIT as nat * unit) by (nonlinear_arith)
        requires
            burst < rounding::SIGNIFICAND_LIMIT,
            unit > 0,
    ;
    rounding::rounded_is_exact(1, 82);
}

/// Sources have buckets of their own: an attempt leaves every other source's
/// bucket as it is.
pub proof fn sources_are_independent(
    buckets: Map<IpAddr, Bucket>,
    ip: IpAddr,
    other: IpAddr,
    now: nat,
    rate: nat,
    burst: nat,
)
    requires
        ip != other,
    ensures
        ({
            let after = checked(buckets, ip, now, rate, burst).1;
            &&& after.contains_key(other) == buckets.contains_key(other)
            &&& buckets.contains_key(other) ==> after[other] == buckets[other]
        }),
{
}

/// The number of tracked sources never exceeds the cap: neither attempts nor
/// evictions carry it over.
pub proof fn tracked_sources_stay_within_the_cap(
    buckets: Map<IpAddr, Bucket>,
    ip: IpAddr,
    now: nat,
    rate: nat,
    burst: nat,
)
    requires
        buckets.dom().finite(),
        buckets.dom().len() <= MAX_TRACKED_IPS,
    ensures
        ({
            let after = checked(buckets, ip, now, rate, burst).1;
            after.dom().finite() && after.dom().len() <= MAX_TRACKED_IPS
        }),
        ({
            let after = busy_buckets(buckets, now, rate, burst);
            after.dom().finite() && after.dom().len() <= buckets.dom().len()
        }),
{
    let after = busy_buckets(buckets, now, rate, burst);
    assert(after.dom().subset_of(buckets.dom()));
    vstd::set_lib::lemma_len_subset(after.dom(), buckets.dom());
}

/// Whether `fewer` holds the buckets of `buckets` but for some that are full at
/// `now`.
pub open spec fn lacks_only_full_buckets(
    fewer: Map<IpAddr, Bucket>,
    buckets: Map<IpAddr, Bucket>,
    now: nat,
    rate: nat,
    burst: nat,
) -> bool {
    &&& forall|ip: IpAddr| #[trigger]
        fewer.contains_key(ip) ==> buckets.contains_key(ip) && fewer[ip] == buckets[ip]
    &&& forall|ip: IpAddr|
        buckets.contains_key(ip) && !(#[trigger] fewer.contains_key(ip))
            ==> token_bucket::refilled_tokens(buckets[ip], now, rate, burst)
            == double::integer_units(burst)
}

/// Evicting drops full buckets only.
pub proof fn eviction_drops_full_buckets(
    buckets: Map<IpAddr, Bucket>,
    now: nat,
    rate: nat,
    burst: nat,
)
    ensures
        lacks_only_full_buckets(busy_buckets(buckets, now, rate, burst), buckets, now, rate, burst),
{
}

/// A full bucket is indistinguishable from a never-seen source, so forgetting it
/// is safe: from then on every attempt that the cap lets through is decided as if
/// nothing had been forgotten, and the same holds of the attempts after it.
pub proof fn eviction_changes_no_decision(
    fewer: Map<IpAddr, Bucket>,
    buckets: Map<IpAddr, Bucket>,
    now: nat,
    ip: IpAddr,
    later: nat,
    rate: nat,
    burst: nat,
)
    requires
        lacks_only_full_buckets(fewer, buckets, now, rate, burst),
        buckets.dom().finite(),
        buckets.dom().len() <= MAX_TRACKED_IPS,
        buckets.contains_key(ip) || buckets.dom().len() < MAX_TRACKED_IPS,
        now <= later,
        burst <= u32::MAX,
    ensures
        checked(fewer, ip, later, rate, burst).0 == checked(buckets, ip, later, rate, burst).0,
        lacks_only_full_buckets(
            checked(fewer, ip, later, rate, burst).1,
            checked(buckets, ip, later, rate, burst).1,
            later,
            rate,
            burst,
        ),
{
    assert(fewer.dom().subset_of(buckets.dom()));
    vstd::set_lib::lemma_len_subset(fewer.dom(), buckets.dom());
    if buckets.contains_key(ip) && !fewer.contains_key(ip) {
        token_bucket::refilling_is_monotonic(buckets[ip], now, later, rate, burst);
        token_bucket::refilling_at_once(burst, later, rate, burst);
        assert(fewer.dom().subset_of(buckets.dom().remove(ip)));
        vstd::set_lib::lemma_len_subset(fewer.dom(), buckets.dom().remove(ip));
    }
    let after = checked(buckets, ip, later, rate, burst).1;
    let after_fewer = checked(fewer, ip, later, rate, burst).1;
    assert forall|other: IpAddr|
        after.contains_key(other) && !(#[trigger] after_fewer.contains_key(other)) implies
        token_bucket::refilled_tokens(after[other], later, rate, burst)
        == double::integer_units(burst) by {
        assert(buckets.contains_key(other) && !fewer.contains_key(other));
        token_bucket::refilling_is_monotonic(buckets[other], now, later, rate, burst);
    }
    assert forall|other: IpAddr| #[trigger] after_fewer.contains_key(other) implies
        after.contains_key(other) && after_fewer[other] == after[other] by {
        if other != ip {
            assert(fewer.contains_key(other));
        }
    }
}

/// Something that is done with a limiter.
pub enum Activity {
    /// An attempt from a source, at a point in time.
    Attempt(IpAddr, nat),
    /// An eviction of idle buckets, at a point in time.
    Eviction(nat),
}

/// When something is done.
pub open spec fn time_of(activity: Activity) -> nat {
    match activity {
        Activity::Attempt(_, now) => now,
        Activity::Eviction(now) => now,
    }
}

/// The buckets after a series of activities.
pub open spec fn buckets_after(
    buckets: Map<IpAddr, Bucket>,
    activities: Seq<Activity>,
    rate: nat,
    burst: nat,
) -> Map<IpAddr, Bucket>
    decreases activities.len(),
{
    if activities.len() == 0 {
        buckets
    } else {
        let before = buckets_after(buckets, activities.drop_last(), rate, burst);
        match activities.last() {
            Activity::Attempt(ip, now) => checked(before, ip, now, rate, burst).1,
            Activity::Eviction(now) => busy_buckets(before, now, rate, burst),
        }
    }
}

/// Every bucket stays valid, whatever is done.
pub proof fn buckets_stay_valid(
    buckets: Map<IpAddr, Bucket>,
    activities: Seq<Activity>,
    rate: nat,
    burst: nat,
)
    requires
        are_valid(buckets, burst),
        burst <= u32::MAX,
    ensures
        are_valid(buckets_after(buckets, activities, rate, burst), burst),
    decreases activities.len(),
{
    if activities.len() > 0 {
        let earlier = activities.drop_last();
        let before = buckets_after(buckets, earlier, rate, burst);
        buckets_stay_valid(buckets, earlier, rate, burst);
        if let Activity::Attempt(ip, now) = activities.last() {
            token_bucket::buckets_are_valid(before[ip], now, rate, burst);
            token_bucket::buckets_are_valid(
                token_bucket::full_bucket(now, burst),
                now,
                rate,
                burst,
            );
        }
    }
}

/// How many attempts from `ip` are admitted in a series of activities.
pub open spec fn admissions(
    ip: IpAddr,
    buckets: Map<IpAddr, Bucket>,
    activities: Seq<Activity>,
    rate: nat,
    burst: nat,
) -> nat
    decreases activities.len(),
{
    if activities.len() == 0 {
        0
    } else {
        let earlier = activities.drop_last();
        let before = buckets_after(buckets, earlier, rate, burst);
        let so_far = admissions(ip, buckets, earlier, rate, burst);
        match activities.last() {
            Activity::Attempt(source, now) => if source == ip && checked(
                before,
                ip,
                now,
                rate,
                burst,
            ).0 {
                so_far + 1
            } else {
                so_far
            },
            Activity::Eviction(_) => so_far,
        }
    }
}

/// `count` attempts from one source at one point in time.
pub open spec fn attempts_at_once(ip: IpAddr, now: nat, count: nat) -> Seq<Activity> {
    Seq::new(count, |i: int| Activity::Attempt(ip, now))
}

/// A source that is not tracked gets its full burst at once and not one connection
/// more, as long as the cap leaves room for it.
pub proof fn new_source_gets_the_burst(
    ip: IpAddr,
    buckets: Map<IpAddr, Bucket>,
    now: nat,
    count: nat,
    rate: nat,
    burst: nat,
)
    requires
        !buckets.contains_key(ip),
        buckets.dom().len() < MAX_TRACKED_IPS,
        burst <= u32::MAX,
    ensures
        admissions(ip, buckets, attempts_at_once(ip, now, count), rate, burst) == vstd::math::min(
            count as int,
            burst as int,
        ),
        count > 0 ==> buckets_after(buckets, attempts_at_once(ip, now, count), rate, burst)
            == buckets.insert(
            ip,
            token_bucket::after_attempts(
                token_bucket::full_bucket(now, burst),
                count,
                now,
                rate,
                burst,
            ),
        ),
    decreases count,
{
    if count > 0 {
        let fewer = (count - 1) as nat;
        let full = token_bucket::full_bucket(now, burst);
        let attempts = attempts_at_once(ip, now, count);
        new_source_gets_the_burst(ip, buckets, now, fewer, rate, burst);
        assert(attempts.drop_last() =~= attempts_at_once(ip, now, fewer));
        token_bucket::burst_is_admitted_at_once(fewer, now, rate, burst);
        let left = token_bucket::after_attempts(full, fewer, now, rate, burst);
        let after = token_bucket::after_attempt(left, now, rate, burst);
        assert(buckets.insert(ip, left).insert(ip, after) =~= buckets.insert(ip, after));
    }
}

/// Whether activities are in the order of their times, from `start` on.
pub open spec fn in_order(start: nat, activities: Seq<Activity>) -> bool {
    &&& forall|i: int| 0 <= i < activities.len() ==> start <= #[trigger] time_of(activities[i])
    &&& forall|i: int, j: int|
        0 <= i <= j < activities.len() ==> time_of(activities[i]) <= time_of(activities[j])
}

/// The time that a series of activities takes from `start` on.
pub open spec fn duration(start: nat, activities: Seq<Activity>) -> nat {
    if activities.len() == 0 {
        0
    } else {
        clock::nanos_between(start, time_of(activities.last()))
    }
}

/// What can be admitted in some time, in parts of a token: the burst, what the
/// rate allows, and what rounding adds.
spec fn allowance(nanos: nat, count: nat, rate: nat, burst: nat) -> nat {
    (double::integer_units(burst) * clock::NANOS_PER_SEC * rounding::SIGNIFICAND_LIMIT
        + double::integer_units(nanos * rate) * (rounding::SIGNIFICAND_LIMIT + 4) + count * (
    double::integer_units(burst) * clock::NANOS_PER_SEC)) as nat
}

/// Tokens in the parts that an allowance is counted in.
spec fn in_parts(tokens: nat) -> nat {
    (tokens * clock::NANOS_PER_SEC * rounding::SIGNIFICAND_LIMIT) as nat
}

/// Whether the tokens that a source has used, and those that it has left, are
/// within the allowance.
spec fn is_accounted_for(
    ip: IpAddr,
    buckets: Map<IpAddr, Bucket>,
    used: nat,
    start: nat,
    now: nat,
    count: nat,
    rate: nat,
    burst: nat,
) -> bool {
    used > 0 ==> if buckets.contains_key(ip) {
        &&& start <= buckets[ip].last_refill <= now
        &&& in_parts(buckets[ip].tokens + double::integer_units(used)) <= allowance(
            (buckets[ip].last_refill - start) as nat,
            count,
            rate,
            burst,
        )
    } else {
        in_parts(double::integer_units(burst) + double::integer_units(used)) <= allowance(
            (now - start) as nat,
            count,
            rate,
            burst,
        )
    }
}

/// An allowance only grows with time and activities.
proof fn allowance_grows(nanos1: nat, nanos2: nat, count1: nat, count2: nat, rate: nat, burst: nat)
    requires
        nanos1 <= nanos2,
        count1 <= count2,
    ensures
        allowance(nanos1, count1, rate, burst) <= allowance(nanos2, count2, rate, burst),
        in_parts(double::integer_units(burst)) <= allowance(nanos1, count1, rate, burst),
{
    let unit = pow2(82);
    let more = (rounding::SIGNIFICAND_LIMIT + 4) as nat;
    let loss = (double::integer_units(burst) * clock::NANOS_PER_SEC) as nat;
    assert(nanos1 * rate <= nanos2 * rate) by (nonlinear_arith)
        requires
            nanos1 <= nanos2,
    ;
    let gain1 = nanos1 * rate;
    let gain2 = nanos2 * rate;
    assert(gain1 * unit * more <= gain2 * unit * more) by (nonlinear_arith)
        requires
            gain1 <= gain2,
            unit >= 0,
            more >= 0,
    ;
    assert(gain1 * unit * more >= 0) by (nonlinear_arith);
    assert(0 <= count1 * loss <= count2 * loss) by (nonlinear_arith)
        requires
            count1 <= count2,
            loss >= 0,
    ;
}

/// One refill stays within what the allowance grows by.
proof fn refill_is_allowed(
    bucket: Bucket,
    used: nat,
    start: nat,
    now: nat,
    count: nat,
    rate: nat,
    burst: nat,
)
    requires
        start <= bucket.last_refill <= now,
        in_parts(bucket.tokens + double::integer_units(used)) <= allowance(
            (bucket.last_refill - start) as nat,
            count,
            rate,
            burst,
        ),
    ensures
        in_parts(
            token_bucket::refilled_tokens(bucket, now, rate, burst) + double::integer_units(used),
        ) <= allowance((now - start) as nat, count + 1, rate, burst),
{
    let unit = pow2(82);
    let more = (rounding::SIGNIFICAND_LIMIT + 4) as nat;
    let loss = (double::integer_units(burst) * clock::NANOS_PER_SEC) as nat;
    let d0 = (bucket.last_refill - start) as nat;
    let d1 = (now - start) as nat;
    let dt = (now - bucket.last_refill) as nat;
    token_bucket::refill_is_close(bucket, now, rate, burst);
    assert((d0 * rate) * unit + (dt * rate) * unit == (d1 * rate) * unit) by (nonlinear_arith)
        requires
            d1 == d0 + dt,
    ;
    assert(((d0 * rate) * unit + (dt * rate) * unit) * more == (d0 * rate) * unit * more + (dt
        * rate) * unit * more) by (nonlinear_arith);
    assert((count + 1) * loss == count * loss + loss) by (nonlinear_arith);
}

/// Every activity keeps the tokens of a source accounted for.
proof fn tokens_are_accounted_for(
    ip: IpAddr,
    buckets: Map<IpAddr, Bucket>,
    start: nat,
    activities: Seq<Activity>,
    rate: nat,
    burst: nat,
)
    requires
        in_order(start, activities),
    ensures
        is_accounted_for(
            ip,
            buckets_after(buckets, activities, rate, burst),
            admissions(ip, buckets, activities, rate, burst),
            start,
            start + duration(start, activities),
            activities.len(),
            rate,
            burst,
        ),
    decreases activities.len(),
{
    if activities.len() > 0 {
        let earlier = activities.drop_last();
        let before = buckets_after(buckets, earlier, rate, burst);
        let used = admissions(ip, buckets, earlier, rate, burst);
        let then = start + duration(start, earlier);
        let now = time_of(activities.last());
        let count = earlier.len();
        if earlier.len() > 0 {
            assert(earlier.last() == activities[earlier.len() - 1]);
        }
        assert(in_order(start, earlier)) by {
            assert forall|i: int, j: int| 0 <= i <= j < earlier.len() implies time_of(earlier[i])
                <= time_of(earlier[j]) by {
                assert(earlier[i] == activities[i] && earlier[j] == activities[j]);
            }
        }
        tokens_are_accounted_for(ip, buckets, start, earlier, rate, burst);
        assert(then <= now);
        allowance_grows(
            (then - start) as nat,
            (now - start) as nat,
            count,
            count + 1,
            rate,
            burst,
        );
        if before.contains_key(ip) && used > 0 {
            let kept = (before[ip].last_refill - start) as nat;
            allowance_grows(kept, kept, count, count + 1, rate, burst);
            refill_is_allowed(before[ip], used, start, now, count, rate, burst);
        }
        assert((used + 1) * pow2(82) == used * pow2(82) + 1 * pow2(82)) by (nonlinear_arith);
        assert(0 * pow2(82) == 0) by (nonlinear_arith);
    }
}

/// The rate at which a single source is admitted is bounded. From any point in
/// time on, whatever was done before and whatever other sources do, at most the
/// burst is admitted and what the rate allows in the time since. Rounding adds to
/// that at most four parts in 2^53 of the latter, and for each attempt or eviction
/// one part in 2^53 of the burst.
pub proof fn admission_rate_is_bounded(
    ip: IpAddr,
    buckets: Map<IpAddr, Bucket>,
    start: nat,
    activities: Seq<Activity>,
    rate: nat,
    burst: nat,
)
    requires
        in_order(start, activities),
    ensures
        admissions(ip, buckets, activities, rate, burst) * clock::NANOS_PER_SEC
            * rounding::SIGNIFICAND_LIMIT <= burst * clock::NANOS_PER_SEC
            * rounding::SIGNIFICAND_LIMIT + duration(start, activities) * rate * (
        rounding::SIGNIFICAND_LIMIT + 4) + activities.len() * burst * clock::NANOS_PER_SEC,
{
    let unit = pow2(82);
    let sec = clock::NANOS_PER_SEC as nat;
    let limit = rounding::SIGNIFICAND_LIMIT as nat;
    let used = admissions(ip, buckets, activities, rate, burst);
    let after = buckets_after(buckets, activities, rate, burst);
    let nanos = duration(start, activities);
    let gained = nanos * rate;
    let count = activities.len();
    tokens_are_accounted_for(ip, buckets, start, activities, rate, burst);
    lemma_pow2_pos(82);
    assert(nanos * rate >= 0 && count * burst * sec >= 0) by (nonlinear_arith);
    assert(gained * (limit + 4) >= 0) by (nonlinear_arith);
    if used > 0 {
        if after.contains_key(ip) {
            allowance_grows(
                (after[ip].last_refill - start) as nat,
                nanos,
                count,
                count,
                rate,
                burst,
            );
        }
        assert(in_parts(used * unit) <= allowance(nanos, count, rate, burst));
        let at_start = burst * sec * limit;
        let by_rate = gained * (limit + 4);
        let by_rounding = count * burst * sec;
        let bound = at_start + by_rate + by_rounding;
        assert((burst * unit) * sec * limit == at_start * unit) by (nonlinear_arith)
            requires
                at_start == burst * sec * limit,
        ;
        assert((gained * unit) * (limit + 4) == by_rate * unit) by (nonlinear_arith)
            requires
                by_rate == gained * (limit + 4),
        ;
        assert(count * ((burst * unit) * sec) == by_rounding * unit) by (nonlinear_arith)
            requires
                by_rounding == count * burst * sec,
        ;
        assert(at_start * unit + by_rate * unit + by_rounding * unit == bound * unit) by (
        nonlinear_arith)
            requires
                bound == at_start + by_rate + by_rounding,
        ;
        assert((used * unit) * sec * limit == (used * sec * limit) * unit) by (nonlinear_arith);
        assert(used * sec * limit <= bound) by (nonlinear_arith)
            requires
                (used * sec * limit) * unit <= bound * unit,
                unit > 0,
        ;
    }
}

/// What an activity decides: whether an attempt is admitted, or whether an
/// eviction leaves `ip` tracked.
pub open spec fn decision(
    ip: IpAddr,
    buckets: Map<IpAddr, Bucket>,
    activity: Activity,
    rate: nat,
    burst: nat,
) -> bool {
    match activity {
        Activity::Attempt(source, now) => checked(buckets, source, now, rate, burst).0,
        Activity::Eviction(now) => busy_buckets(buckets, now, rate, burst).contains_key(ip),
    }
}

/// Whether a series of activities decides the same with either of two sets of
/// buckets.
pub open spec fn decided_alike(
    ip: IpAddr,
    buckets1: Map<IpAddr, Bucket>,
    buckets2: Map<IpAddr, Bucket>,
    activities: Seq<Activity>,
    rate: nat,
    burst: nat,
) -> bool
    decreases activities.len(),
{
    activities.len() == 0 || {
        let earlier = activities.drop_last();
        let before1 = buckets_after(buckets1, earlier, rate, burst);
        let before2 = buckets_after(buckets2, earlier, rate, burst);
        &&& decided_alike(ip, buckets1, buckets2, earlier, rate, burst)
        &&& decision(ip, before1, activities.last(), rate, burst) == decision(
            ip,
            before2,
            activities.last(),
            rate,
            burst,
        )
    }
}

/// Whether two sets of buckets are the same but for the bucket of `ip`, and the
/// two buckets of `ip` are either as a refused attempt at `now` left them or close
/// to each other.
spec fn differ_by_a_refusal(
    ip: IpAddr,
    with: Map<IpAddr, Bucket>,
    without: Map<IpAddr, Bucket>,
    refused: Bucket,
    now: nat,
    parts: nat,
    rate: nat,
    burst: nat,
) -> bool {
    &&& with.remove(ip) == without.remove(ip)
    &&& with.contains_key(ip) == without.contains_key(ip)
    &&& with.contains_key(ip) ==> {
        ||| with[ip] == token_bucket::after_attempt(refused, now, rate, burst) && without[ip]
            == refused
        ||| with[ip].last_refill == without[ip].last_refill && token_bucket::is_close(
            with[ip].tokens,
            without[ip].tokens,
            parts,
            burst,
        )
    }
}

/// Sets of buckets that are the same but for one have the same sources.
proof fn same_sources(ip: IpAddr, with: Map<IpAddr, Bucket>, without: Map<IpAddr, Bucket>)
    requires
        with.remove(ip) == without.remove(ip),
        with.contains_key(ip) == without.contains_key(ip),
    ensures
        with.dom() == without.dom(),
        forall|other: IpAddr|
            other != ip && with.contains_key(other) ==> (#[trigger] with[other]) == without[other],
{
    assert forall|other: IpAddr| with.contains_key(other) == without.contains_key(other) by {
        if other != ip {
            assert(with.contains_key(other) == with.remove(ip).contains_key(other));
            assert(without.contains_key(other) == without.remove(ip).contains_key(other));
        }
    }
    assert(with.dom() =~= without.dom());
    assert forall|other: IpAddr| other != ip && with.contains_key(other) implies (
    #[trigger] with[other]) == without[other] by {
        assert(without.contains_key(other));
        assert(with.remove(ip)[other] == with[other]);
        assert(without.remove(ip)[other] == without[other]);
    }
}

/// How far apart a refusal leaves the tokens of a source at a later point in time.
proof fn refusal_shows_little(
    ip: IpAddr,
    with: Map<IpAddr, Bucket>,
    without: Map<IpAddr, Bucket>,
    refused: Bucket,
    now: nat,
    later: nat,
    parts: nat,
    rate: nat,
    burst: nat,
)
    requires
        differ_by_a_refusal(ip, with, without, refused, now, parts, rate, burst),
        with.contains_key(ip),
        0 < burst <= u32::MAX,
        refused.last_refill <= now <= later,
        !token_bucket::admits(refused, now, rate, burst),
        parts >= 10,
    ensures
        token_bucket::is_close(
            token_bucket::refilled_tokens(with[ip], later, rate, burst),
            token_bucket::refilled_tokens(without[ip], later, rate, burst),
            parts + 2,
            burst,
        ),
        token_bucket::admits(with[ip], later, rate, burst) == token_bucket::admits(
            without[ip],
            later,
            rate,
            burst,
        ) ==> token_bucket::is_close(
            token_bucket::after_attempt(with[ip], later, rate, burst).tokens,
            token_bucket::after_attempt(without[ip], later, rate, burst).tokens,
            parts + 2,
            burst,
        ),
{
    if with[ip].last_refill == without[ip].last_refill && token_bucket::is_close(
        with[ip].tokens,
        without[ip].tokens,
        parts,
        burst,
    ) {
        token_bucket::close_buckets_stay_close(with[ip], without[ip], later, parts, rate, burst);
    } else {
        let a = token_bucket::refilled_tokens(with[ip], later, rate, burst);
        let b = token_bucket::refilled_tokens(without[ip], later, rate, burst);
        token_bucket::refused_attempt_loses_no_credit(refused, now, later, rate, burst);
        token_bucket::closeness_widens(a, b, 12, parts + 2, burst);
    }
}

/// One activity that decides the same on both sides keeps two sets of buckets
/// apart by no more than a refusal.
proof fn refusal_stays_small(
    ip: IpAddr,
    with: Map<IpAddr, Bucket>,
    without: Map<IpAddr, Bucket>,
    refused: Bucket,
    now: nat,
    activity: Activity,
    parts: nat,
    rate: nat,
    burst: nat,
)
    requires
        differ_by_a_refusal(ip, with, without, refused, now, parts, rate, burst),
        0 < burst <= u32::MAX,
        refused.last_refill <= now <= time_of(activity),
        !token_bucket::admits(refused, now, rate, burst),
        parts >= 10,
        decision(ip, with, activity, rate, burst) == decision(ip, without, activity, rate, burst),
    ensures
        differ_by_a_refusal(
            ip,
            buckets_after(with, seq![activity], rate, burst),
            buckets_after(without, seq![activity], rate, burst),
            refused,
            now,
            parts + 2,
            rate,
            burst,
        ),
{
    let after1 = buckets_after(with, seq![activity], rate, burst);
    let after2 = buckets_after(without, seq![activity], rate, burst);
    reveal_with_fuel(buckets_after, 2);
    assert(seq![activity].drop_last() =~= seq![]);
    same_sources(ip, with, without);
    if with.contains_key(ip) {
        refusal_shows_little(
            ip,
            with,
            without,
            refused,
            now,
            time_of(activity),
            parts,
            rate,
            burst,
        );
        if token_bucket::is_close(with[ip].tokens, without[ip].tokens, parts, burst) {
            token_bucket::closeness_widens(
                with[ip].tokens,
                without[ip].tokens,
                parts,
                parts + 2,
                burst,
            );
        }
    }
    assert(after1.remove(ip) =~= after2.remove(ip));
}

/// A refused attempt uses no token and loses no refill credit, so it changes no
/// later decision, up to rounding.
///
/// Whatever is done after an attempt of a tracked source was refused, compare it
/// with the same activities without the refused attempt. As long as they decide
/// the same, the two limiters differ in nothing but the tokens of that source, and
/// those by at most twelve parts in 2^53 of the burst capacity, and two more for
/// each activity. So if the next activity decides otherwise, it is an attempt of
/// that source which finds its tokens that close to one, or an eviction which finds
/// them that close to the burst capacity.
pub proof fn refused_attempt_changes_no_later_decision(
    ip: IpAddr,
    buckets: Map<IpAddr, Bucket>,
    now: nat,
    activities: Seq<Activity>,
    next: Activity,
    rate: nat,
    burst: nat,
)
    requires
        0 < burst <= u32::MAX,
        buckets.contains_key(ip),
        buckets[ip].last_refill <= now,
        !checked(buckets, ip, now, rate, burst).0,
        forall|i: int| 0 <= i < activities.len() ==> now <= #[trigger] time_of(activities[i]),
        now <= time_of(next),
        decided_alike(
            ip,
            checked(buckets, ip, now, rate, burst).1,
            buckets,
            activities,
            rate,
            burst,
        ),
    ensures
        ({
            let refused = checked(buckets, ip, now, rate, burst).1;
            let with = buckets_after(refused, activities, rate, burst);
            let without = buckets_after(buckets, activities, rate, burst);
            let parts = 12 + 2 * activities.len();
            let later = time_of(next);
            let tokens1 = token_bucket::refilled_tokens(with[ip], later, rate, burst);
            let tokens2 = token_bucket::refilled_tokens(without[ip], later, rate, burst);
            &&& with.remove(ip) == without.remove(ip)
            &&& with.contains_key(ip) == without.contains_key(ip)
            &&& with.contains_key(ip) ==> token_bucket::is_close(tokens1, tokens2, parts, burst)
            &&& decision(ip, with, next, rate, burst) != decision(ip, without, next, rate, burst)
                ==> {
                let threshold = match next {
                    Activity::Attempt(_, _) => double::integer_units(1),
                    Activity::Eviction(_) => double::integer_units(burst),
                };
                &&& next matches Activity::Attempt(source, _) ==> source == ip
                &&& with.contains_key(ip)
                &&& token_bucket::is_close(tokens1, threshold, parts, burst)
                &&& token_bucket::is_close(tokens2, threshold, parts, burst)
            }
        }),
{
    let refused = checked(buckets, ip, now, rate, burst).1;
    let with = buckets_after(refused, activities, rate, burst);
    let without = buckets_after(buckets, activities, rate, burst);
    let count = activities.len();
    refusal_stays_small_for_long(ip, buckets, now, activities, rate, burst);
    same_sources(ip, with, without);
    if with.contains_key(ip) {
        refusal_shows_little(
            ip,
            with,
            without,
            buckets[ip],
            now,
            time_of(next),
            10 + 2 * count,
            rate,
            burst,
        );
    }
    let capacity = double::integer_units(burst);
    assert((12 + 2 * count) * capacity >= 0) by (nonlinear_arith)
        requires
            capacity >= 0,
    ;
}

/// A series of activities that decides the same on both sides keeps two sets of
/// buckets apart by no more than a refusal.
proof fn refusal_stays_small_for_long(
    ip: IpAddr,
    buckets: Map<IpAddr, Bucket>,
    now: nat,
    activities: Seq<Activity>,
    rate: nat,
    burst: nat,
)
    requires
        0 < burst <= u32::MAX,
        buckets.contains_key(ip),
        buckets[ip].last_refill <= now,
        !checked(buckets, ip, now, rate, burst).0,
        forall|i: int| 0 <= i < activities.len() ==> now <= #[trigger] time_of(activities[i]),
        decided_alike(
            ip,
            checked(buckets, ip, now, rate, burst).1,
            buckets,
            activities,
            rate,
            burst,
        ),
    ensures
        differ_by_a_refusal(
            ip,
            buckets_after(checked(buckets, ip, now, rate, burst).1, activities, rate, burst),
            buckets_after(buckets, activities, rate, burst),
            buckets[ip],
            now,
            10 + 2 * activities.len(),
            rate,
            burst,
        ),
    decreases activities.len(),
{
    let refused = checked(buckets, ip, now, rate, burst).1;
    if activities.len() == 0 {
        assert(refused.remove(ip) =~= buckets.remove(ip));
    } else {
        let earlier = activities.drop_last();
        let last = activities.last();
        let with = buckets_after(refused, earlier, rate, burst);
        let without = buckets_after(buckets, earlier, rate, burst);
        assert forall|i: int| 0 <= i < earlier.len() implies now <= #[trigger] time_of(
            earlier[i],
        ) by {
            assert(earlier[i] == activities[i]);
        }
        assert(last == activities[activities.len() - 1]);
        refusal_stays_small_for_long(ip, buckets, now, earlier, rate, burst);
        refusal_stays_small(
            ip,
            with,
            without,
            buckets[ip],
            now,
            last,
            10 + 2 * earlier.len(),
            rate,
            burst,
        );
        reveal_with_fuel(buckets_after, 2);
        assert(seq![last].drop_last() =~= seq![]);
    }
}

/// Eviction is complete and sound: a source is still tracked exactly if it was and its
/// bucket has not refilled to capacity. Its bucket is then as it was.
pub proof fn eviction_drops_exactly_the_full(
    buckets: Map<IpAddr, Bucket>,
    ip: IpAddr,
    now: nat,
    rate: nat,
    burst: nat,
)
    ensures
        ({
            let after = busy_buckets(buckets, now, rate, burst);
            let full = token_bucket::refilled_tokens(buckets[ip], now, rate, burst) == burst * pow2(
                82,
            );
            &&& after.contains_key(ip) <==> buckets.contains_key(ip) && !full
            &&& after.contains_key(ip) ==> after[ip] == buckets[ip]
        }),
{
    token_bucket::tokens_stay_within_the_burst(buckets[ip], now, rate, burst);
}

/// Sources that stay away are forgotten: an eviction drops every source that has been
/// idle for as long as the rate takes to give the burst capacity and what rounding can
/// take, whatever its bucket held.
pub proof fn idle_sources_are_forgotten(
    buckets: Map<IpAddr, Bucket>,
    ip: IpAddr,
    nanos: nat,
    rate: nat,
    burst: nat,
)
    requires
        burst <= u32::MAX,
        nanos * rate * 0x1f_ffff_ffff_fffc >= burst * 1_000_000_000 * 0x20_0000_0000_0001,
    ensures
        !busy_buckets(buckets, buckets[ip].last_refill + nanos, rate, burst).contains_key(ip),
{
    token_bucket::idle_bucket_is_full(buckets[ip], nanos, rate, burst);
    eviction_drops_exactly_the_full(buckets, ip, buckets[ip].last_refill + nanos, rate, burst);
}

/// Evicting twice at the same point in time is evicting once, and evicting again later
/// is evicting later.
pub proof fn evictions_add_up(
    buckets: Map<IpAddr, Bucket>,
    now: nat,
    later: nat,
    rate: nat,
    burst: nat,
)
    requires
        now <= later,
    ensures
        busy_buckets(busy_buckets(buckets, now, rate, burst), later, rate, burst) == busy_buckets(
            buckets,
            later,
            rate,
            burst,
        ),
{
    let once = busy_buckets(buckets, now, rate, burst);
    let twice = busy_buckets(once, later, rate, burst);
    let at_last = busy_buckets(buckets, later, rate, burst);
    assert forall|ip: IpAddr|
        (#[trigger] twice.dom().contains(ip)) == at_last.dom().contains(ip) && (
        twice.dom().contains(ip) ==> twice[ip] == at_last[ip]) by {
        eviction_drops_exactly_the_full(buckets, ip, now, rate, burst);
        eviction_drops_exactly_the_full(once, ip, later, rate, burst);
        eviction_drops_exactly_the_full(buckets, ip, later, rate, burst);
        token_bucket::refilling_is_monotonic(buckets[ip], now, later, rate, burst);
        token_bucket::tokens_stay_within_the_burst(buckets[ip], later, rate, burst);
    }
    assert(twice.dom() =~= at_last.dom());
    assert(twice =~= at_last);
}

/// An attempt is decided by the bucket of its source, or a full one if it has none, and
/// by the cap: it is admitted exactly if there is room for the source and a token in the
/// bucket. The token is then taken; what is there otherwise is kept.
pub proof fn attempt_is_decided_by_its_bucket(
    buckets: Map<IpAddr, Bucket>,
    ip: IpAddr,
    now: nat,
    rate: nat,
    burst: nat,
)
    ensures
        ({
            let known = buckets.contains_key(ip);
            let bucket = if known {
                buckets[ip]
            } else {
                (Bucket { tokens: burst * pow2(82), last_refill: now })
            };
            let tokens = token_bucket::refilled_tokens(bucket, now, rate, burst);
            let (admitted, after) = checked(buckets, ip, now, rate, burst);
            let room = known || buckets.dom().len() < 16_384;
            &&& admitted <==> room && tokens >= pow2(82)
            &&& !room ==> after == buckets
            &&& room ==> after.contains_key(ip) && after[ip].last_refill == now
            &&& room ==> after[ip].tokens == if admitted {
                tokens - pow2(82)
            } else {
                tokens as int
            }
            &&& after.remove(ip) == buckets.remove(ip)
        }),
{
    let bucket = if buckets.contains_key(ip) {
        buckets[ip]
    } else {
        token_bucket::full_bucket(now, burst)
    };
    token_bucket::attempt_takes_its_token(bucket, now, rate, burst);
    assert(checked(buckets, ip, now, rate, burst).1.remove(ip) =~= buckets.remove(ip));
}

} // verus!
