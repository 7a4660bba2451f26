use anemo::clock::Timestamp;
use anemo::inbound_rate_limit::{InboundIpRateLimiter, MAX_TRACKED_IPS};
use anemo::ip_map::IpAddr;
use std::collections::HashMap;
use std::time::Duration;

fn ip(n: u8) -> IpAddr {
    IpAddr::V4(u32::from_be_bytes([127, 0, 0, n]))
}

const NOW: Duration = Duration::from_secs(1_000_000);

fn at(time: Duration) -> Timestamp {
    Timestamp::new(time.as_secs(), time.subsec_nanos())
}

#[test]
fn admits_full_burst_then_throttles() {
    let now = at(NOW);
    let mut limiter = InboundIpRateLimiter::new(10, 10);
    for _ in 0..10 {
        assert!(limiter.check(ip(1), now));
    }
    // The next attempt at the same instant is over budget.
    assert!(!limiter.check(ip(1), now));
}

#[test]
fn refills_at_the_configured_rate() {
    let now = at(NOW);
    let mut limiter = InboundIpRateLimiter::new(10, 10);
    for _ in 0..10 {
        assert!(limiter.check(ip(1), now));
    }
    assert!(!limiter.check(ip(1), now));

    // After half a second, ~5 tokens (0.5s * 10/s) have refilled.
    let later = at(NOW + Duration::from_millis(500));
    let admitted = (0..10).filter(|_| limiter.check(ip(1), later)).count();
    assert_eq!(admitted, 5);
}

#[test]
fn buckets_are_per_ip() {
    let now = at(NOW);
    let mut limiter = InboundIpRateLimiter::new(1, 1);
    assert!(limiter.check(ip(1), now));
    assert!(!limiter.check(ip(1), now));
    // A different source IP has an independent bucket.
    assert!(limiter.check(ip(2), now));
    assert!(!limiter.check(ip(2), now));
}

#[test]
fn evict_idle_reclaims_fully_refilled_buckets() {
    let now = at(NOW);
    let mut limiter = InboundIpRateLimiter::new(10, 10);
    for n in 0u8..50 {
        assert!(limiter.check(ip(n), now));
    }
    assert_eq!(limiter.tracked_ips(), 50);

    // After enough time for the buckets to refill to capacity, a sweep reclaims
    // them all -- they're indistinguishable from never-seen IPs.
    limiter.evict_idle(at(NOW + Duration::from_secs(60)));
    assert_eq!(limiter.tracked_ips(), 0);
}

#[test]
fn tracked_ips_never_exceeds_the_cap() {
    let now = at(NOW);
    // rate = burst = 1 leaves every bucket drained (non-full) at `now`, so eviction
    // can reclaim nothing and the cap must be held by rejecting new sources.
    let mut limiter = InboundIpRateLimiter::new(1, 1);
    for n in 0..MAX_TRACKED_IPS as u32 {
        assert!(limiter.check(IpAddr::V4(n), now));
    }
    assert_eq!(limiter.tracked_ips(), MAX_TRACKED_IPS);

    // A further distinct source is rejected rather than growing the map past the cap.
    let overflow = IpAddr::V4(MAX_TRACKED_IPS as u32);
    assert!(!limiter.check(overflow, now));
    assert_eq!(limiter.tracked_ips(), MAX_TRACKED_IPS);
}

#[test]
fn idle_refill_is_capped_at_burst() {
    let now = at(NOW);
    let mut limiter = InboundIpRateLimiter::new(2, 3);
    for _ in 0..3 {
        assert!(limiter.check(ip(1), now));
    }
    assert!(!limiter.check(ip(1), now));

    // A long idle period refills only up to the burst capacity, not beyond.
    let later = at(NOW + Duration::from_secs(100));
    let admitted = (0..10).filter(|_| limiter.check(ip(1), later)).count();
    assert_eq!(admitted, 3);
}

#[test]
fn cap_is_16384_sources() {
    assert_eq!(MAX_TRACKED_IPS, 16_384);
}

#[test]
fn versions_of_an_address_are_different_sources() {
    let now = at(NOW);
    let mut limiter = InboundIpRateLimiter::new(1, 1);
    assert!(limiter.check(IpAddr::V4(1), now));
    assert!(limiter.check(IpAddr::V6(1), now));
    assert!(!limiter.check(IpAddr::V6(1), now));
    assert!(limiter.check(IpAddr::V6(1 << 100), now));
    assert_eq!(limiter.tracked_ips(), 3);
}

#[test]
fn tracked_source_is_still_served_at_the_cap() {
    let mut limiter = InboundIpRateLimiter::new(1, 2);
    for n in 0..MAX_TRACKED_IPS as u128 {
        assert!(limiter.check(IpAddr::V6(n), at(NOW)));
    }
    assert!(limiter.check(IpAddr::V6(0), at(NOW)));
    assert!(!limiter.check(IpAddr::V6(0), at(NOW)));
    // One second refills all buckets but the first.
    let later = at(NOW + Duration::from_secs(1));
    limiter.evict_idle(later);
    assert_eq!(limiter.tracked_ips(), 1);
    assert!(limiter.check(IpAddr::V4(0), later));
}

#[test]
fn evicting_changes_no_decision() {
    let mut evicting = InboundIpRateLimiter::new(20, 2);
    let mut keeping = InboundIpRateLimiter::new(20, 2);
    for step in 0..400u64 {
        let now = at(NOW + Duration::from_millis(step * 87));
        let source = ip((step * step % 7) as u8);
        assert_eq!(evicting.check(source, now), keeping.check(source, now));
        evicting.evict_idle(now);
    }
    assert!(evicting.tracked_ips() < keeping.tracked_ips());
}

#[test]
fn whole_seconds_refill_exactly() {
    let mut limiter = InboundIpRateLimiter::new(3, 1000);
    for _ in 0..1000 {
        assert!(limiter.check(ip(1), at(NOW)));
    }
    let later = at(NOW + Duration::from_secs(7));
    let admitted = (0..100).filter(|_| limiter.check(ip(1), later)).count();
    assert_eq!(admitted, 21);
}

#[test]
fn admission_rate_is_bounded() {
    // Five attempts from each of three sources every 10 ms for ten seconds.
    let mut limiter = InboundIpRateLimiter::new(7, 4);
    let mut admitted = [0u64; 3];
    for step in 0..1000u64 {
        let now = at(NOW + Duration::from_millis(step * 10));
        for attempt in 0..15 {
            let source = attempt % 3;
            if limiter.check(ip(source as u8), now) {
                admitted[source] += 1;
            }
        }
        limiter.evict_idle(now);
        for count in admitted {
            assert!(count * 1000 <= 4 * 1000 + step * 10 * 7);
        }
    }
    // The burst, and 9.99 seconds at seven a second.
    assert_eq!(admitted, [73, 73, 73]);
}

#[test]
fn refused_attempts_lose_no_credit() {
    // Attempts are refused every eighth of a second, and the token comes all the
    // same when its time has come.
    let mut pestered = InboundIpRateLimiter::new(1, 3);
    let mut quiet = InboundIpRateLimiter::new(1, 3);
    for _ in 0..3 {
        assert!(pestered.check(ip(1), at(NOW)));
        assert!(quiet.check(ip(1), at(NOW)));
    }
    for eighth in 1..8 {
        let now = at(NOW + Duration::from_millis(eighth * 125));
        assert!(!pestered.check(ip(1), now));
        // Another source and an eviction make no difference.
        assert_eq!(pestered.check(ip(2), now), quiet.check(ip(2), now));
        pestered.evict_idle(now);
        quiet.evict_idle(now);
    }
    for quarter in 4..40 {
        let now = at(NOW + Duration::from_millis(quarter * 250));
        assert_eq!(pestered.check(ip(1), now), quiet.check(ip(1), now));
        assert_eq!(pestered.check(ip(1), now), quiet.check(ip(1), now));
    }

    // Thirds of a token add up too, whatever is lost in rounding.
    let mut pestered = InboundIpRateLimiter::new(1, 1);
    let mut quiet = InboundIpRateLimiter::new(1, 1);
    assert!(pestered.check(ip(1), at(NOW)));
    assert!(quiet.check(ip(1), at(NOW)));
    assert!(!pestered.check(ip(1), at(NOW + Duration::from_nanos(333_333_333))));
    assert!(!pestered.check(ip(1), at(NOW + Duration::from_nanos(666_666_667))));
    let later = at(NOW + Duration::from_nanos(1_000_000_001));
    assert!(pestered.check(ip(1), later));
    assert!(quiet.check(ip(1), later));
}

#[test]
fn time_that_goes_backwards_adds_nothing() {
    let mut limiter = InboundIpRateLimiter::new(1, 1);
    assert!(limiter.check(ip(1), at(NOW)));
    assert!(!limiter.check(ip(1), at(NOW - Duration::from_secs(5))));
    assert!(!limiter.check(ip(1), at(NOW - Duration::from_millis(4001))));
    assert!(limiter.check(ip(1), at(NOW - Duration::from_secs(4))));
}

#[test]
fn refills_take_no_tokens_away() {
    // Two thirds of a token survive any number of attempts at once or back in time.
    let mut limiter = InboundIpRateLimiter::new(2, 1);
    assert!(limiter.check(ip(1), at(NOW)));
    let then = NOW + Duration::from_nanos(333_333_333);
    assert!(!limiter.check(ip(1), at(then)));
    for step in 0..1000 {
        assert!(!limiter.check(ip(1), at(then - Duration::from_millis(step))));
    }
    // A third of a token is missing, which takes a sixth of a second.
    let back = then - Duration::from_millis(999);
    assert!(!limiter.check(ip(1), at(back + Duration::from_nanos(166_666_666))));
    assert!(limiter.check(ip(1), at(back + Duration::from_nanos(166_666_668))));
}

#[test]
fn fractions_are_rounded_as_in_double_precision() {
    // 0.2 + 0.7 + 0.1 is less than one.
    let mut limiter = InboundIpRateLimiter::new(1, 1);
    assert!(limiter.check(ip(1), at(NOW)));
    assert!(!limiter.check(ip(1), at(NOW + Duration::from_millis(200))));
    assert!(!limiter.check(ip(1), at(NOW + Duration::from_millis(900))));
    assert!(!limiter.check(ip(1), at(NOW + Duration::from_millis(1000))));

    // 0.1 + 0.7 + 0.2 is not.
    let mut limiter = InboundIpRateLimiter::new(1, 1);
    assert!(limiter.check(ip(1), at(NOW)));
    assert!(!limiter.check(ip(1), at(NOW + Duration::from_millis(100))));
    assert!(!limiter.check(ip(1), at(NOW + Duration::from_millis(800))));
    assert!(limiter.check(ip(1), at(NOW + Duration::from_millis(1000))));
}

/// Token buckets with hardware arithmetic.
struct HardwareLimiter {
    rate: f64,
    burst: f64,
    buckets: HashMap<u32, (f64, Duration)>,
}

impl HardwareLimiter {
    fn refilled(&self, bucket: (f64, Duration), now: Duration) -> f64 {
        let elapsed = now.saturating_sub(bucket.1).as_secs_f64();
        (bucket.0 + elapsed * self.rate).min(self.burst)
    }

    fn check(&mut self, ip: u32, now: Duration) -> bool {
        let bucket = *self.buckets.get(&ip).unwrap_or(&(self.burst, now));
        let tokens = self.refilled(bucket, now);
        let admitted = tokens >= 1.0;
        let left = if admitted { tokens - 1.0 } else { tokens };
        self.buckets.insert(ip, (left, now));
        admitted
    }

    fn evict_idle(&mut self, now: Duration) {
        let kept = self
            .buckets
            .iter()
            .filter(|(_, bucket)| self.refilled(**bucket, now) < self.burst)
            .map(|(ip, bucket)| (*ip, *bucket))
            .collect();
        self.buckets = kept;
    }
}

fn random(state: &mut u64) -> u64 {
    *state ^= *state << 13;
    *state ^= *state >> 7;
    *state ^= *state << 17;
    *state
}

#[test]
fn decisions_agree_with_hardware_arithmetic() {
    let mut state = 0x1234_5678_9abc_def1u64;
    for round in 0..300u32 {
        let rate = match round % 4 {
            0 => 1 + (random(&mut state) % 20) as u32,
            1 => 1 + (random(&mut state) % 100_000) as u32,
            2 => (random(&mut state) as u32).max(1),
            _ => u32::MAX,
        };
        let burst = match round % 3 {
            0 => 1 + (random(&mut state) % 5) as u32,
            1 => 1 + (random(&mut state) % 1000) as u32,
            _ => (random(&mut state) as u32).max(1),
        };
        let mut limiter = InboundIpRateLimiter::new(rate, burst);
        let mut hardware = HardwareLimiter {
            rate: f64::from(rate),
            burst: f64::from(burst),
            buckets: HashMap::new(),
        };
        let mut now = Duration::from_nanos(random(&mut state));
        let per_token = 1_000_000_000 / u64::from(rate) + 1;
        for _ in 0..200 {
            now = match random(&mut state) % 16 {
                0 => now,
                1 => now.saturating_sub(Duration::from_nanos(random(&mut state) % per_token)),
                2 => now + Duration::from_secs(random(&mut state) % 100),
                3 => {
                    let places = random(&mut state) % 56;
                    now + Duration::from_secs(random(&mut state) >> 8 >> places)
                }
                4 => now + Duration::from_millis(random(&mut state) % 1000),
                _ => now + Duration::from_nanos(random(&mut state) % (2 * per_token)),
            };
            let source = (random(&mut state) % 3) as u32;
            assert_eq!(
                limiter.check(IpAddr::V4(source), at(now)),
                hardware.check(source, now)
            );
            if random(&mut state) % 8 == 0 {
                limiter.evict_idle(at(now));
                hardware.evict_idle(now);
            }
            assert_eq!(limiter.tracked_ips(), hardware.buckets.len());
        }
    }
}
