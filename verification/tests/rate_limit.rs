use anemo::rate_limit::{
    limited_peer, quota_is_representable, PeerId, RateLimit, RateLimitLayer, Status,
};
use governor::Quota;
use std::num::NonZeroU32;
use std::sync::Arc;
use std::time::Duration;

fn nz(n: u32) -> NonZeroU32 {
    NonZeroU32::new(n).unwrap()
}

#[test]
fn basic() {
    let runtime = tokio::runtime::Builder::new_current_thread()
        .enable_time()
        .build()
        .unwrap();
    runtime.block_on(async {
        let peer = PeerId([0; 32]);

        let layer = RateLimitLayer::new(Quota::per_hour(nz(1)));

        let svc = layer.clone().layer(());
        svc.limiter.limiter.until_key_ready(&peer).await;

        let svc = layer.clone().layer(());
        let timeout_resp = tokio::time::timeout(
            Duration::from_secs(1),
            svc.limiter.limiter.until_key_ready(&peer),
        )
        .await;
        assert!(timeout_resp.is_err()); // second request should be blocked on rate limit
    });
}

#[test]
fn services_of_a_layer_share_its_limiter() {
    let layer = RateLimitLayer::new(Quota::per_hour(nz(1)));
    let one = layer.layer(1);
    let two = layer.clone().layer(2);
    assert!(Arc::ptr_eq(
        &one.limiter.limiter,
        &two.clone().limiter.limiter
    ));
    assert_eq!((one.inner, two.inner), (1, 2));

    let apart: RateLimit<i32> = RateLimit::new(1, Quota::per_hour(nz(1)));
    assert!(!Arc::ptr_eq(&one.limiter.limiter, &apart.limiter.limiter));
}

#[test]
fn limiter_has_the_quota_it_was_made_with() {
    let quota = Quota::per_hour(nz(3));
    let limiters = [
        RateLimitLayer::new(quota).limiter,
        RateLimit::<()>::layer(quota).limiter,
        RateLimit::new((), quota).limiter,
    ];
    for limiter in limiters {
        for _ in 0..3 {
            assert!(limiter.limiter.check_key(&PeerId([1; 32])).is_ok());
        }
        let refused = limiter.limiter.check_key(&PeerId([1; 32])).unwrap_err();
        assert_eq!(refused.quota(), quota);
        // Another peer has a limit of its own.
        assert!(limiter.limiter.check_key(&PeerId([2; 32])).is_ok());
    }
}

#[test]
fn inner_service_can_be_reached() {
    let mut service = RateLimit::new(String::from("a"), Quota::per_second(nz(1)));
    assert_eq!(service.inner_ref(), "a");
    service.inner_mut().push('b');
    assert_eq!(service.inner_ref(), "ab");
    assert_eq!(service.into_inner(), "ab");
}

#[test]
fn quotas_beyond_64_bits_of_nanoseconds_are_not_representable() {
    assert!(quota_is_representable(&Quota::per_second(nz(1))));
    // The interval rounds down to zero nanoseconds.
    assert!(quota_is_representable(&Quota::per_second(nz(u32::MAX))));
    let most = Quota::with_period(Duration::from_nanos(u64::MAX)).unwrap();
    assert!(quota_is_representable(&most));
    assert!(!quota_is_representable(&most.allow_burst(nz(2))));
    let over = Duration::from_nanos(u64::MAX) + Duration::from_nanos(1);
    assert!(!quota_is_representable(&Quota::with_period(over).unwrap()));
    let third = Quota::with_period(Duration::from_nanos(u64::MAX / 3)).unwrap();
    assert!(quota_is_representable(&third.allow_burst(nz(3))));
    assert!(!quota_is_representable(&third.allow_burst(nz(4))));
}

#[test]
fn layer_is_made_only_for_representable_quotas() {
    let layer = RateLimitLayer::try_new(Quota::per_hour(nz(2))).unwrap();
    assert!(layer.limiter.limiter.check_key(&PeerId([1; 32])).is_ok());
    assert!(layer.limiter.limiter.check_key(&PeerId([1; 32])).is_ok());
    assert!(layer.limiter.limiter.check_key(&PeerId([1; 32])).is_err());

    let most = Quota::with_period(Duration::from_nanos(u64::MAX)).unwrap();
    assert!(RateLimitLayer::try_new(most).is_some());
    assert!(RateLimitLayer::try_new(most.allow_burst(nz(2))).is_none());
}

#[test]
fn request_counts_against_its_sender() {
    let peer = PeerId([7; 32]);
    assert_eq!(limited_peer(Some(peer)).unwrap(), peer);
}

#[test]
fn request_without_a_sender_is_refused() {
    let Status::Internal(message) = limited_peer(None).unwrap_err();
    assert_eq!(message, "rate limiter missing request PeerId");
}
