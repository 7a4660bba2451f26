//! A per-peer rate limit on inbound requests.
//!
//! The limiter itself is the keyed rate limiter of the `governor` crate. Its
//! decisions depend on the clock and on the requests of other tasks, so nothing
//! is stated of them here.

use governor::clock::{Clock, DefaultClock};
use governor::middleware::NoOpMiddleware;
use governor::state::keyed::DefaultKeyedStateStore;
use governor::{Quota, RateLimiter};
use std::sync::Arc;
use vstd::prelude::*;
use vstd::string::*;

verus! {

#[verifier::external_type_specification]
#[verifier::external_body]
pub struct ExQuota(Quota);

/// The identity of a peer: its public key.
#[derive(Debug, Clone, Copy, PartialEq, Eq, Hash)]
pub struct PeerId(pub [u8; 32]);

/// A handle to a `governor` rate limiter that keeps a state for each peer. Its
/// clones are handles to the same limiter.
#[verifier::external_body]
#[derive(Debug)]
pub struct SharedRateLimiter {
    pub limiter: Arc<
        RateLimiter<
            PeerId,
            DefaultKeyedStateStore<PeerId>,
            DefaultClock,
            NoOpMiddleware<<DefaultClock as Clock>::Instant>,
        >,
    >,
}

/// What [`Quota::burst_size`] returns.
pub uninterp spec fn burst_size(quota: Quota) -> u32;

/// What [`Quota::replenish_interval`] returns, in nanoseconds.
pub uninterp spec fn replenish_interval(quota: Quota) -> u128;

/// The burst size and the replenish interval of the quota that a limiter was made
/// with.
pub uninterp spec fn limiter_quota(limiter: SharedRateLimiter) -> (u32, u128);

/// [`Quota::burst_size`]: how many requests a quota lets through at once, at least
/// one.
#[verifier::external_body]
fn quota_burst_size(quota: &Quota) -> (size: u32)
    ensures
        size == burst_size(*quota),
        size > 0,
{
    quota.burst_size().get()
}

/// [`Quota::replenish_interval`]: the nanoseconds until a quota lets one more
/// request through.
#[verifier::external_body]
fn quota_replenish_interval(quota: &Quota) -> (nanos: u128)
    ensures
        nanos == replenish_interval(*quota),
{
    quota.replenish_interval().as_nanos()
}

/// [`RateLimiter::keyed`]: a limiter of that quota for each key. It keeps the time
/// that the whole burst takes to replenish as 64 bits of nanoseconds, and panics
/// where that is not enough.
#[verifier::external_body]
fn keyed(quota: Quota) -> (limiter: SharedRateLimiter)
    requires
        is_representable(quota),
    ensures
        limiter_quota(limiter) == (burst_size(quota), replenish_interval(quota)),
{
    SharedRateLimiter { limiter: Arc::new(RateLimiter::keyed(quota)) }
}

impl Clone for SharedRateLimiter {
    /// [`Arc::clone`] on the handle: another handle to the same limiter.
    #[verifier::external_body]
    fn clone(&self) -> (shared: Self)
        ensures
            shared == *self,
    {
        SharedRateLimiter { limiter: Arc::clone(&self.limiter) }
    }
}

/// Whether a limiter can be made with a quota: its burst is replenished within
/// 2^64 nanoseconds.
pub open spec fn is_representable(quota: Quota) -> bool {
    burst_size(quota) * vstd::math::max(replenish_interval(quota) as int, 1) <= u64::MAX
}

/// Whether a limiter can be made with a quota.
pub fn quota_is_representable(quota: &Quota) -> (result: bool)
    ensures
        result == is_representable(*quota),
        result <==> (if replenish_interval(*quota) < 1 {
            burst_size(*quota) as int
        } else {
            burst_size(*quota) * replenish_interval(*quota)
        }) <= 0xffff_ffff_ffff_ffff,
{
    proof {
        representable_quotas(*quota);
    }
    let burst: u128 = quota_burst_size(quota) as u128;
    let interval: u128 = quota_replenish_interval(quota);
    let cell: u128 = if interval < 1 {
        1
    } else {
        interval
    };
    proof {
        assert((cell <= u64::MAX as int / burst as int) == (burst * cell <= u64::MAX)) by (
        nonlinear_arith)
            requires
                burst > 0,
        ;
    }
    cell <= 0xffff_ffff_ffff_ffff / burst
}

/// Wraps services with a per-peer rate limit on inbound requests, one limit for
/// all of them.
#[derive(Debug)]
pub struct RateLimitLayer {
    pub limiter: SharedRateLimiter,
}

impl Clone for RateLimitLayer {
    /// A layer with the same limiter.
    fn clone(&self) -> (layer: Self)
        ensures
            layer == *self,
    {
        RateLimitLayer { limiter: self.limiter.clone() }
    }
}

/// A service with a per-peer rate limit on inbound requests.
#[derive(Debug)]
pub struct RateLimit<S> {
    pub inner: S,
    pub limiter: SharedRateLimiter,
}

impl<S: Clone> Clone for RateLimit<S> {
    /// A clone of the service with the same limiter.
    fn clone(&self) -> (service: Self)
        ensures
            cloned::<S>(self.inner, service.inner),
            service.limiter == self.limiter,
    {
        RateLimit { inner: self.inner.clone(), limiter: self.limiter.clone() }
    }
}

impl RateLimitLayer {
    /// Creates a new [`RateLimitLayer`].
    pub fn new(quota: Quota) -> (layer: Self)
        requires
            is_representable(quota),
        ensures
            limiter_quota(layer.limiter) == (burst_size(quota), replenish_interval(quota)),
    {
        RateLimitLayer { limiter: keyed(quota) }
    }

    /// Creates a new [`RateLimitLayer`], if a limiter can be made with the quota.
    pub fn try_new(quota: Quota) -> (layer: Option<Self>)
        ensures
            layer is Some <==> is_representable(quota),
            layer is Some <==> (if replenish_interval(quota) < 1 {
                burst_size(quota) as int
            } else {
                burst_size(quota) * replenish_interval(quota)
            }) <= 0xffff_ffff_ffff_ffff,
            layer matches Some(made) ==> limiter_quota(made.limiter) == (
                burst_size(quota),
                replenish_interval(quota),
            ),
    {
        if quota_is_representable(&quota) {
            Some(Self::new(quota))
        } else {
            None
        }
    }

    /// Wraps `inner`. Every service that the layer wraps has the layer's limiter.
    pub fn layer<S>(&self, inner: S) -> (service: RateLimit<S>)
        ensures
            service.inner == inner,
            service.limiter == self.limiter,
    {
        RateLimit { inner, limiter: self.limiter.clone() }
    }
}

impl<S> RateLimit<S> {
    /// Creates a new [`RateLimit`].
    pub fn new(inner: S, quota: Quota) -> (service: Self)
        requires
            is_representable(quota),
        ensures
            service.inner == inner,
            limiter_quota(service.limiter) == (burst_size(quota), replenish_interval(quota)),
    {
        Self { limiter: keyed(quota), inner }
    }

    /// Gets a reference to the underlying service.
    pub fn inner_ref(&self) -> (inner: &S)
        ensures
            *inner == self.inner,
    {
        &self.inner
    }

    /// Gets a mutable reference to the underlying service.
    pub fn inner_mut(&mut self) -> (inner: &mut S)
        ensures
            *inner == old(self).inner,
            *final(self) == (Self { inner: *final(inner), limiter: old(self).limiter }),
    {
        &mut self.inner
    }

    /// Consumes `self`, returning the underlying service.
    pub fn into_inner(self) -> (inner: S)
        ensures
            inner == self.inner,
    {
        self.inner
    }

    /// Returns a new layer that wraps services with a `RateLimit`.
    pub fn layer(quota: Quota) -> (layer: RateLimitLayer)
        requires
            is_representable(quota),
        ensures
            limiter_quota(layer.limiter) == (burst_size(quota), replenish_interval(quota)),
    {
        RateLimitLayer { limiter: keyed(quota) }
    }
}

/// The outcome of a request that failed.
#[derive(Debug)]
pub enum Status {
    /// An internal error, in words.
    Internal(String),
}

/// Whose limit a request counts against: that of the peer that sent it. A request
/// without a peer is not let through.
pub fn limited_peer(peer_id: Option<PeerId>) -> (peer: Result<PeerId, Status>)
    ensures
        match peer_id {
            Some(sender) => peer == Ok::<PeerId, Status>(sender),
            None => {
                &&& peer matches Err(Status::Internal(message))
                &&& message@ == "rate limiter missing request PeerId"@
            },
        },
{
    match peer_id {
        Some(sender) => Ok(sender),
        None => Err(Status::Internal(String::from_str("rate limiter missing request PeerId"))),
    }
}

/// A limiter can be made with exactly those quotas whose burst is replenished within 64
/// bits of nanoseconds, counting an interval of no nanoseconds as one.
pub proof fn representable_quotas(quota: Quota)
    ensures
        is_representable(quota) <==> (if replenish_interval(quota) < 1 {
            burst_size(quota) as int
        } else {
            burst_size(quota) * replenish_interval(quota)
        }) <= 0xffff_ffff_ffff_ffff,
{
    let burst = burst_size(quota);
    assert(burst * 1 == burst) by (nonlinear_arith);
}

} // verus!
