//! One upstream endpoint: its identity, its limits, its rate limiter and the
//! count of requests that are in flight on it.
use crate::errors::{NotUntil, Web3ProxyError};
use vstd::prelude::*;

verus! {

#[verifier::external_type_specification]
#[verifier::external_body]
pub struct ExQuantaClock(governor::clock::QuantaClock);

#[verifier::external_type_specification]
#[verifier::external_body]
pub struct ExQuantaInstant(governor::clock::QuantaInstant);

/// A token bucket: governor's direct in-memory limiter on the quanta clock,
/// together with the instant from which its refusals are measured. Verus sees
/// nothing inside it.
#[verifier::external_body]
pub struct RateLimiter {
    inner: governor::RateLimiter<
        governor::state::NotKeyed,
        governor::state::InMemoryState,
        governor::clock::QuantaClock,
        governor::middleware::NoOpMiddleware<governor::clock::QuantaInstant>,
    >,
    epoch: governor::clock::QuantaInstant,
}

/// The clock shared by the limiters of a pool, and the instant at which it
/// was made: refusals are reported in nanoseconds since that instant.
pub struct PoolClock {
    clock: governor::clock::QuantaClock,
    epoch: governor::clock::QuantaInstant,
}

/// Calls `QuantaClock::default` of governor. Nothing is claimed of the clock.
#[verifier::external_body]
fn quanta_clock_default() -> governor::clock::QuantaClock {
    governor::clock::QuantaClock::default()
}

/// Calls `Clock::now` of governor on the quanta clock. The instant depends on
/// the time of the call, so nothing is claimed of it.
#[verifier::external_body]
fn quanta_clock_now(clock: &governor::clock::QuantaClock) -> governor::clock::QuantaInstant {
    governor::clock::Clock::now(clock)
}

/// Calls `RateLimiter::direct_with_clock` of governor with `Quota::per_second`
/// of the limit. The limit must be positive, as the quota takes a non-zero
/// number. Nothing is claimed of the limiter.
#[verifier::external_body]
fn limiter_per_second(limit: u32, clock: &PoolClock) -> RateLimiter
    requires
        limit > 0,
{
    let quota = governor::Quota::per_second(core::num::NonZeroU32::new(limit).unwrap());
    RateLimiter {
        inner: governor::RateLimiter::direct_with_clock(quota, &clock.clock),
        epoch: clock.epoch,
    }
}

/// Calls `RateLimiter::check` of governor: one cell is let through, or the
/// limiter says until when it will not be. The refusal is handed on as the
/// nanoseconds from the pool clock's first instant to governor's
/// `earliest_possible`. The outcome depends on the time and on earlier calls,
/// so nothing is claimed of it.
#[verifier::external_body]
fn limiter_check(limiter: &RateLimiter) -> Result<(), NotUntil> {
    match limiter.inner.check() {
        Ok(()) => Ok(()),
        Err(not_until) => Err(
            NotUntil {
                earliest_nanos: governor::clock::Reference::duration_since(
                    &not_until.earliest_possible(),
                    limiter.epoch,
                ).as_u64(),
            },
        ),
    }
}

/// Calls `Reference::duration_since` of governor on two quanta instants and
/// reads the nanoseconds with `Nanos::as_u64`. Nothing is claimed of the
/// number.
#[verifier::external_body]
fn nanos_since(
    later: governor::clock::QuantaInstant,
    earlier: governor::clock::QuantaInstant,
) -> u64 {
    governor::clock::Reference::duration_since(&later, earlier).as_u64()
}

impl PoolClock {
    /// A clock that starts now.
    pub fn new() -> PoolClock {
        let clock = quanta_clock_default();
        let epoch = quanta_clock_now(&clock);
        PoolClock { clock, epoch }
    }

    /// The nanoseconds since the clock was made: the timeline on which
    /// refusals and deadlines are given.
    pub fn now_nanos(&self) -> u64 {
        nanos_since(quanta_clock_now(&self.clock), self.epoch)
    }
}

/// What a caller that waits for admission is told.
#[derive(Clone, Copy, Debug, PartialEq, Eq, Structural)]
pub enum Admission {
    /// The request was let in and is counted.
    Admitted,
    /// The request was refused; it may be tried again at the given instant.
    RetryAt(u64),
}

/// What follows a refusal for a caller with a deadline: a retry at the
/// earliest possible instant, unless the deadline comes first.
pub fn after_refusal(refusal: NotUntil, deadline_nanos: u64) -> (r: Result<
    Admission,
    Web3ProxyError,
>)
    ensures
        r == if refusal.earliest_nanos > deadline_nanos {
            Err::<Admission, Web3ProxyError>(Web3ProxyError::Deadline)
        } else {
            Ok::<Admission, Web3ProxyError>(Admission::RetryAt(refusal.earliest_nanos))
        },
{
    if refusal.earliest_possible() > deadline_nanos {
        Err(Web3ProxyError::Deadline)
    } else {
        Ok(Admission::RetryAt(refusal.earliest_possible()))
    }
}

/// One upstream node.
pub struct Web3Connection {
    name: String,
    soft_limit: u32,
    hard_limit: u32,
    active_requests: u64,
    limiter: Option<RateLimiter>,
}

impl Web3Connection {
    pub closed spec fn name(&self) -> Seq<char> {
        self.name@
    }

    /// The advisory request rate that counts towards a consensus quorum.
    pub closed spec fn soft_limit(&self) -> u32 {
        self.soft_limit
    }

    /// The enforced request rate in tokens per second; zero is unlimited.
    pub closed spec fn hard_limit(&self) -> u32 {
        self.hard_limit
    }

    /// The number of requests in flight.
    pub closed spec fn active_requests(&self) -> u64 {
        self.active_requests
    }

    /// A limiter is present exactly when the hard limit is positive.
    pub closed spec fn wf(&self) -> bool {
        self.limiter.is_some() <==> self.hard_limit > 0
    }

    /// An idle upstream. A hard limit of zero makes it unlimited.
    pub fn new(name: String, soft_limit: u32, hard_limit: u32, clock: &PoolClock) -> (r:
        Web3Connection)
        ensures
            r.wf(),
            r.name() == name@,
            r.soft_limit() == soft_limit,
            r.hard_limit() == hard_limit,
            r.active_requests() == 0,
    {
        let limiter = if hard_limit > 0 {
            Some(limiter_per_second(hard_limit, clock))
        } else {
            None
        };
        Web3Connection { name, soft_limit, hard_limit, active_requests: 0, limiter }
    }

    pub fn get_name(&self) -> (r: String)
        ensures
            r@ == self.name(),
    {
        self.name.clone()
    }

    pub fn get_soft_limit(&self) -> (r: u32)
        ensures
            r == self.soft_limit(),
    {
        self.soft_limit
    }

    pub fn get_hard_limit(&self) -> (r: u32)
        ensures
            r == self.hard_limit(),
    {
        self.hard_limit
    }

    pub fn get_active_requests(&self) -> (r: u64)
        ensures
            r == self.active_requests(),
    {
        self.active_requests
    }

    /// Lower load is better: whether this upstream has strictly fewer
    /// requests in flight than the other.
    pub fn less_loaded(&self, other: &Web3Connection) -> (r: bool)
        ensures
            r == (self.active_requests() < other.active_requests()),
    {
        self.active_requests < other.active_requests
    }

    /// What an admission leaves behind, given what the limiter said: the
    /// counter moves up by one exactly when the limiter let the request in.
    pub open spec fn admitted(before: u64, outcome: Result<(), NotUntil>) -> int {
        if outcome.is_ok() {
            before + 1
        } else {
            before as int
        }
    }

    /// Counts one more request in flight if the limiter, where there is one,
    /// lets it in. An upstream without limiter never refuses.
    pub fn try_inc_active_requests(&mut self) -> (r: Result<(), NotUntil>)
        requires
            old(self).wf(),
            old(self).active_requests() < u64::MAX,
        ensures
            final(self).wf(),
            final(self).name() == old(self).name(),
            final(self).soft_limit() == old(self).soft_limit(),
            final(self).hard_limit() == old(self).hard_limit(),
            final(self).active_requests() == Self::admitted(old(self).active_requests(), r),
            old(self).hard_limit() == 0 ==> r.is_ok(),
    {
        let outcome = match &self.limiter {
            None => Ok(()),
            Some(limiter) => limiter_check(limiter),
        };
        if outcome.is_ok() {
            self.active_requests = self.active_requests + 1;
        }
        outcome
    }

    /// One round of waiting for admission up to a deadline: the request is
    /// let in and counted, or the caller is told when to try again, or that
    /// the deadline comes before that. An upstream without limiter admits at
    /// once.
    pub fn wait_for_request_handle(&mut self, deadline_nanos: u64) -> (r: Result<
        Admission,
        Web3ProxyError,
    >)
        requires
            old(self).wf(),
            old(self).active_requests() < u64::MAX,
        ensures
            final(self).wf(),
            final(self).name() == old(self).name(),
            final(self).soft_limit() == old(self).soft_limit(),
            final(self).hard_limit() == old(self).hard_limit(),
            final(self).active_requests() == if r == Ok::<Admission, Web3ProxyError>(
                Admission::Admitted,
            ) {
                old(self).active_requests() + 1
            } else {
                old(self).active_requests() as int
            },
            old(self).hard_limit() == 0 ==> r == Ok::<Admission, Web3ProxyError>(
                Admission::Admitted,
            ),
            match r {
                Ok(Admission::Admitted) => true,
                Ok(Admission::RetryAt(at)) => at <= deadline_nanos,
                Err(e) => e == Web3ProxyError::Deadline,
            },
    {
        match self.try_inc_active_requests() {
            Ok(()) => Ok(Admission::Admitted),
            Err(not_until) => after_refusal(not_until, deadline_nanos),
        }
    }

    /// Gives back one admission: the counter moves down by one, and stays at
    /// zero where nothing was in flight.
    pub fn release(&mut self)
        requires
            old(self).wf(),
        ensures
            final(self).wf(),
            final(self).name() == old(self).name(),
            final(self).soft_limit() == old(self).soft_limit(),
            final(self).hard_limit() == old(self).hard_limit(),
            final(self).active_requests() == if old(self).active_requests() > 0 {
                old(self).active_requests() - 1
            } else {
                0
            },
    {
        if self.active_requests > 0 {
            self.active_requests = self.active_requests - 1;
        }
    }
}

} // verus!
