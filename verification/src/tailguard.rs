//! Opt-in admission of remote reads: a token bucket with a limit on the bytes
//! that are under way. A read that is denied becomes a cache miss.

use vstd::prelude::*;
use vstd::string::*;

verus! {

/// How many nanoseconds a second has.
pub const NANOS_PER_SECOND: u128 = 1_000_000_000;

/// The limits of remote reads.
#[derive(Clone, Copy, Debug, PartialEq, Eq, Structural)]
pub struct TailGuardRemoteReadConfig {
    pub bytes_per_second: u64,
    pub burst_bytes: u64,
    pub max_inflight_bytes: u64,
}

impl TailGuardRemoteReadConfig {
    /// Whether every limit is positive.
    pub open spec fn valid(self) -> bool {
        self.bytes_per_second > 0 && self.burst_bytes > 0 && self.max_inflight_bytes > 0
    }

    /// Refuses limits of zero.
    pub fn validate(&self) -> (r: Result<(), String>)
        ensures
            r is Ok == self.valid(),
            r matches Err(m) ==> m@
                == "TailGuard remote-read rate, burst, and inflight limits must be positive"@,
    {
        if self.bytes_per_second == 0 || self.burst_bytes == 0 || self.max_inflight_bytes == 0 {
            return Err(
                String::from_str(
                    "TailGuard remote-read rate, burst, and inflight limits must be positive",
                ),
            );
        }
        Ok(())
    }
}

/// The limits of remote reads, from options that are given together or not at all. Limits of
/// zero are refused, and so are limits beside a frozen plan of transfers.
pub fn remote_read_limits(
    rate: Option<u64>,
    burst: Option<u64>,
    max_inflight: Option<u64>,
    frozen_plan: bool,
) -> (r: Result<Option<TailGuardRemoteReadConfig>, String>)
    ensures
        match (rate, burst, max_inflight) {
            (None, None, None) => r matches Ok(None),
            (Some(a), Some(b), Some(c)) => if frozen_plan {
                r matches Err(m) && m@
                    == "TailGuard remote-read limits cannot be combined with a frozen transfer plan"@
            } else if a > 0 && b > 0 && c > 0 {
                r == Ok::<Option<TailGuardRemoteReadConfig>, String>(
                    Some(
                        TailGuardRemoteReadConfig {
                            bytes_per_second: a,
                            burst_bytes: b,
                            max_inflight_bytes: c,
                        },
                    ),
                )
            } else {
                r matches Err(m) && m@
                    == "TailGuard remote-read rate, burst, and inflight limits must be positive"@
            },
            _ => r matches Err(m) && m@
                == "TailGuard remote-read rate, burst, and inflight limits must be set together"@,
        },
{
    match (rate, burst, max_inflight) {
        (None, None, None) => Ok(None),
        (Some(bytes_per_second), Some(burst_bytes), Some(max_inflight_bytes)) => {
            if frozen_plan {
                return Err(
                    String::from_str(
                        "TailGuard remote-read limits cannot be combined with a frozen transfer plan",
                    ),
                );
            }
            let config: TailGuardRemoteReadConfig = TailGuardRemoteReadConfig {
                bytes_per_second,
                burst_bytes,
                max_inflight_bytes,
            };
            config.validate()?;
            Ok(Some(config))
        },
        _ => Err(
            String::from_str(
                "TailGuard remote-read rate, burst, and inflight limits must be set together",
            ),
        ),
    }
}

/// Why a read is denied.
#[derive(Clone, Copy, Debug, PartialEq, Eq, Structural)]
pub enum AdmissionDenial {
    BurstLimit,
    InflightLimit,
    RateLimit,
}

impl AdmissionDenial {
    /// The name of the limit.
    pub fn as_str(self) -> (r: &'static str)
        ensures
            r@ == match self {
                AdmissionDenial::BurstLimit => "burst_limit"@,
                AdmissionDenial::InflightLimit => "inflight_limit"@,
                AdmissionDenial::RateLimit => "rate_limit"@,
            },
    {
        match self {
            AdmissionDenial::BurstLimit => "burst_limit",
            AdmissionDenial::InflightLimit => "inflight_limit",
            AdmissionDenial::RateLimit => "rate_limit",
        }
    }
}

/// What a bucket holds.
#[derive(Clone, Copy, Debug, PartialEq, Eq, Structural)]
pub struct BucketState {
    /// Whole tokens, one for each byte.
    pub tokens: u64,
    /// The part of a token that has come in, in billionths.
    pub fractional_token_nanos: u64,
    /// Up to when tokens have come in, in nanoseconds.
    pub updated_at: u64,
    /// The bytes that are under way.
    pub inflight_bytes: u64,
}

/// The time by which the bucket is behind `now`.
pub open spec fn behind(s: BucketState, now: u64) -> int {
    if now < s.updated_at {
        0
    } else {
        now - s.updated_at
    }
}

/// What has come in by `now` and was not counted in whole tokens, in billionths.
pub open spec fn replenished(c: TailGuardRemoteReadConfig, s: BucketState, now: u64) -> int {
    c.bytes_per_second * behind(s, now) + s.fractional_token_nanos
}

/// The bucket at `now`: tokens come in at the rate, up to the burst. A full
/// bucket holds no part of a token.
pub open spec fn refill(c: TailGuardRemoteReadConfig, s: BucketState, now: u64) -> BucketState {
    let total = s.tokens + replenished(c, s, now) / 1_000_000_000;
    let tokens = if total < c.burst_bytes {
        total
    } else {
        c.burst_bytes as int
    };
    BucketState {
        tokens: tokens as u64,
        fractional_token_nanos: if tokens == c.burst_bytes {
            0
        } else {
            (replenished(c, s, now) % 1_000_000_000) as u64
        },
        updated_at: if now < s.updated_at {
            s.updated_at
        } else {
            now
        },
        inflight_bytes: s.inflight_bytes,
    }
}

/// Why a read of `bytes` is denied by a bucket that is up to date, if it is.
pub open spec fn denial(c: TailGuardRemoteReadConfig, s: BucketState, bytes: u64) -> Option<
    AdmissionDenial,
> {
    if bytes > c.burst_bytes {
        Some(AdmissionDenial::BurstLimit)
    } else if s.inflight_bytes + bytes > c.max_inflight_bytes {
        Some(AdmissionDenial::InflightLimit)
    } else if bytes > s.tokens {
        Some(AdmissionDenial::RateLimit)
    } else {
        None
    }
}

/// The bucket after a read of `bytes` was asked for at `now`.
pub open spec fn reserved(
    c: TailGuardRemoteReadConfig,
    s: BucketState,
    bytes: u64,
    now: u64,
) -> BucketState {
    let full = refill(c, s, now);
    if denial(c, full, bytes) is Some {
        full
    } else {
        BucketState {
            tokens: (full.tokens - bytes) as u64,
            inflight_bytes: (full.inflight_bytes + bytes) as u64,
            ..full
        }
    }
}

/// The bucket after `bytes` are no longer under way. Spent tokens stay spent.
pub open spec fn released(s: BucketState, bytes: u64) -> BucketState {
    BucketState {
        inflight_bytes: if bytes > s.inflight_bytes {
            0
        } else {
            (s.inflight_bytes - bytes) as u64
        },
        ..s
    }
}

/// Whether a bucket is within its limits.
pub open spec fn within_limits(c: TailGuardRemoteReadConfig, s: BucketState) -> bool {
    &&& s.tokens <= c.burst_bytes
    &&& s.fractional_token_nanos < 1_000_000_000
    &&& s.tokens == c.burst_bytes ==> s.fractional_token_nanos == 0
    &&& s.inflight_bytes <= c.max_inflight_bytes
}

/// What a bucket holds, in billionths of a token.
pub open spec fn level(s: BucketState) -> int {
    s.tokens * 1_000_000_000 + s.fractional_token_nanos
}

/// The right to have `bytes` under way, until it is given back.
#[derive(Debug)]
pub struct TailGuardRemoteReadPermit {
    bytes: u64,
}

impl TailGuardRemoteReadPermit {
    /// The bytes of the permit.
    pub closed spec fn bytes(self) -> u64 {
        self.bytes
    }
}

/// Admits remote reads.
#[derive(Debug)]
pub struct TailGuardRemoteReadController {
    config: TailGuardRemoteReadConfig,
    state: BucketState,
}

impl TailGuardRemoteReadController {
    /// The limits.
    pub closed spec fn config(self) -> TailGuardRemoteReadConfig {
        self.config
    }

    /// The bucket.
    pub closed spec fn state(self) -> BucketState {
        self.state
    }

    /// The limits are positive, and the bucket is within them.
    pub open spec fn wf(self) -> bool {
        self.config().valid() && within_limits(self.config(), self.state())
    }

    /// A controller with a full bucket, at the time `now`. Limits of zero are
    /// refused.
    pub fn new(config: TailGuardRemoteReadConfig, now: u64) -> (r: Result<Self, String>)
        ensures
            match r {
                Ok(c) => {
                    &&& config.valid()
                    &&& c.wf()
                    &&& c.config() == config
                    &&& c.state() == (BucketState {
                        tokens: config.burst_bytes,
                        fractional_token_nanos: 0,
                        updated_at: now,
                        inflight_bytes: 0,
                    })
                },
                Err(m) => !config.valid() && m@
                    == "TailGuard remote-read rate, burst, and inflight limits must be positive"@,
            },
    {
        config.validate()?;
        Ok(
            TailGuardRemoteReadController {
                config,
                state: BucketState {
                    tokens: config.burst_bytes,
                    fractional_token_nanos: 0,
                    updated_at: now,
                    inflight_bytes: 0,
                },
            },
        )
    }

    /// The bytes that are under way.
    pub fn inflight_bytes(&self) -> (r: u64)
        ensures
            r == self.state().inflight_bytes,
    {
        self.state.inflight_bytes
    }

    /// Admits or denies a read of `bytes` at the time `now`.
    pub fn try_reserve_at(&mut self, bytes: u64, now: u64) -> (r: Result<
        TailGuardRemoteReadPermit,
        AdmissionDenial,
    >)
        requires
            old(self).wf(),
        ensures
            final(self).wf(),
            final(self).config() == old(self).config(),
            final(self).state() == reserved(old(self).config(), old(self).state(), bytes, now),
            match r {
                Ok(permit) => permit.bytes() == bytes && denial(
                    old(self).config(),
                    refill(old(self).config(), old(self).state(), now),
                    bytes,
                ) is None,
                Err(d) => denial(
                    old(self).config(),
                    refill(old(self).config(), old(self).state(), now),
                    bytes,
                ) == Some(d),
            },
    {
        let rate: u64 = self.config.bytes_per_second;
        let burst: u64 = self.config.burst_bytes;
        let elapsed: u64 = now.saturating_sub(self.state.updated_at);
        assert(0 <= rate * elapsed <= (u64::MAX as int) * (u64::MAX as int)) by (nonlinear_arith)
            requires
                0 <= rate <= u64::MAX,
                0 <= elapsed <= u64::MAX,
        ;
        let product: u128 = rate as u128 * elapsed as u128;
        let replenished: u128 = product + self.state.fractional_token_nanos as u128;
        let total: u128 = self.state.tokens as u128 + replenished / NANOS_PER_SECOND;
        let tokens: u64 = if total < burst as u128 {
            total as u64
        } else {
            burst
        };
        self.state.tokens = tokens;
        self.state.fractional_token_nanos = if tokens == burst {
            0
        } else {
            (replenished % NANOS_PER_SECOND) as u64
        };
        if now > self.state.updated_at {
            self.state.updated_at = now;
        }
        assert(self.state == refill(old(self).config(), old(self).state(), now));
        if bytes > burst {
            return Err(AdmissionDenial::BurstLimit);
        }
        let fits: bool = match self.state.inflight_bytes.checked_add(bytes) {
            Some(sum) => sum <= self.config.max_inflight_bytes,
            None => false,
        };
        if !fits {
            return Err(AdmissionDenial::InflightLimit);
        }
        if bytes > self.state.tokens {
            return Err(AdmissionDenial::RateLimit);
        }
        self.state.tokens = self.state.tokens - bytes;
        self.state.inflight_bytes = self.state.inflight_bytes + bytes;
        Ok(TailGuardRemoteReadPermit { bytes })
    }

    /// Takes a permit back.
    pub fn release(&mut self, permit: TailGuardRemoteReadPermit)
        requires
            old(self).wf(),
        ensures
            final(self).wf(),
            final(self).config() == old(self).config(),
            final(self).state() == released(old(self).state(), permit.bytes()),
    {
        self.state.inflight_bytes = self.state.inflight_bytes.saturating_sub(permit.bytes);
    }
}

/// A reservation and its release leave as much under way as before; the tokens
/// of a read that was admitted stay spent.
pub proof fn law_release_undoes_reservation(
    c: TailGuardRemoteReadConfig,
    s: BucketState,
    bytes: u64,
    now: u64,
)
    requires
        c.valid(),
        within_limits(c, s),
        denial(c, refill(c, s, now), bytes) is None,
    ensures
        released(reserved(c, s, bytes, now), bytes).inflight_bytes == s.inflight_bytes,
        released(reserved(c, s, bytes, now), bytes).tokens == refill(c, s, now).tokens - bytes,
{
}

/// A read that is denied takes nothing: the bucket is what time alone makes it.
pub proof fn law_denial_takes_nothing(
    c: TailGuardRemoteReadConfig,
    s: BucketState,
    bytes: u64,
    now: u64,
)
    requires
        denial(c, refill(c, s, now), bytes) is Some,
    ensures
        reserved(c, s, bytes, now) == refill(c, s, now),
        reserved(c, s, bytes, now).inflight_bytes == s.inflight_bytes,
{
}

/// Tokens come back at the rate: after a time without reads, a bucket holds what it held and what
/// the rate has brought in since, or a full burst where that is less. A time that lies before
/// the last one brings nothing in. What is under way is not touched.
pub proof fn law_tokens_come_back_at_the_rate(
    c: TailGuardRemoteReadConfig,
    s: BucketState,
    now: u64,
)
    requires
        s.tokens <= c.burst_bytes,
        s.fractional_token_nanos < 1_000_000_000,
        s.tokens == c.burst_bytes ==> s.fractional_token_nanos == 0,
    ensures
        ({
            let after = refill(c, s, now);
            let held = s.tokens * 1_000_000_000 + s.fractional_token_nanos;
            let holds = after.tokens * 1_000_000_000 + after.fractional_token_nanos;
            let full = c.burst_bytes * 1_000_000_000;
            let due = held + c.bytes_per_second * (now - s.updated_at);
            &&& now >= s.updated_at && due <= full ==> holds == due
            &&& now >= s.updated_at && due >= full ==> holds == full
            &&& now <= s.updated_at ==> holds == held
            &&& now >= s.updated_at ==> after.updated_at == now
            &&& now <= s.updated_at ==> after.updated_at == s.updated_at
            &&& after.fractional_token_nanos < 1_000_000_000
            &&& after.inflight_bytes == s.inflight_bytes
        }),
{
    let r = replenished(c, s, now);
    let passed = behind(s, now);
    assert(c.bytes_per_second * passed >= 0) by (nonlinear_arith)
        requires
            c.bytes_per_second >= 0,
            passed >= 0,
    ;
    assert(r == (r / 1_000_000_000) * 1_000_000_000 + r % 1_000_000_000);
}

/// A read is admitted exactly if it is no larger than a burst, fits beside what is under way, and
/// is covered by what the bucket holds together with what the rate has brought in since; the
/// first of these that fails is the reason of the denial. One that is admitted takes exactly its
/// bytes out of the bucket, and one that is denied takes nothing.
pub proof fn law_reads_within_the_limits_are_admitted(
    c: TailGuardRemoteReadConfig,
    s: BucketState,
    bytes: u64,
    now: u64,
)
    requires
        s.tokens <= c.burst_bytes,
        s.fractional_token_nanos < 1_000_000_000,
        s.tokens == c.burst_bytes ==> s.fractional_token_nanos == 0,
    ensures
        ({
            let answer = denial(c, refill(c, s, now), bytes);
            let after = reserved(c, s, bytes, now);
            let held = s.tokens * 1_000_000_000 + s.fractional_token_nanos;
            let left = after.tokens * 1_000_000_000 + after.fractional_token_nanos;
            let passed = if now >= s.updated_at {
                now - s.updated_at
            } else {
                0
            };
            let due = held + c.bytes_per_second * passed;
            let small = bytes <= c.burst_bytes;
            let fits = s.inflight_bytes + bytes <= c.max_inflight_bytes;
            let covered = bytes * 1_000_000_000 <= due;
            &&& answer is None <==> small && fits && covered
            &&& answer == Some(AdmissionDenial::BurstLimit) <==> !small
            &&& answer == Some(AdmissionDenial::InflightLimit) <==> small && !fits
            &&& answer == Some(AdmissionDenial::RateLimit) <==> small && fits && !covered
            &&& after.inflight_bytes == s.inflight_bytes + (if small && fits && covered {
                bytes as int
            } else {
                0
            })
            &&& left == (if due <= c.burst_bytes * 1_000_000_000 {
                due
            } else {
                c.burst_bytes * 1_000_000_000
            }) - (if small && fits && covered {
                bytes * 1_000_000_000
            } else {
                0
            })
        }),
{
    law_tokens_come_back_at_the_rate(c, s, now);
}

/// Something that happens to a bucket.
pub enum BucketEvent {
    /// A read is asked for.
    Reserve { bytes: u64, now: u64 },
    /// A read is no longer under way.
    Release { bytes: u64 },
}

/// A bucket after an event.
pub open spec fn step(c: TailGuardRemoteReadConfig, s: BucketState, e: BucketEvent) -> BucketState {
    match e {
        BucketEvent::Reserve { bytes, now } => reserved(c, s, bytes, now),
        BucketEvent::Release { bytes } => released(s, bytes),
    }
}

/// The bytes that an event has admitted.
pub open spec fn admitted(c: TailGuardRemoteReadConfig, s: BucketState, e: BucketEvent) -> int {
    match e {
        BucketEvent::Reserve { bytes, now } => if denial(c, refill(c, s, now), bytes) is None {
            bytes as int
        } else {
            0
        },
        BucketEvent::Release { .. } => 0,
    }
}

/// A bucket after events in turn.
pub open spec fn run(
    c: TailGuardRemoteReadConfig,
    s: BucketState,
    events: Seq<BucketEvent>,
) -> BucketState
    decreases events.len(),
{
    if events.len() == 0 {
        s
    } else {
        step(c, run(c, s, events.drop_last()), events.last())
    }
}

/// The bytes that events in turn have admitted.
pub open spec fn total_admitted(
    c: TailGuardRemoteReadConfig,
    s: BucketState,
    events: Seq<BucketEvent>,
) -> int
    decreases events.len(),
{
    if events.len() == 0 {
        0
    } else {
        total_admitted(c, s, events.drop_last()) + admitted(
            c,
            run(c, s, events.drop_last()),
            events.last(),
        )
    }
}

/// A bucket stays within its limits, whatever happens to it.
pub proof fn law_limits_hold(
    c: TailGuardRemoteReadConfig,
    s: BucketState,
    events: Seq<BucketEvent>,
)
    requires
        c.valid(),
        within_limits(c, s),
    ensures
        within_limits(c, run(c, s, events)),
    decreases events.len(),
{
    if events.len() > 0 {
        law_limits_hold(c, s, events.drop_last());
        match events.last() {
            BucketEvent::Reserve { bytes, now } => {
                lemma_refill(c, run(c, s, events.drop_last()), now);
            },
            BucketEvent::Release { .. } => {},
        }
    }
}

proof fn lemma_refill(c: TailGuardRemoteReadConfig, s: BucketState, now: u64)
    requires
        c.valid(),
        within_limits(c, s),
    ensures
        within_limits(c, refill(c, s, now)),
        refill(c, s, now).updated_at >= s.updated_at,
        level(refill(c, s, now)) <= level(s) + c.bytes_per_second * (refill(c, s, now).updated_at
            - s.updated_at),
{
    let r = replenished(c, s, now);
    assert(c.bytes_per_second * behind(s, now) >= 0) by (nonlinear_arith)
        requires
            c.bytes_per_second >= 0,
            behind(s, now) >= 0,
    ;
    assert(behind(s, now) == refill(c, s, now).updated_at - s.updated_at);
    assert(r == (r / 1_000_000_000) * 1_000_000_000 + r % 1_000_000_000);
}

/// However reads are asked for, what is admitted is never more than a full burst
/// and what the rate brings in over the time that passes.
pub proof fn law_admission_is_bounded(
    c: TailGuardRemoteReadConfig,
    s: BucketState,
    events: Seq<BucketEvent>,
)
    requires
        c.valid(),
        within_limits(c, s),
    ensures
        run(c, s, events).updated_at >= s.updated_at,
        total_admitted(c, s, events) * 1_000_000_000 <= c.burst_bytes * 1_000_000_000
            + c.bytes_per_second * (run(c, s, events).updated_at - s.updated_at),
{
    lemma_level_accounts(c, s, events);
    law_limits_hold(c, s, events);
}

proof fn lemma_level_accounts(
    c: TailGuardRemoteReadConfig,
    s: BucketState,
    events: Seq<BucketEvent>,
)
    requires
        c.valid(),
        within_limits(c, s),
    ensures
        run(c, s, events).updated_at >= s.updated_at,
        level(run(c, s, events)) + total_admitted(c, s, events) * 1_000_000_000 <= level(s)
            + c.bytes_per_second * (run(c, s, events).updated_at - s.updated_at),
    decreases events.len(),
{
    if events.len() > 0 {
        let front = events.drop_last();
        let before = run(c, s, front);
        lemma_level_accounts(c, s, front);
        law_limits_hold(c, s, front);
        match events.last() {
            BucketEvent::Reserve { bytes, now } => {
                lemma_refill(c, before, now);
                let after = refill(c, before, now);
                let rate = c.bytes_per_second as int;
                assert(rate * (after.updated_at - before.updated_at) + rate * (before.updated_at
                    - s.updated_at) == rate * (after.updated_at - s.updated_at))
                    by (nonlinear_arith);
            },
            BucketEvent::Release { .. } => {},
        }
    }
}

/// The time of an event that asks for a read.
pub open spec fn asked_at(e: BucketEvent) -> Option<u64> {
    match e {
        BucketEvent::Reserve { now, .. } => Some(now),
        BucketEvent::Release { .. } => None,
    }
}

/// Whether reads are asked for at times that do not go back.
pub open spec fn in_order(events: Seq<BucketEvent>) -> bool {
    forall|i: int, j: int|
        0 <= i < j < events.len() && (#[trigger] asked_at(events[i])) is Some && (
        #[trigger] asked_at(events[j])) is Some ==> asked_at(events[i])->0 <= asked_at(events[j])->0
}

/// The bytes that are admitted in a window of time, its ends included.
pub open spec fn admitted_between(
    c: TailGuardRemoteReadConfig,
    s: BucketState,
    events: Seq<BucketEvent>,
    from: u64,
    to: u64,
) -> int
    decreases events.len(),
{
    if events.len() == 0 {
        0
    } else {
        let front = events.drop_last();
        admitted_between(c, s, front, from, to) + match asked_at(events.last()) {
            Some(now) => if from <= now <= to {
                admitted(c, run(c, s, front), events.last())
            } else {
                0
            },
            None => 0,
        }
    }
}

/// The last time at which a read was asked for.
spec fn last_asked(events: Seq<BucketEvent>) -> Option<u64>
    decreases events.len(),
{
    if events.len() == 0 {
        None
    } else if asked_at(events.last()) is Some {
        asked_at(events.last())
    } else {
        last_asked(events.drop_last())
    }
}

/// A read was not asked for before any of the first `m` events, which come before it.
proof fn lemma_asked_up_to(events: Seq<BucketEvent>, m: int, n: int)
    requires
        0 <= m <= n < events.len(),
        in_order(events),
        asked_at(events[n]) is Some,
    ensures
        last_asked(events.take(m)) matches Some(last) ==> last <= asked_at(events[n])->0,
    decreases m,
{
    if m > 0 {
        let some = events.take(m);
        assert(some.drop_last() =~= events.take(m - 1));
        assert(some.last() == events[m - 1]);
        lemma_asked_up_to(events, m - 1, n);
        if asked_at(events[m - 1]) is Some {
            assert(asked_at(events[m - 1])->0 <= asked_at(events[n])->0);
        }
    }
}

/// Whether what a bucket holds and what it admitted in a window stay within the burst and what
/// the rate brings in, as long as the window lasts; after it, what was admitted does.
spec fn window_accounts(
    c: TailGuardRemoteReadConfig,
    s: BucketState,
    events: Seq<BucketEvent>,
    from: u64,
    to: u64,
) -> bool {
    let held = level(run(c, s, events));
    let given = admitted_between(c, s, events, from, to) * 1_000_000_000;
    let burst = c.burst_bytes * 1_000_000_000;
    &&& run(c, s, events).updated_at >= s.updated_at
    &&& match last_asked(events) {
        None => given == 0,
        Some(last) => {
            &&& run(c, s, events).updated_at >= last
            &&& last < from ==> given == 0
            &&& from <= last <= to ==> held + given <= burst + c.bytes_per_second * (last - from)
            &&& from <= to < last ==> given <= burst + c.bytes_per_second * (to - from)
        },
    }
}

proof fn lemma_window_accounts(
    c: TailGuardRemoteReadConfig,
    s: BucketState,
    events: Seq<BucketEvent>,
    from: u64,
    to: u64,
)
    requires
        c.valid(),
        within_limits(c, s),
        in_order(events),
        from <= to,
    ensures
        window_accounts(c, s, events, from, to),
    decreases events.len(),
{
    if events.len() > 0 {
        let front = events.drop_last();
        let before = run(c, s, front);
        let e = events.last();
        assert forall|a: int, b: int|
            0 <= a < b < front.len() && (#[trigger] asked_at(front[a])) is Some && (
            #[trigger] asked_at(front[b])) is Some implies asked_at(front[a])->0 <= asked_at(
            front[b],
        )->0 by {
            assert(front[a] == events[a] && front[b] == events[b]);
        }
        lemma_window_accounts(c, s, front, from, to);
        law_limits_hold(c, s, front);
        law_limits_hold(c, s, events);
        let rate = c.bytes_per_second as int;
        if let BucketEvent::Reserve { bytes, now } = e {
            lemma_refill(c, before, now);
            let after = refill(c, before, now);
            if let Some(last) = last_asked(front) {
                let n = front.len() as int;
                assert(events.take(n) =~= front);
                assert(events[n] == e);
                lemma_asked_up_to(events, n, n);
                assert(last <= now);
                let step = after.updated_at - before.updated_at;
                assert(0 <= step <= now - last);
                if from <= last {
                    assert(rate * step + rate * (last - from) <= rate * (now - from))
                        by (nonlinear_arith)
                        requires
                            rate >= 0,
                            step <= now - last,
                    ;
                    assert(rate * (last - from) >= 0) by (nonlinear_arith)
                        requires
                            rate >= 0,
                            from <= last,
                    ;
                    if last <= to < now {
                        assert(rate * (last - from) <= rate * (to - from)) by (nonlinear_arith)
                            requires
                                rate >= 0,
                                last <= to,
                        ;
                    }
                }
            }
            if from <= now {
                assert(rate * (now - from) >= 0) by (nonlinear_arith)
                    requires
                        rate >= 0,
                        from <= now,
                ;
            }
            assert(rate * (to - from) >= 0) by (nonlinear_arith)
                requires
                    rate >= 0,
                    from <= to,
            ;
        }
    }
}

/// In any window of time, what is admitted is at most a full burst and what the rate brings in
/// over the window, however reads are asked for and end, as long as they are not asked for at
/// times that go back.
pub proof fn law_admission_is_bounded_in_any_window(
    c: TailGuardRemoteReadConfig,
    s: BucketState,
    events: Seq<BucketEvent>,
    from: u64,
    to: u64,
)
    requires
        c.valid(),
        within_limits(c, s),
        in_order(events),
        from <= to,
    ensures
        admitted_between(c, s, events, from, to) * 1_000_000_000 <= c.burst_bytes * 1_000_000_000
            + c.bytes_per_second * (to - from),
{
    lemma_window_accounts(c, s, events, from, to);
    law_limits_hold(c, s, events);
    let rate = c.bytes_per_second as int;
    assert(rate * (to - from) >= 0) by (nonlinear_arith)
        requires
            rate >= 0,
            from <= to,
    ;
    if let Some(last) = last_asked(events) {
        if from <= last <= to {
            assert(rate * (last - from) <= rate * (to - from)) by (nonlinear_arith)
                requires
                    rate >= 0,
                    last <= to,
            ;
        }
    }
}

/// The bytes of the permits that were handed out and not yet given back. A permit that is given
/// back is one of them.
pub open spec fn live(c: TailGuardRemoteReadConfig, s: BucketState, events: Seq<BucketEvent>) -> Seq<
    u64,
>
    decreases events.len(),
{
    if events.len() == 0 {
        Seq::empty()
    } else {
        let front = events.drop_last();
        let held = live(c, s, front);
        match events.last() {
            BucketEvent::Reserve { bytes, now } => if denial(
                c,
                refill(c, run(c, s, front), now),
                bytes,
            ) is None {
                held.push(bytes)
            } else {
                held
            },
            BucketEvent::Release { bytes } => if held.contains(bytes) {
                held.remove(held.index_of(bytes))
            } else {
                held
            },
        }
    }
}

/// Whether only permits are given back that were handed out, each of them once.
pub open spec fn permits_are_real(
    c: TailGuardRemoteReadConfig,
    s: BucketState,
    events: Seq<BucketEvent>,
) -> bool {
    forall|i: int|
        0 <= i < events.len() ==> ((#[trigger] events[i]) matches BucketEvent::Release { bytes }
            ==> live(c, s, events.take(i)).contains(bytes))
}

/// The bytes of some permits.
pub open spec fn total_bytes(permits: Seq<u64>) -> nat
    decreases permits.len(),
{
    if permits.len() == 0 {
        0
    } else {
        total_bytes(permits.drop_last()) + permits.last() as nat
    }
}

proof fn lemma_total_without(permits: Seq<u64>, i: int)
    requires
        0 <= i < permits.len(),
    ensures
        total_bytes(permits.remove(i)) + permits[i] == total_bytes(permits),
    decreases permits.len(),
{
    if i == permits.len() - 1 {
        assert(permits.remove(i) =~= permits.drop_last());
    } else {
        let less = permits.remove(i);
        assert(less.drop_last() =~= permits.drop_last().remove(i));
        assert(less.last() == permits.last());
        lemma_total_without(permits.drop_last(), i);
    }
}

/// The bytes that are under way are the sum of the live permits, and no more than the limit.
pub proof fn law_inflight_is_the_sum_of_live_permits(
    c: TailGuardRemoteReadConfig,
    s: BucketState,
    events: Seq<BucketEvent>,
)
    requires
        c.valid(),
        within_limits(c, s),
        s.inflight_bytes == 0,
        permits_are_real(c, s, events),
    ensures
        run(c, s, events).inflight_bytes == total_bytes(live(c, s, events)),
        total_bytes(live(c, s, events)) <= c.max_inflight_bytes,
    decreases events.len(),
{
    law_limits_hold(c, s, events);
    if events.len() > 0 {
        let front = events.drop_last();
        assert forall|i: int| 0 <= i < front.len() implies ((
        #[trigger] front[i]) matches BucketEvent::Release { bytes } ==> live(
            c,
            s,
            front.take(i),
        ).contains(bytes)) by {
            assert(front[i] == events[i]);
            assert(front.take(i) =~= events.take(i));
        }
        law_inflight_is_the_sum_of_live_permits(c, s, front);
        let held = live(c, s, front);
        match events.last() {
            BucketEvent::Reserve { bytes, now } => {
                assert(held.push(bytes).drop_last() =~= held);
            },
            BucketEvent::Release { bytes } => {
                assert(events[events.len() - 1] == events.last());
                assert(events.take(events.len() - 1) =~= front);
                let i = held.index_of(bytes);
                assert(held.contains(bytes));
                assert(0 <= i < held.len() && held[i] == bytes);
                lemma_total_without(held, i);
            },
        }
    }
}

/// Giving back a live permit takes exactly its bytes off what is under way. Spent tokens stay
/// spent, and the other permits stay live.
pub proof fn law_permits_are_given_back_exactly(
    c: TailGuardRemoteReadConfig,
    s: BucketState,
    events: Seq<BucketEvent>,
    bytes: u64,
)
    requires
        c.valid(),
        within_limits(c, s),
        s.inflight_bytes == 0,
        permits_are_real(c, s, events),
        live(c, s, events).contains(bytes),
    ensures
        ({
            let before = run(c, s, events);
            let after = released(before, bytes);
            let held = live(c, s, events);
            let rest = live(c, s, events.push(BucketEvent::Release { bytes }));
            &&& after == run(c, s, events.push(BucketEvent::Release { bytes }))
            &&& after.inflight_bytes == before.inflight_bytes - bytes
            &&& after.tokens == before.tokens
            &&& after.fractional_token_nanos == before.fractional_token_nanos
            &&& after.updated_at == before.updated_at
            &&& rest == held.remove(held.index_of(bytes))
            &&& after.inflight_bytes == total_bytes(rest)
        }),
{
    let more = events.push(BucketEvent::Release { bytes });
    assert(more.drop_last() =~= events);
    let held = live(c, s, events);
    let i = held.index_of(bytes);
    assert(0 <= i < held.len() && held[i] == bytes);
    law_inflight_is_the_sum_of_live_permits(c, s, events);
    lemma_total_without(held, i);
}

} // verus!
