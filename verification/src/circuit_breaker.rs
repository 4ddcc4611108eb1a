//! Circuit breaker for protecting against failing external dependencies.
//!
//! The breaker is a state machine over `Closed`, `Open` and `HalfOpen`:
//! enough consecutive failures open it; once the reset timeout has elapsed
//! a check lets a test request through (`HalfOpen`); enough successes
//! there close it again, and any failure there reopens it. The decisions
//! take the current time in milliseconds since the Unix epoch as an
//! argument; `check` and `record_failure` read the system clock.

use vstd::prelude::*;

use std::time::{Duration, SystemTime, SystemTimeError};

use crate::error::GraphError;

verus! {

#[verifier::external_type_specification]
#[verifier::external_body]
pub struct ExSystemTime(SystemTime);

#[verifier::external_type_specification]
#[verifier::external_body]
pub struct ExSystemTimeError(SystemTimeError);

/// `SystemTime::now`: the current system time; nothing is promised of it.
#[verifier::external_body]
fn clock_now() -> (t: SystemTime) {
    SystemTime::now()
}

/// `SystemTime::duration_since(UNIX_EPOCH)`: the time elapsed since the
/// Unix epoch, or an error for a time before it; nothing more is promised.
#[verifier::external_body]
fn since_epoch(t: &SystemTime) -> (r: Result<Duration, SystemTimeError>) {
    t.duration_since(SystemTime::UNIX_EPOCH)
}

/// The whole seconds of a duration, as `Duration::as_secs` gives them.
pub uninterp spec fn duration_secs_of(d: Duration) -> u64;

/// The nanoseconds of a duration beyond its whole seconds, as
/// `Duration::subsec_nanos` gives them.
pub uninterp spec fn duration_nanos_of(d: Duration) -> u32;

/// `Duration::as_secs`: the whole seconds of `d`.
#[verifier::external_body]
fn duration_secs(d: &Duration) -> (r: u64)
    ensures
        r == duration_secs_of(*d),
{
    d.as_secs()
}

/// `Duration::subsec_nanos`: the nanoseconds of `d` beyond its whole
/// seconds, always below one second.
#[verifier::external_body]
fn duration_subsec_nanos(d: &Duration) -> (r: u32)
    ensures
        r == duration_nanos_of(*d),
        r < 1_000_000_000,
{
    d.subsec_nanos()
}

/// `Duration::from_secs`: a duration of `secs` whole seconds and no
/// nanoseconds.
#[verifier::external_body]
fn duration_from_secs(secs: u64) -> (r: Duration)
    ensures
        duration_secs_of(r) == secs,
        duration_nanos_of(r) == 0,
{
    Duration::from_secs(secs)
}

/// Whole milliseconds of a duration of `secs` seconds and `nanos`
/// nanoseconds, truncated to 64 bits.
pub open spec fn millis_of(secs: u64, nanos: u32) -> u64 {
    (secs as int * 1000 + nanos as int / 1_000_000) as u64
}

/// Whole milliseconds of `d`, truncated to 64 bits.
pub open spec fn duration_millis_of(d: Duration) -> u64 {
    millis_of(duration_secs_of(d), duration_nanos_of(d))
}

/// Whole milliseconds of `d`, truncated to 64 bits.
fn duration_millis(d: &Duration) -> (r: u64)
    ensures
        r == duration_millis_of(*d),
{
    let secs = duration_secs(d);
    let nanos = duration_subsec_nanos(d);
    let total: u128 = secs as u128 * 1000 + (nanos / 1_000_000) as u128;
    let r = #[verifier::truncate] (total as u64);
    proof {
        assert(total == secs as int * 1000 + nanos as int / 1_000_000);
        assert(r == millis_of(secs, nanos));
    }
    r
}

/// Milliseconds of a reading of the time since the Unix epoch: those of the
/// duration, or zero for a clock set before the epoch.
pub fn epoch_millis(since: &Result<Duration, SystemTimeError>) -> (r: u64)
    ensures
        match since {
            Ok(d) => r == duration_millis_of(*d),
            Err(_) => r == 0,
        },
{
    match since {
        Ok(d) => duration_millis(d),
        Err(_) => 0,
    }
}

/// Milliseconds since the Unix epoch on the system clock, zero for a clock
/// set before it: `epoch_millis` of the clock's reading, which depends on
/// the time and so is not stated.
fn now_millis() -> (r: u64) {
    let t = clock_now();
    let since = since_epoch(&t);
    epoch_millis(&since)
}

/// Circuit breaker states.
#[derive(Debug, Clone, Copy, PartialEq, Eq, Structural)]
pub enum CircuitState {
    /// Circuit is closed, requests flow normally.
    Closed,
    /// Circuit is open, requests fail immediately.
    Open,
    /// Circuit is half-open, allowing test requests.
    HalfOpen,
}

/// The state a stored byte stands for: 1 is open, 2 half-open, anything
/// else closed.
pub open spec fn state_of_byte(v: u8) -> CircuitState {
    if v == 1 {
        CircuitState::Open
    } else if v == 2 {
        CircuitState::HalfOpen
    } else {
        CircuitState::Closed
    }
}

impl From<u8> for CircuitState {
    fn from(v: u8) -> (r: Self) {
        if v == 1 {
            CircuitState::Open
        } else if v == 2 {
            CircuitState::HalfOpen
        } else {
            CircuitState::Closed
        }
    }
}

impl vstd::std_specs::convert::FromSpecImpl<u8> for CircuitState {
    open spec fn obeys_from_spec() -> bool {
        true
    }

    open spec fn from_spec(v: u8) -> Self {
        state_of_byte(v)
    }
}

/// Configuration for circuit breaker behavior.
#[derive(Debug, Clone, Copy)]
pub struct CircuitBreakerConfig {
    /// Number of failures before opening the circuit.
    pub failure_threshold: u64,
    /// Duration to keep circuit open before allowing test requests.
    pub reset_timeout: Duration,
    /// Number of successes in half-open state to close circuit.
    pub success_threshold: u64,
}

impl Default for CircuitBreakerConfig {
    /// Five failures, a thirty-second reset timeout, two successes.
    fn default() -> (r: Self)
        ensures
            r.failure_threshold == 5,
            duration_secs_of(r.reset_timeout) == 30,
            duration_nanos_of(r.reset_timeout) == 0,
            r.success_threshold == 2,
    {
        CircuitBreakerConfig {
            failure_threshold: 5,
            reset_timeout: duration_from_secs(30),
            success_threshold: 2,
        }
    }
}

/// The state of a breaker: its circuit state, the failure and success
/// counters, and the time of the last recorded failure.
pub struct CircuitView {
    pub state: CircuitState,
    pub failures: u64,
    pub successes: u64,
    pub last_failure: u64,
}

/// Thresholds and timeout of a breaker.
pub struct CircuitLimits {
    pub failure_threshold: u64,
    pub success_threshold: u64,
    pub timeout_ms: u64,
}

/// A check at time `now`: whether it lets the request through, and the
/// state after it.
pub open spec fn check_step(lim: CircuitLimits, v: CircuitView, now: u64) -> (bool, CircuitView) {
    match v.state {
        CircuitState::Open => {
            let elapsed: int = if now >= v.last_failure {
                now - v.last_failure
            } else {
                0
            };
            if elapsed >= lim.timeout_ms {
                (true, CircuitView { state: CircuitState::HalfOpen, successes: 0, ..v })
            } else {
                (false, v)
            }
        },
        _ => (true, v),
    }
}

/// The state after a recorded success.
pub open spec fn success_step(lim: CircuitLimits, v: CircuitView) -> CircuitView {
    match v.state {
        CircuitState::Closed => CircuitView { failures: 0, ..v },
        CircuitState::HalfOpen => if v.successes + 1 >= lim.success_threshold {
            CircuitView { state: CircuitState::Closed, failures: 0, successes: (v.successes + 1) as u64, ..v }
        } else {
            CircuitView { successes: (v.successes + 1) as u64, ..v }
        },
        CircuitState::Open => v,
    }
}

/// The state after a failure recorded at time `now`.
pub open spec fn failure_step(lim: CircuitLimits, v: CircuitView, now: u64) -> CircuitView {
    match v.state {
        CircuitState::Closed => CircuitView {
            state: if v.failures + 1 >= lim.failure_threshold {
                CircuitState::Open
            } else {
                CircuitState::Closed
            },
            failures: (v.failures + 1) as u64,
            last_failure: now,
            ..v
        },
        CircuitState::HalfOpen => CircuitView {
            state: CircuitState::Open,
            successes: 0,
            failures: if v.failures == u64::MAX {
                0
            } else {
                (v.failures + 1) as u64
            },
            last_failure: now,
        },
        CircuitState::Open => v,
    }
}

/// The counters stay below the thresholds that would move the state on.
pub open spec fn circuit_ok(lim: CircuitLimits, v: CircuitView) -> bool {
    &&& v.state == CircuitState::Closed ==> v.failures == 0 || v.failures < lim.failure_threshold
    &&& v.state == CircuitState::HalfOpen ==> v.successes == 0 || v.successes < lim.success_threshold
}

/// Circuit breaker for protecting against external dependency failures.
#[derive(Debug)]
pub struct CircuitBreaker {
    config: CircuitBreakerConfig,
    timeout_ms: u64,
    state: CircuitState,
    failure_count: u64,
    success_count: u64,
    last_failure_time: u64,
}

impl View for CircuitBreaker {
    type V = CircuitView;

    closed spec fn view(&self) -> CircuitView {
        CircuitView {
            state: self.state,
            failures: self.failure_count,
            successes: self.success_count,
            last_failure: self.last_failure_time,
        }
    }
}

impl CircuitBreaker {
    /// The thresholds and the reset timeout in milliseconds.
    pub closed spec fn limits(&self) -> CircuitLimits {
        CircuitLimits {
            failure_threshold: self.config.failure_threshold,
            success_threshold: self.config.success_threshold,
            timeout_ms: self.timeout_ms,
        }
    }

    /// The breaker's invariant.
    pub open spec fn wf(&self) -> bool {
        circuit_ok(self.limits(), self@)
    }

    /// Creates a new, closed circuit breaker with the given configuration;
    /// its reset timeout is the configuration's in whole milliseconds.
    pub fn new(config: CircuitBreakerConfig) -> (r: Self)
        ensures
            r.wf(),
            r@ == (CircuitView { state: CircuitState::Closed, failures: 0, successes: 0, last_failure: 0 }),
            r.limits().failure_threshold == config.failure_threshold,
            r.limits().success_threshold == config.success_threshold,
            r.limits().timeout_ms == duration_millis_of(config.reset_timeout),
    {
        let timeout_ms = duration_millis(&config.reset_timeout);
        CircuitBreaker {
            config,
            timeout_ms,
            state: CircuitState::Closed,
            failure_count: 0,
            success_count: 0,
            last_failure_time: 0,
        }
    }

    /// Creates a circuit breaker with default configuration.
    pub fn with_defaults() -> (r: Self)
        ensures
            r.wf(),
            r@ == (CircuitView { state: CircuitState::Closed, failures: 0, successes: 0, last_failure: 0 }),
            r.limits().failure_threshold == 5,
            r.limits().success_threshold == 2,
            r.limits().timeout_ms == 30_000,
    {
        CircuitBreaker::new(CircuitBreakerConfig::default())
    }

    /// Returns the current state of the circuit.
    pub fn state(&self) -> (r: CircuitState)
        ensures
            r == self@.state,
    {
        self.state
    }

    /// Returns the current failure count.
    pub fn failure_count(&self) -> (r: u64)
        ensures
            r == self@.failures,
    {
        self.failure_count
    }

    /// Returns the time of the last recorded failure, in milliseconds since
    /// the Unix epoch.
    pub fn last_failure_time(&self) -> (r: u64)
        ensures
            r == self@.last_failure,
    {
        self.last_failure_time
    }

    /// Checks at time `now` whether a request may proceed: always when
    /// closed or half-open; when open, once the reset timeout has elapsed
    /// since the last failure, which moves the circuit to half-open with no
    /// successes counted. Otherwise fails with `CircuitOpen`.
    pub fn check_at(&mut self, now: u64) -> (r: Result<(), GraphError>)
        requires
            old(self).wf(),
        ensures
            final(self).wf(),
            final(self).limits() == old(self).limits(),
            final(self)@ == check_step(old(self).limits(), old(self)@, now).1,
            r is Ok <==> check_step(old(self).limits(), old(self)@, now).0,
            r is Err ==> r->Err_0 is CircuitOpen,
    {
        match self.state {
            CircuitState::Closed | CircuitState::HalfOpen => Ok(()),
            CircuitState::Open => {
                let elapsed = now.saturating_sub(self.last_failure_time);
                if elapsed >= self.timeout_ms {
                    self.state = CircuitState::HalfOpen;
                    self.success_count = 0;
                    Ok(())
                } else {
                    Err(GraphError::CircuitOpen)
                }
            },
        }
    }

    /// Checks whether a request may proceed, at the current system time.
    pub fn check(&mut self) -> (r: Result<(), GraphError>)
        requires
            old(self).wf(),
        ensures
            final(self).wf(),
            final(self).limits() == old(self).limits(),
            exists|now: u64|
                final(self)@ == check_step(old(self).limits(), old(self)@, now).1 && (r is Ok
                    <==> check_step(old(self).limits(), old(self)@, now).0),
            r is Err ==> r->Err_0 is CircuitOpen,
            old(self)@.state != CircuitState::Open ==> r is Ok && final(self)@ == old(self)@,
    {
        let now = now_millis();
        self.check_at(now)
    }

    /// Records a successful operation: clears the failures when closed;
    /// counts the success when half-open and closes the circuit (clearing
    /// the failures) once the success threshold is reached; nothing when
    /// open.
    pub fn record_success(&mut self)
        requires
            old(self).wf(),
        ensures
            final(self).wf(),
            final(self).limits() == old(self).limits(),
            final(self)@ == success_step(old(self).limits(), old(self)@),
    {
        match self.state {
            CircuitState::Closed => {
                self.failure_count = 0;
            },
            CircuitState::HalfOpen => {
                let successes = self.success_count + 1;
                self.success_count = successes;
                if successes >= self.config.success_threshold {
                    self.state = CircuitState::Closed;
                    self.failure_count = 0;
                }
            },
            CircuitState::Open => {},
        }
    }

    /// Records a failure at time `now`: when closed, counts it, notes the
    /// time, and opens the circuit at the failure threshold; when half-open,
    /// reopens the circuit, clears the successes, counts the failure
    /// (wrapping) and notes the time; nothing when open.
    pub fn record_failure_at(&mut self, now: u64)
        requires
            old(self).wf(),
        ensures
            final(self).wf(),
            final(self).limits() == old(self).limits(),
            final(self)@ == failure_step(old(self).limits(), old(self)@, now),
    {
        match self.state {
            CircuitState::Closed => {
                let failures = self.failure_count + 1;
                self.failure_count = failures;
                self.last_failure_time = now;
                if failures >= self.config.failure_threshold {
                    self.state = CircuitState::Open;
                }
            },
            CircuitState::HalfOpen => {
                self.success_count = 0;
                self.failure_count = self.failure_count.wrapping_add(1);
                self.last_failure_time = now;
                self.state = CircuitState::Open;
            },
            CircuitState::Open => {},
        }
    }

    /// Records a failure at the current system time.
    pub fn record_failure(&mut self)
        requires
            old(self).wf(),
        ensures
            final(self).wf(),
            final(self).limits() == old(self).limits(),
            exists|now: u64| final(self)@ == failure_step(old(self).limits(), old(self)@, now),
            old(self)@.state == CircuitState::Open ==> final(self)@ == old(self)@,
    {
        let now = now_millis();
        self.record_failure_at(now)
    }

    /// Resets the circuit breaker to the closed state with no failures or
    /// successes counted.
    pub fn reset(&mut self)
        ensures
            final(self).wf(),
            final(self).limits() == old(self).limits(),
            final(self)@ == (CircuitView {
                state: CircuitState::Closed,
                failures: 0,
                successes: 0,
                ..old(self)@
            }),
    {
        self.state = CircuitState::Closed;
        self.failure_count = 0;
        self.success_count = 0;
    }
}

// ---------------------------------------------------------------------
// Laws of the state machine
// ---------------------------------------------------------------------

/// The state after `k` failures recorded at time `now`.
pub open spec fn failures_from(lim: CircuitLimits, v: CircuitView, k: nat, now: u64) -> CircuitView
    decreases k,
{
    if k == 0 {
        v
    } else {
        failure_step(lim, failures_from(lim, v, (k - 1) as nat, now), now)
    }
}

/// From a closed breaker with no failures, the circuit stays closed for
/// fewer failures than the threshold and is open after the threshold
/// number of failures (or after one, for a threshold of zero).
pub proof fn lemma_opens_at_threshold(lim: CircuitLimits, v: CircuitView, k: nat, now: u64)
    requires
        v.state == CircuitState::Closed,
        v.failures == 0,
    ensures
        k < lim.failure_threshold ==> failures_from(lim, v, k, now).state == CircuitState::Closed
            && failures_from(lim, v, k, now).failures == k,
        k >= lim.failure_threshold && k >= 1 ==> failures_from(lim, v, k, now).state == CircuitState::Open,
    decreases k,
{
    if k > 0 {
        lemma_opens_at_threshold(lim, v, (k - 1) as nat, now);
        if k - 1 >= lim.failure_threshold && k - 1 >= 1 {
            assert(failures_from(lim, v, (k - 1) as nat, now).state == CircuitState::Open);
        }
    }
}

/// A failure recorded while open changes nothing: in particular it does
/// not move the time from which the reset timeout runs.
pub proof fn lemma_open_failure_keeps_timer(lim: CircuitLimits, v: CircuitView, now: u64)
    requires
        v.state == CircuitState::Open,
    ensures
        failure_step(lim, v, now) == v,
{
}

/// Once the reset timeout has elapsed, a check lets the request through
/// and the circuit is half-open; within it, the check refuses.
pub proof fn lemma_open_check(lim: CircuitLimits, v: CircuitView, now: u64)
    requires
        v.state == CircuitState::Open,
    ensures
        now >= v.last_failure && now - v.last_failure >= lim.timeout_ms ==> check_step(lim, v, now).0
            && check_step(lim, v, now).1.state == CircuitState::HalfOpen,
        now >= v.last_failure && now - v.last_failure < lim.timeout_ms ==> !check_step(lim, v, now).0
            && check_step(lim, v, now).1 == v,
{
}

/// A failure recorded at `now` on a breaker that is not open becomes its
/// last failure; one recorded while half-open reopens the circuit, so every
/// check made sooner than the reset timeout after it is refused and leaves
/// the breaker as it is.
pub proof fn lemma_failure_restarts_timer(lim: CircuitLimits, v: CircuitView, now: u64, t: u64)
    requires
        v.state != CircuitState::Open,
    ensures
        failure_step(lim, v, now).last_failure == now,
        v.state == CircuitState::HalfOpen ==> failure_step(lim, v, now).state == CircuitState::Open,
        v.state == CircuitState::HalfOpen && now <= t && t - now < lim.timeout_ms ==> {
            &&& !check_step(lim, failure_step(lim, v, now), t).0
            &&& check_step(lim, failure_step(lim, v, now), t).1 == failure_step(lim, v, now)
        },
{
}

} // verus!
