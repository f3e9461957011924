//! The work budget of a generation run: a deterministic attempt limit and a
//! wall-clock watchdog, and the budget as a run spends it.

use vstd::prelude::*;
use core::time::Duration;
use crate::error::GenerationError;
use crate::model::GenerateWorksheetRequest;

verus! {

/// Attempts allowed by default; the attempt count is the primary budget.
pub const DEFAULT_MAX_ATTEMPTS: u64 = 10_000;

/// Milliseconds of the default watchdog timeout (fifteen seconds).
pub const DEFAULT_TIMEOUT_MS: u64 = 15_000;

/// The duration of `ms` milliseconds.
pub uninterp spec fn duration_from_millis(ms: u64) -> Duration;

/// The whole milliseconds of a duration.
pub uninterp spec fn duration_as_millis(d: Duration) -> u128;

/// Trusted: `Duration::from_millis` builds the duration of `ms`
/// milliseconds; a duration is a function of its millisecond count, and
/// `as_millis` gives that count back.
#[verifier::external_body]
fn millis(ms: u64) -> (d: Duration)
    ensures
        d == duration_from_millis(ms),
        duration_as_millis(d) == ms,
{
    Duration::from_millis(ms)
}

/// Trusted: `Duration::as_millis` gives the whole milliseconds of `d`.
#[verifier::external_body]
pub(crate) fn whole_millis(d: Duration) -> (r: u128)
    ensures
        r == duration_as_millis(d),
{
    d.as_millis()
}

/// A count of milliseconds held to `u64`, the largest value standing for
/// any count beyond it.
pub open spec fn saturated_millis(ms: u128) -> u64 {
    if ms > u64::MAX as u128 {
        u64::MAX
    } else {
        ms as u64
    }
}

/// The whole milliseconds of `d`, saturated to `u64`.
pub fn saturating_millis(d: Duration) -> (r: u64)
    ensures
        r == saturated_millis(duration_as_millis(d)),
{
    let ms = whole_millis(d);
    if ms > u64::MAX as u128 {
        u64::MAX
    } else {
        ms as u64
    }
}

/// The default watchdog timeout of fifteen seconds.
pub fn default_timeout() -> (d: Duration)
    ensures
        d == duration_from_millis(DEFAULT_TIMEOUT_MS),
        duration_as_millis(d) == DEFAULT_TIMEOUT_MS,
{
    millis(DEFAULT_TIMEOUT_MS)
}

#[derive(Clone, Copy, Debug, PartialEq, Eq)]
pub struct GenerationConfig {
    pub timeout: Duration,
    pub max_attempts: u64,
}

impl Default for GenerationConfig {
    fn default() -> (r: Self)
        ensures
            r.timeout == duration_from_millis(DEFAULT_TIMEOUT_MS),
            duration_as_millis(r.timeout) == DEFAULT_TIMEOUT_MS,
            r.max_attempts == DEFAULT_MAX_ATTEMPTS,
    {
        GenerationConfig { timeout: default_timeout(), max_attempts: DEFAULT_MAX_ATTEMPTS }
    }
}

impl GenerationConfig {
    pub fn with_timeout(self, timeout: Duration) -> (r: Self)
        ensures
            r.timeout == timeout,
            r.max_attempts == self.max_attempts,
    {
        GenerationConfig { timeout, max_attempts: self.max_attempts }
    }

    pub fn with_max_attempts(self, max_attempts: u64) -> (r: Self)
        ensures
            r.timeout == self.timeout,
            r.max_attempts == max_attempts,
    {
        GenerationConfig { timeout: self.timeout, max_attempts }
    }

    /// The budget a request asks for, with the defaults where it is silent.
    pub fn from_request(request: &GenerateWorksheetRequest) -> (r: Self)
        ensures
            r.timeout == duration_from_millis(
                match request.timeout_ms {
                    Some(ms) => ms,
                    None => DEFAULT_TIMEOUT_MS,
                },
            ),
            duration_as_millis(r.timeout) == match request.timeout_ms {
                Some(ms) => ms,
                None => DEFAULT_TIMEOUT_MS,
            },
            r.max_attempts == match request.max_attempts {
                Some(n) => n,
                None => DEFAULT_MAX_ATTEMPTS,
            },
    {
        let timeout = match request.timeout_ms {
            Some(ms) => millis(ms),
            None => default_timeout(),
        };
        let max_attempts = match request.max_attempts {
            Some(n) => n,
            None => DEFAULT_MAX_ATTEMPTS,
        };
        GenerationConfig { timeout, max_attempts }
    }
}

/// Attempts between two looks at the watchdog clock.
pub const TIMEOUT_CHECK_ATTEMPT_INTERVAL: u64 = 64;

/// The watchdog: whether `elapsed_ms` milliseconds of work have used up a
/// timeout of `timeout_ms`.
pub open spec fn timed_out(elapsed_ms: u64, timeout_ms: u64) -> bool {
    elapsed_ms >= timeout_ms
}

/// What one more attempt does to a run that has made `attempts` of them
/// after `elapsed_ms` milliseconds: the watchdog is looked at on every
/// attempt that is a multiple of the check interval, then the attempt
/// limit; otherwise the count goes up by one.
pub open spec fn attempt_outcome(budget: GenerationBudget, elapsed_ms: u64) -> Result<u64, GenerationError> {
    if budget.attempts % TIMEOUT_CHECK_ATTEMPT_INTERVAL == 0 && timed_out(elapsed_ms, budget.timeout_ms) {
        Err(GenerationError::Timeout { timeout_ms: budget.timeout_ms })
    } else if budget.attempts >= budget.max_attempts {
        Err(GenerationError::AttemptLimit { attempts: budget.attempts, max_attempts: budget.max_attempts })
    } else {
        Ok((budget.attempts + 1) as u64)
    }
}

/// The work budget of one generation run as it is spent: attempts made so
/// far, the attempt limit and the watchdog timeout in milliseconds. The
/// clock stays with the caller, who hands in the milliseconds elapsed since
/// the run started.
#[derive(Clone, Copy, Debug, PartialEq, Eq, Structural)]
pub struct GenerationBudget {
    pub attempts: u64,
    pub max_attempts: u64,
    pub timeout_ms: u64,
}

impl GenerationBudget {
    /// A fresh budget for `config`: no attempt made yet.
    pub fn new(config: &GenerationConfig) -> (r: Self)
        ensures
            r.attempts == 0,
            r.max_attempts == config.max_attempts,
            r.timeout_ms == saturated_millis(duration_as_millis(config.timeout)),
    {
        GenerationBudget { attempts: 0, max_attempts: config.max_attempts, timeout_ms: saturating_millis(config.timeout) }
    }

    /// The watchdog alone: a timeout error once `elapsed_ms` reaches the
    /// timeout.
    pub fn check_timeout(&self, elapsed_ms: u64) -> (r: Result<(), GenerationError>)
        ensures
            r == if timed_out(elapsed_ms, self.timeout_ms) {
                Err(GenerationError::Timeout { timeout_ms: self.timeout_ms })
            } else {
                Ok(())
            },
    {
        if elapsed_ms >= self.timeout_ms {
            Err(GenerationError::timeout_millis(self.timeout_ms))
        } else {
            Ok(())
        }
    }

    /// Spends one attempt (see `attempt_outcome`): on success the count
    /// goes up by one; on an error the budget is left as it was.
    pub fn consume_attempt(&mut self, elapsed_ms: u64) -> (r: Result<(), GenerationError>)
        ensures
            match attempt_outcome(*old(self), elapsed_ms) {
                Ok(n) => r == Ok::<(), GenerationError>(()) && *final(self) == (GenerationBudget { attempts: n, ..*old(self) }),
                Err(e) => r == Err::<(), GenerationError>(e) && *final(self) == *old(self),
            },
    {
        if self.attempts % TIMEOUT_CHECK_ATTEMPT_INTERVAL == 0 && elapsed_ms >= self.timeout_ms {
            return Err(GenerationError::timeout_millis(self.timeout_ms));
        }
        if self.attempts >= self.max_attempts {
            return Err(GenerationError::AttemptLimit { attempts: self.attempts, max_attempts: self.max_attempts });
        }
        self.attempts = self.attempts + 1;
        Ok(())
    }
}

} // verus!
