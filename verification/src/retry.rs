//! Retrying gRPC calls that fail for a passing reason, with exponential backoff.
use vstd::prelude::*;

use crate::duration::{Duration, MAX_NANOS};

verus! {

/// How gRPC calls are retried.
#[derive(Clone, Copy, Debug)]
pub struct RetryConfig {
    /// The most retries that are made. Zero disables retries.
    pub max_retries: u32,
    /// The wait before the first retry, however long.
    pub initial_backoff: Duration,
    /// The longest wait between one retry and the next. It does not limit the wait before
    /// the first retry.
    pub max_backoff: Duration,
}

impl Default for RetryConfig {
    /// Three retries, the first after a tenth of a second, and the others after five
    /// seconds at most.
    fn default() -> (config: RetryConfig)
        ensures
            config.max_retries == 3,
            config.initial_backoff@ == 100_000_000,
            config.max_backoff@ == 5_000_000_000,
    {
        RetryConfig {
            max_retries: 3,
            initial_backoff: Duration::from_millis(100),
            max_backoff: Duration::from_secs(5),
        }
    }
}

// Which errors are worth a retry

/// The deadline passed before the call was done.
pub const DEADLINE_EXCEEDED: i32 = 4;

/// A resource, such as a quota, was used up.
pub const RESOURCE_EXHAUSTED: i32 = 8;

/// The call was aborted.
pub const ABORTED: i32 = 10;

/// The service failed.
pub const INTERNAL: i32 = 13;

/// The service cannot be reached.
pub const UNAVAILABLE: i32 = 14;

/// Whether a gRPC status code tells of a passing failure.
pub open spec fn is_transient(code: i32) -> bool {
    code == UNAVAILABLE || code == DEADLINE_EXCEEDED || code == RESOURCE_EXHAUSTED || code
        == INTERNAL || code == ABORTED
}

/// Whether a status with a code that tells of a passing failure stands anywhere in a
/// chain of causes. A cause that is no gRPC status has no code.
pub open spec fn is_transient_chain(codes: Seq<Option<i32>>) -> bool {
    exists|i: int|
        0 <= i < codes.len() && ((#[trigger] codes[i]) matches Some(code) && is_transient(code))
}

/// An error of the `anyhow` crate.
#[verifier::external_type_specification]
#[verifier::external_body]
pub struct ExError(anyhow::Error);

/// The gRPC status codes along the chain of causes of an error.
pub uninterp spec fn chain_codes(err: anyhow::Error) -> Seq<Option<i32>>;

/// The gRPC status codes along the chain of causes of an error.
///
/// `anyhow::Error::chain` walks from the error to its causes, and each cause that is a
/// `tonic::Status` tells its code. That the chain of an error is finite, and that it stays
/// the same from call to call, as where the `source` of each error does, is not proved.
#[verifier::external_body]
fn status_codes(err: &anyhow::Error) -> (codes: Vec<Option<i32>>)
    ensures
        codes@ == chain_codes(*err),
{
    err.chain()
        .map(|cause| cause.downcast_ref::<tonic::Status>().map(|status| status.code() as i32))
        .collect()
}

/// Whether a chain of causes is worth a retry, by the status codes of the causes.
pub fn is_retryable_chain(codes: &Vec<Option<i32>>) -> (b: bool)
    ensures
        b == is_transient_chain(codes@),
{
    for i in 0..codes.len()
        invariant
            forall|j: int|
                0 <= j < i ==> !((#[trigger] codes@[j]) matches Some(code) && is_transient(code)),
    {
        if let Some(code) = codes[i] {
            let is_passing = matches!(
                code,
                UNAVAILABLE | DEADLINE_EXCEEDED | RESOURCE_EXHAUSTED | INTERNAL | ABORTED
            );
            assert(codes@[i as int] == Some(code));
            if is_passing {
                return true;
            }
        }
    }
    false
}

/// Whether an error is worth a retry: whether a gRPC status that tells of a passing
/// failure stands anywhere in its chain of causes.
pub fn is_retryable_error(err: &anyhow::Error) -> (b: bool)
    ensures
        b == is_transient_chain(chain_codes(*err)),
{
    let codes = status_codes(err);
    is_retryable_chain(&codes)
}

/// Causes that are added around an error or found beneath it leave it worth a retry.
pub proof fn law_transient_status_is_found_anywhere(
    outer: Seq<Option<i32>>,
    codes: Seq<Option<i32>>,
    inner: Seq<Option<i32>>,
)
    requires
        is_transient_chain(codes),
    ensures
        is_transient_chain(outer + codes + inner),
{
    let i = choose|i: int|
        0 <= i < codes.len() && ((#[trigger] codes[i]) matches Some(code) && is_transient(code));
    assert((outer + codes + inner)[outer.len() + i] == codes[i]);
}

// When to retry

/// The state of a call that is retried.
pub struct Schedule {
    pub max_retries: int,
    pub max_backoff: int,
    /// How many retries have been made.
    pub retries: int,
    /// The wait before the next retry.
    pub backoff: int,
}

/// The state before the first attempt.
pub open spec fn start(config: RetryConfig) -> Schedule {
    Schedule {
        max_retries: config.max_retries as int,
        max_backoff: config.max_backoff@,
        retries: 0,
        backoff: config.initial_backoff@,
    }
}

/// The smaller of two numbers.
pub open spec fn least(a: int, b: int) -> int {
    if a <= b {
        a
    } else {
        b
    }
}

/// Whether a call that failed is tried again.
pub open spec fn goes_on(s: Schedule, retryable: bool) -> bool {
    retryable && s.retries < s.max_retries
}

/// What the failure of an attempt makes of the state, and how long to wait for the next
/// attempt, if there is one.
pub open spec fn after_failure(s: Schedule, retryable: bool) -> (Schedule, Option<int>) {
    if goes_on(s, retryable) {
        (
            Schedule {
                retries: s.retries + 1,
                backoff: least(s.backoff * 2, s.max_backoff),
                ..s
            },
            Some(s.backoff),
        )
    } else {
        (s, None)
    }
}

/// What to do after an attempt that failed.
#[derive(Clone, Copy, Debug, PartialEq, Eq, Structural)]
pub enum Decision {
    /// Return the error.
    GiveUp,
    /// Wait, then try again.
    Wait(Duration),
}

impl View for Decision {
    type V = Option<int>;

    open spec fn view(&self) -> Option<int> {
        match *self {
            Decision::GiveUp => None,
            Decision::Wait(wait) => Some(wait@),
        }
    }
}

/// A call that is retried.
pub struct Retry {
    max_retries: u32,
    max_backoff: Duration,
    retries: u32,
    backoff: Duration,
}

impl View for Retry {
    type V = Schedule;

    closed spec fn view(&self) -> Schedule {
        Schedule {
            max_retries: self.max_retries as int,
            max_backoff: self.max_backoff@,
            retries: self.retries as int,
            backoff: self.backoff@,
        }
    }
}

impl Retry {
    /// A call of which no attempt has been made.
    pub fn new(config: &RetryConfig) -> (r: Retry)
        ensures
            r@ == start(*config),
    {
        Retry {
            max_retries: config.max_retries,
            max_backoff: config.max_backoff,
            retries: 0,
            backoff: config.initial_backoff,
        }
    }

    /// How many retries have been made.
    pub fn retries(&self) -> (n: u32)
        ensures
            n == self@.retries,
    {
        self.retries
    }

    /// Whether the wait after the next one can be computed, should the attempt that
    /// failed be made again.
    pub fn can_back_off(&self, retryable: bool) -> (b: bool)
        ensures
            b == (goes_on(self@, retryable) ==> self@.backoff * 2 <= MAX_NANOS),
    {
        !retryable || self.retries >= self.max_retries || self.backoff.can_double()
    }

    /// Takes the failure of an attempt, with whether its error is worth a retry.
    pub fn on_failure(&mut self, retryable: bool) -> (d: Decision)
        requires
            goes_on(old(self)@, retryable) ==> old(self)@.backoff * 2 <= MAX_NANOS,
        ensures
            final(self)@ == after_failure(old(self)@, retryable).0,
            d@ == after_failure(old(self)@, retryable).1,
    {
        if !retryable || self.retries >= self.max_retries {
            Decision::GiveUp
        } else {
            let wait = self.backoff;
            self.retries = self.retries + 1;
            self.backoff = wait.doubled().shorter(self.max_backoff);
            Decision::Wait(wait)
        }
    }
}

// The course of a call

/// How an attempt ends.
pub enum Attempt {
    Success,
    Failure { retryable: bool },
}

/// How many attempts are made of a call whose attempts would end as `attempts` tells.
pub open spec fn made(s: Schedule, attempts: Seq<Attempt>) -> int
    decreases attempts.len(),
{
    if attempts.len() == 0 {
        0
    } else {
        match attempts[0] {
            Attempt::Success => 1,
            Attempt::Failure { retryable } => {
                if goes_on(s, retryable) {
                    1 + made(after_failure(s, retryable).0, attempts.drop_first())
                } else {
                    1
                }
            },
        }
    }
}

/// The waits between the attempts of a call.
pub open spec fn waits(s: Schedule, attempts: Seq<Attempt>) -> Seq<int>
    decreases attempts.len(),
{
    if attempts.len() == 0 {
        Seq::empty()
    } else {
        match attempts[0] {
            Attempt::Success => Seq::empty(),
            Attempt::Failure { retryable } => {
                match after_failure(s, retryable) {
                    (next, Some(wait)) => seq![wait] + waits(next, attempts.drop_first()),
                    (_, None) => Seq::empty(),
                }
            },
        }
    }
}

/// Whether an attempt fails for a passing reason.
pub open spec fn is_passing(attempt: Attempt) -> bool {
    attempt matches Attempt::Failure { retryable } && retryable
}

/// The attempts made of a call that has been retried before.
proof fn lemma_made(s: Schedule, attempts: Seq<Attempt>)
    requires
        0 <= s.retries <= s.max_retries,
    ensures
        0 <= made(s, attempts) <= attempts.len(),
        made(s, attempts) <= s.max_retries - s.retries + 1,
        attempts.len() > 0 ==> made(s, attempts) >= 1,
        forall|i: int| 0 <= i < made(s, attempts) - 1 ==> is_passing(#[trigger] attempts[i]),
        made(s, attempts) < attempts.len() && made(s, attempts) <= s.max_retries - s.retries
            ==> !is_passing(attempts[made(s, attempts) - 1]),
    decreases attempts.len(),
{
    if attempts.len() > 0 {
        if let Attempt::Failure { retryable } = attempts[0] {
            if goes_on(s, retryable) {
                let rest = attempts.drop_first();
                let next = after_failure(s, retryable).0;
                lemma_made(next, rest);
                let n = made(next, rest);
                assert forall|i: int| 0 <= i < made(s, attempts) - 1 implies is_passing(
                    #[trigger] attempts[i],
                ) by {
                    if i > 0 {
                        assert(attempts[i] == rest[i - 1]);
                    }
                }
                if n >= 1 {
                    assert(attempts[n] == rest[n - 1]);
                }
            }
        }
    }
}

/// A call is tried at least once and at most once more than it may be retried. It is
/// tried again exactly after failures with a passing reason: every attempt but the last
/// is one, and the last is none unless no retries are left.
pub proof fn law_attempts_are_bounded(config: RetryConfig, attempts: Seq<Attempt>)
    requires
        attempts.len() > config.max_retries,
    ensures
        ({
            let n = made(start(config), attempts);
            &&& 1 <= n <= config.max_retries + 1
            &&& forall|i: int| 0 <= i < n - 1 ==> is_passing(#[trigger] attempts[i])
            &&& n <= config.max_retries ==> !is_passing(attempts[n - 1])
        }),
{
    lemma_made(start(config), attempts);
}

/// A call whose retries are disabled is tried once.
pub proof fn law_no_retries(config: RetryConfig, attempts: Seq<Attempt>)
    requires
        config.max_retries == 0,
        attempts.len() > 0,
    ensures
        made(start(config), attempts) == 1,
        waits(start(config), attempts).len() == 0,
{
    lemma_made(start(config), attempts);
}

/// The wait before a retry: it doubles from retry to retry, and from the second on is
/// limited by the longest.
pub open spec fn wait_before(initial: int, max: int, retry: int) -> int {
    if retry == 0 {
        initial
    } else {
        let doubled = initial * vstd::arithmetic::power2::pow2(retry as nat);
        if doubled <= max {
            doubled
        } else {
            max
        }
    }
}

/// Doubling a wait and limiting it gives the next.
proof fn lemma_next_wait(initial: int, max: int, retry: int)
    requires
        0 <= initial,
        0 <= max,
        0 <= retry,
    ensures
        least(wait_before(initial, max, retry) * 2, max) == wait_before(initial, max, retry + 1),
{
    let p = vstd::arithmetic::power2::pow2(retry as nat) as int;
    vstd::arithmetic::power2::lemma_pow2_unfold((retry + 1) as nat);
    if retry == 0 {
        vstd::arithmetic::power2::lemma2_to64();
        assert(initial * 2 == 2 * initial);
    } else {
        assert(initial * (2 * p) == (initial * p) * 2) by (nonlinear_arith);
    }
}

/// The waits of a call that has been retried before.
proof fn lemma_waits(s: Schedule, initial: int, attempts: Seq<Attempt>)
    requires
        0 <= initial,
        0 <= s.max_backoff,
        0 <= s.retries <= s.max_retries,
        s.backoff == wait_before(initial, s.max_backoff, s.retries),
    ensures
        waits(s, attempts).len() <= s.max_retries - s.retries,
        attempts.len() > s.max_retries - s.retries ==> made(s, attempts) == waits(
            s,
            attempts,
        ).len() + 1,
        forall|k: int|
            0 <= k < waits(s, attempts).len() ==> #[trigger] waits(s, attempts)[k] == wait_before(
                initial,
                s.max_backoff,
                s.retries + k,
            ),
    decreases attempts.len(),
{
    if attempts.len() > 0 {
        if let Attempt::Failure { retryable } = attempts[0] {
            if goes_on(s, retryable) {
                let rest = attempts.drop_first();
                let next = after_failure(s, retryable).0;
                lemma_next_wait(initial, s.max_backoff, s.retries);
                lemma_waits(next, initial, rest);
                let all = waits(s, attempts);
                assert forall|k: int| 0 <= k < all.len() implies #[trigger] all[k] == wait_before(
                    initial,
                    s.max_backoff,
                    s.retries + k,
                ) by {
                    if k > 0 {
                        assert(all[k] == waits(next, rest)[k - 1]);
                    }
                }
            }
        }
    }
}

/// There is a wait before each retry of a call. The first is the initial one, and from
/// there the waits double, up to the longest.
pub proof fn law_waits_are_exponential(config: RetryConfig, attempts: Seq<Attempt>)
    requires
        0 <= config.initial_backoff@,
        0 <= config.max_backoff@,
        attempts.len() > config.max_retries,
    ensures
        ({
            let found = waits(start(config), attempts);
            &&& found.len() == made(start(config), attempts) - 1
            &&& forall|k: int|
                0 <= k < found.len() ==> #[trigger] found[k] == wait_before(
                    config.initial_backoff@,
                    config.max_backoff@,
                    k,
                )
        }),
{
    lemma_waits(start(config), config.initial_backoff@, attempts);
}

// Single decisions

/// An error is worth a retry exactly if a gRPC status stands in its chain of causes that
/// tells that a deadline passed, that a resource was used up, that the call was aborted,
/// that the service failed or that it cannot be reached. A cause that is no status, and a
/// status with any other code, does not make it so.
pub proof fn law_passing_failures_are_worth_a_retry(codes: Seq<Option<i32>>)
    ensures
        is_transient_chain(codes) <==> exists|i: int|
            0 <= i < codes.len() && (#[trigger] codes[i] == Some(4i32) || codes[i] == Some(8i32)
                || codes[i] == Some(10i32) || codes[i] == Some(13i32) || codes[i] == Some(14i32)),
{
    if is_transient_chain(codes) {
        let i = choose|i: int|
            0 <= i < codes.len() && ((#[trigger] codes[i]) matches Some(code) && is_transient(
                code,
            ));
        assert(codes[i] == Some(4i32) || codes[i] == Some(8i32) || codes[i] == Some(10i32)
            || codes[i] == Some(13i32) || codes[i] == Some(14i32));
    }
    if exists|i: int|
        0 <= i < codes.len() && (#[trigger] codes[i] == Some(4i32) || codes[i] == Some(8i32)
            || codes[i] == Some(10i32) || codes[i] == Some(13i32) || codes[i] == Some(14i32)) {
        let i = choose|i: int|
            0 <= i < codes.len() && (#[trigger] codes[i] == Some(4i32) || codes[i] == Some(8i32)
                || codes[i] == Some(10i32) || codes[i] == Some(13i32) || codes[i] == Some(14i32));
        assert(codes[i] matches Some(code) && is_transient(code));
    }
}

/// A failed attempt is followed by another exactly if its error is worth a retry and
/// retries are left. The wait before it is the one that was due, one more retry has been
/// made, and the wait after it is twice as long, or the longest if that is shorter. A call
/// that is given up stays as it is, and the limits never change.
pub proof fn law_each_failure_decides(s: Schedule, retryable: bool)
    ensures
        ({
            let (after, wait) = after_failure(s, retryable);
            &&& wait is Some <==> retryable && s.retries < s.max_retries
            &&& wait matches Some(w) ==> {
                &&& w == s.backoff
                &&& after.retries == s.retries + 1
                &&& s.backoff * 2 <= s.max_backoff ==> after.backoff == s.backoff * 2
                &&& s.backoff * 2 > s.max_backoff ==> after.backoff == s.max_backoff
            }
            &&& wait is None ==> after == s
            &&& after.max_retries == s.max_retries
            &&& after.max_backoff == s.max_backoff
            &&& goes_on(s, retryable) == (retryable && s.retries < s.max_retries)
        }),
{
}

/// A call starts with no retries made and with the limits and the wait of its
/// configuration.
pub proof fn law_calls_start_as_configured(config: RetryConfig)
    ensures
        start(config).retries == 0,
        start(config).max_retries == config.max_retries,
        start(config).backoff == config.initial_backoff@,
        start(config).max_backoff == config.max_backoff@,
{
}

/// A decision to wait is told with its wait, and one to give up without.
pub proof fn law_decisions_tell_their_wait(d: Decision)
    ensures
        match d {
            Decision::GiveUp => d@ is None,
            Decision::Wait(wait) => d@ == Some(wait@),
        },
{
}

} // verus!
