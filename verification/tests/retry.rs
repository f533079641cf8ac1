//! Retries of calls.
use std::sync::Arc;

use buck_remote::duration::Duration;
use buck_remote::retry::{
    is_retryable_chain, is_retryable_error, Decision, Retry, RetryConfig, ABORTED,
    DEADLINE_EXCEEDED, INTERNAL, RESOURCE_EXHAUSTED, UNAVAILABLE,
};

/// Calls `f` until it succeeds or is given up. Returns the result, how often `f` was
/// called, and the waits in milliseconds.
fn retry<T>(
    config: &RetryConfig,
    f: impl Fn(u32) -> anyhow::Result<T>,
) -> (anyhow::Result<T>, u32, Vec<u64>) {
    let mut retry = Retry::new(config);
    let mut waits = Vec::new();
    let mut calls = 0;
    loop {
        let result = f(calls);
        calls += 1;
        let err = match result {
            Ok(val) => return (Ok(val), calls, waits),
            Err(err) => err,
        };
        let retryable = is_retryable_error(&err);
        assert!(retry.can_back_off(retryable));
        match retry.on_failure(retryable) {
            Decision::GiveUp => return (Err(err), calls, waits),
            Decision::Wait(wait) => {
                assert_eq!(retry.retries(), calls);
                waits.push(wait.as_secs() * 1000 + u64::from(wait.subsec_nanos()) / 1_000_000);
            }
        }
    }
}

#[test]
fn test_retryable_unavailable() {
    let status = tonic::Status::unavailable("server shutting down");
    let err: anyhow::Error = status.into();
    assert!(is_retryable_error(&err));
}

#[test]
fn test_retryable_deadline_exceeded() {
    let status = tonic::Status::deadline_exceeded("timeout");
    let err: anyhow::Error = status.into();
    assert!(is_retryable_error(&err));
}

#[test]
fn test_retryable_resource_exhausted() {
    let status = tonic::Status::resource_exhausted("rate limited");
    let err: anyhow::Error = status.into();
    assert!(is_retryable_error(&err));
}

#[test]
fn test_retryable_internal() {
    let status = tonic::Status::internal("internal error");
    let err: anyhow::Error = status.into();
    assert!(is_retryable_error(&err));
}

#[test]
fn test_retryable_aborted() {
    let status = tonic::Status::aborted("aborted");
    let err: anyhow::Error = status.into();
    assert!(is_retryable_error(&err));
}

#[test]
fn test_not_retryable_not_found() {
    let status = tonic::Status::not_found("missing");
    let err: anyhow::Error = status.into();
    assert!(!is_retryable_error(&err));
}

#[test]
fn test_not_retryable_permission_denied() {
    let status = tonic::Status::permission_denied("denied");
    let err: anyhow::Error = status.into();
    assert!(!is_retryable_error(&err));
}

#[test]
fn test_not_retryable_plain_error() {
    let err = anyhow::Error::msg("something went wrong");
    assert!(!is_retryable_error(&err));
}

#[test]
fn test_retryable_wrapped() {
    let status = tonic::Status::unavailable("gone");
    let err = anyhow::Error::from(status).context("wrapper context");
    assert!(is_retryable_error(&err));
}

#[test]
fn test_retry_immediate_success() {
    let config = RetryConfig {
        max_retries: 3,
        initial_backoff: Duration::from_millis(1),
        max_backoff: Duration::from_millis(10),
    };
    let (result, calls, waits) = retry(&config, |_| Ok(42));
    assert_eq!(result.unwrap(), 42);
    assert_eq!(calls, 1);
    assert!(waits.is_empty());
}

#[test]
fn test_retry_then_succeed() {
    let config = RetryConfig {
        max_retries: 3,
        initial_backoff: Duration::from_millis(1),
        max_backoff: Duration::from_millis(10),
    };
    let (result, calls, _) = retry(&config, |attempt| {
        if attempt < 2 {
            Err(tonic::Status::unavailable("try again").into())
        } else {
            Ok(99)
        }
    });
    assert_eq!(result.unwrap(), 99);
    assert_eq!(calls, 3);
}

#[test]
fn test_retry_non_retryable_stops_immediately() {
    let config = RetryConfig {
        max_retries: 3,
        initial_backoff: Duration::from_millis(1),
        max_backoff: Duration::from_millis(10),
    };
    let (result, calls, _): (anyhow::Result<i32>, u32, Vec<u64>) =
        retry(&config, |_| Err(tonic::Status::not_found("gone forever").into()));
    assert!(result.is_err());
    assert_eq!(calls, 1);
}

#[test]
fn test_retry_max_retries_exhausted() {
    let config = RetryConfig {
        max_retries: 2,
        initial_backoff: Duration::from_millis(1),
        max_backoff: Duration::from_millis(10),
    };
    let (result, calls, _): (anyhow::Result<i32>, u32, Vec<u64>) =
        retry(&config, |_| Err(tonic::Status::unavailable("always down").into()));
    assert!(result.is_err());
    // 1 initial + 2 retries = 3 attempts
    assert_eq!(calls, 3);
}

#[test]
fn test_retry_disabled_with_zero() {
    let config = RetryConfig {
        max_retries: 0,
        initial_backoff: Duration::from_millis(1),
        max_backoff: Duration::from_millis(10),
    };
    let (result, calls, _): (anyhow::Result<i32>, u32, Vec<u64>) =
        retry(&config, |_| Err(tonic::Status::unavailable("down").into()));
    assert!(result.is_err());
    assert_eq!(calls, 1);
}

#[test]
fn waits_double_up_to_the_longest() {
    let config = RetryConfig {
        max_retries: 6,
        initial_backoff: Duration::from_millis(3),
        max_backoff: Duration::from_millis(20),
    };
    let (_, calls, waits): (anyhow::Result<i32>, u32, Vec<u64>) =
        retry(&config, |_| Err(tonic::Status::aborted("no").into()));
    assert_eq!(calls, 7);
    assert_eq!(waits, vec![3, 6, 12, 20, 20, 20]);
}

#[test]
fn first_wait_is_not_limited() {
    let config = RetryConfig {
        max_retries: 2,
        initial_backoff: Duration::from_millis(50),
        max_backoff: Duration::from_millis(20),
    };
    let (_, _, waits): (anyhow::Result<i32>, u32, Vec<u64>) =
        retry(&config, |_| Err(tonic::Status::internal("no").into()));
    assert_eq!(waits, vec![50, 20]);
}

#[test]
fn default_config() {
    let config = RetryConfig::default();
    assert_eq!(config.max_retries, 3);
    assert_eq!(config.initial_backoff, Duration::from_millis(100));
    assert_eq!(config.max_backoff, Duration::from_secs(5));
}

#[test]
fn only_transient_codes_are_retryable() {
    for code in -1..20 {
        let expected =
            [UNAVAILABLE, DEADLINE_EXCEEDED, RESOURCE_EXHAUSTED, INTERNAL, ABORTED].contains(&code);
        assert_eq!(is_retryable_chain(&vec![Some(code)]), expected);
        assert_eq!(expected, [4, 8, 10, 13, 14].contains(&code));
    }
}

#[test]
fn transient_status_counts_anywhere_in_a_chain() {
    assert!(!is_retryable_chain(&vec![]));
    assert!(!is_retryable_chain(&vec![None, None]));
    assert!(is_retryable_chain(&vec![None, Some(UNAVAILABLE), Some(5)]));
    assert!(is_retryable_chain(&vec![None, Some(5), Some(UNAVAILABLE)]));
    assert!(!is_retryable_chain(&vec![None, Some(5), Some(7)]));
}

#[test]
fn inner_statuses_are_looked_at() {
    let mut outer = tonic::Status::not_found("outer");
    outer.set_source(Arc::new(tonic::Status::unavailable("inner")));
    assert!(is_retryable_error(&anyhow::Error::from(outer)));

    let mut outer = tonic::Status::not_found("outer");
    outer.set_source(Arc::new(tonic::Status::permission_denied("inner")));
    assert!(!is_retryable_error(&anyhow::Error::from(outer).context("wrapper context")));
}

#[test]
fn status_codes_are_those_of_the_service() {
    let codes = [
        (tonic::Code::Unavailable, UNAVAILABLE),
        (tonic::Code::DeadlineExceeded, DEADLINE_EXCEEDED),
        (tonic::Code::ResourceExhausted, RESOURCE_EXHAUSTED),
        (tonic::Code::Internal, INTERNAL),
        (tonic::Code::Aborted, ABORTED),
    ];
    for (code, number) in codes {
        assert_eq!(code as i32, number);
    }
    for number in 0..17 {
        let err: anyhow::Error = tonic::Status::new(tonic::Code::from(number), "").into();
        assert_eq!(is_retryable_error(&err), is_retryable_chain(&vec![Some(number)]));
    }
}

#[test]
fn longest_spans_cannot_be_doubled() {
    let config = RetryConfig {
        max_retries: 1,
        initial_backoff: Duration::from_secs(u64::MAX),
        max_backoff: Duration::from_secs(1),
    };
    let retry = Retry::new(&config);
    assert!(!retry.can_back_off(true));
    assert!(retry.can_back_off(false));
}

#[test]
fn spans_are_told_in_seconds_and_nanoseconds() {
    let span = Duration::from_millis(12_345);
    assert_eq!((span.as_secs(), span.subsec_nanos()), (12, 345_000_000));
    assert_eq!(span.doubled(), Duration::from_millis(24_690));
    assert_eq!(span.shorter(Duration::from_secs(1)), Duration::from_secs(1));
    assert!(span.can_double());
    assert_eq!(Duration::default(), Duration::from_secs(0));
}
