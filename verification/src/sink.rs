//! The sink that forwards events to a Build Event Service: its configuration, whether it
//! is used, and which events it takes.
use std::sync::Arc;

use vstd::prelude::*;

use crate::bep;
use crate::duration::Duration;
use crate::headers::HttpHeader;

verus! {

/// How to reach a Build Event Service.
#[derive(Debug)]
pub struct BesConfig {
    /// The address of the service, such as `https://host:port`.
    pub address: String,
    /// Whether to use TLS.
    pub tls: bool,
    /// The headers to add to requests.
    pub http_headers: Vec<HttpHeader>,
    /// The project that is named in requests.
    pub project_id: String,
    /// What to put before the trace identifier for the link to the results of a build.
    pub result_url: Option<String>,
}

/// How to reach Scribe. The sink of a Build Event Service does without.
#[derive(Debug)]
pub struct ScribeConfig {
    pub buffer_size: usize,
    pub retry_backoff: Duration,
    pub retry_attempts: usize,
    pub message_batch_size: Option<usize>,
    pub thrift_timeout: Duration,
}

impl Default for ScribeConfig {
    /// Zero and nothing throughout.
    fn default() -> (config: ScribeConfig)
        ensures
            config.buffer_size == 0,
            config.retry_backoff@ == 0,
            config.retry_attempts == 0,
            config.message_batch_size is None,
            config.thrift_timeout@ == 0,
    {
        ScribeConfig {
            buffer_size: 0,
            retry_backoff: Duration::default(),
            retry_attempts: 0,
            message_batch_size: None,
            thrift_timeout: Duration::default(),
        }
    }
}

/// Whether remote event logging is enabled. It is, until it is disabled.
#[derive(Clone, Copy, Debug, PartialEq, Eq, Structural)]
pub struct Switch {
    enabled: bool,
}

impl View for Switch {
    type V = bool;

    closed spec fn view(&self) -> bool {
        self.enabled
    }
}

impl Default for Switch {
    /// Remote event logging is enabled at first.
    fn default() -> (switch: Switch)
        ensures
            switch@,
    {
        Switch { enabled: true }
    }
}

/// Whether events should actually be written to the remote sink, even if that is fully
/// supported.
pub fn is_enabled(switch: &Switch) -> (b: bool)
    ensures
        b == switch@,
{
    switch.enabled
}

/// Disables remote event logging, for good.
pub fn disable(switch: &mut Switch)
    ensures
        !final(switch)@,
{
    switch.enabled = false;
}

/// The service that a sink is made for, if one is configured.
pub fn new_remote_event_sink_if_fbcode(
    _config: ScribeConfig,
    bes_config: Option<Arc<BesConfig>>,
) -> (r: Option<Arc<BesConfig>>)
    ensures
        r == bes_config,
{
    bes_config
}

/// The service that a sink is made for, if remote event logging is enabled and one is
/// configured.
pub fn new_remote_event_sink_if_enabled(
    switch: &Switch,
    config: ScribeConfig,
    bes_config: Option<Arc<BesConfig>>,
) -> (r: Option<Arc<BesConfig>>)
    ensures
        r == if switch@ {
            bes_config
        } else {
            None
        },
{
    if is_enabled(switch) {
        new_remote_event_sink_if_fbcode(config, bes_config)
    } else {
        None
    }
}

/// What is sent to a sink: an event of the build, or a result for the client.
#[derive(Debug)]
pub enum Event<E> {
    Buck(E),
    CommandResult,
    PartialResult,
}

/// The event that the remote sink forwards, if any: results stay with the client.
pub fn forwarded<E>(event: Event<E>) -> (r: Option<E>)
    ensures
        r == match event {
            Event::Buck(event) => Some(event),
            Event::CommandResult => None,
            Event::PartialResult => None,
        },
{
    match event {
        Event::Buck(event) => Some(event),
        Event::CommandResult => None,
        Event::PartialResult => None,
    }
}

/// Counts of what a sink has done.
#[derive(Clone, Copy, Debug, PartialEq, Eq, Structural)]
pub struct EventSinkStats {
    pub successes: u64,
    pub failures_invalid_request: u64,
    pub failures_unauthorized: u64,
    pub failures_rate_limited: u64,
    pub failures_pushed_back: u64,
    pub failures_enqueue_failed: u64,
    pub failures_internal_error: u64,
    pub failures_timed_out: u64,
    pub failures_unknown: u64,
    pub buffered: u64,
    pub dropped: u64,
    pub bytes_written: u64,
}

/// The counts of the remote sink, which keeps none.
pub fn stats() -> (stats: EventSinkStats)
    ensures
        stats == (EventSinkStats {
            successes: 0,
            failures_invalid_request: 0,
            failures_unauthorized: 0,
            failures_rate_limited: 0,
            failures_pushed_back: 0,
            failures_enqueue_failed: 0,
            failures_internal_error: 0,
            failures_timed_out: 0,
            failures_unknown: 0,
            buffered: 0,
            dropped: 0,
            bytes_written: 0,
        }),
{
    EventSinkStats {
        successes: 0,
        failures_invalid_request: 0,
        failures_unauthorized: 0,
        failures_rate_limited: 0,
        failures_pushed_back: 0,
        failures_enqueue_failed: 0,
        failures_internal_error: 0,
        failures_timed_out: 0,
        failures_unknown: 0,
        buffered: 0,
        dropped: 0,
        bytes_written: 0,
    }
}

/// The link to the results of a build, if the service has one.
pub fn result_link(config: &BesConfig, trace_id: &str) -> (link: Option<String>)
    ensures
        bep::text_of(link) == match config.result_url {
            Some(url) => Some(url@ + trace_id@),
            None => None,
        },
{
    match &config.result_url {
        Some(url) => {
            let mut link = url.clone();
            link.append(trace_id);
            Some(link)
        },
        None => None,
    }
}

} // verus!
