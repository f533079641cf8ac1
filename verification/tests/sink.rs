//! The sink, its headers and its streams.
use std::sync::Arc;

use buck_remote::bep::{BesTransportEvent, BuildStatus, FinishType, ServiceEvent, TimedEvent};
use buck_remote::buck_event::{BuckEvent, EventData, Timestamp};
use buck_remote::duration::Duration;
use buck_remote::headers::{
    convert_header, substitute_env_vars, variable_names, EnvVar, HeaderError, HttpHeader,
    InjectHeadersInterceptor,
};
use buck_remote::publish::{BuildComponent, OrderedEvent, Publication, Publisher, Route, Sessions};
use buck_remote::sink::{
    disable, forwarded, is_enabled, new_remote_event_sink_if_enabled, result_link, stats,
    BesConfig, Event, ScribeConfig, Switch,
};

fn env(vars: &[(&str, &str)]) -> Vec<EnvVar> {
    vars.iter()
        .map(|(name, value)| EnvVar { name: name.to_string(), value: value.to_string() })
        .collect()
}

fn header(key: &str, value: &str) -> HttpHeader {
    HttpHeader { key: key.to_owned(), value: value.to_owned() }
}

// Variables

#[test]
fn variables_are_substituted() {
    let env = env(&[("TOKEN", "s3cret"), ("_a1", "ü"), ("EMPTY", ""), ("TOKEN", "later")]);
    let sub = |text: &str| substitute_env_vars(text, &env).unwrap();
    assert_eq!(sub(""), "");
    assert_eq!(sub("plain"), "plain");
    assert_eq!(sub("Bearer $TOKEN"), "Bearer s3cret");
    assert_eq!(sub("$TOKEN$_a1"), "s3cretü");
    assert_eq!(sub("ö$_a1-ö$EMPTY."), "öü-ö.");
    assert_eq!(sub("$TOKEN-$TOKEN"), "s3cret-s3cret");
}

#[test]
fn dollar_signs_without_a_name_are_kept() {
    let env = env(&[("A", "x")]);
    let sub = |text: &str| substitute_env_vars(text, &env).unwrap();
    assert_eq!(sub("$"), "$");
    assert_eq!(sub("$$A"), "$x");
    assert_eq!(sub("$1"), "$1");
    assert_eq!(sub("a$ b$-"), "a$ b$-");
    assert_eq!(sub("$ä"), "$ä");
    assert_eq!(sub("${A}"), "${A}");
}

#[test]
fn values_are_not_substituted_again() {
    let env = env(&[("A", "$B"), ("B", "b")]);
    assert_eq!(substitute_env_vars("$A $B", &env).unwrap(), "$B b");
}

#[test]
fn first_variable_without_value_is_the_error() {
    let env = env(&[("A", "x")]);
    assert_eq!(substitute_env_vars("$A $AB $C", &env).unwrap_err(), "$AB");
    assert_eq!(substitute_env_vars("$a", &env).unwrap_err(), "$a");
}

#[test]
fn names_of_variables_are_found() {
    assert_eq!(variable_names("plain $ $1"), Vec::<String>::new());
    assert_eq!(variable_names("ö$A-$_b2$A.$"), vec!["A", "_b2", "A"]);
    // Other variables do not matter.
    let text = "Bearer $TOKEN";
    let few = env(&[("TOKEN", "x")]);
    let many = env(&[("A", "a"), ("TOKEN", "x"), ("TOKENS", "y")]);
    assert_eq!(
        substitute_env_vars(text, &few).unwrap(),
        substitute_env_vars(text, &many).unwrap()
    );
}

// Headers

#[test]
fn headers_are_converted() {
    let env = env(&[("KEY", "Auth"), ("TOKEN", "s3cret")]);
    let converted = convert_header(&header("X-$KEY", "Bearer $TOKEN"), &env).unwrap();
    assert_eq!(converted.key, "x-auth");
    assert_eq!(converted.value, "Bearer s3cret");
}

#[test]
fn keys_are_checked() {
    let ok = |key: &str| convert_header(&header(key, "v"), &vec![]).map(|h| h.key);
    assert_eq!(ok("Content-Type").unwrap(), "content-type");
    assert_eq!(ok("!#%&'*+-.^_`|~09azAZ").unwrap(), "!#%&'*+-.^_`|~09azaz");
    assert_eq!(ok("a-bin2").unwrap(), "a-bin2");
    assert_eq!(ok("a$").unwrap(), "a$");
    let long = "x".repeat(65535);
    assert_eq!(ok(&long).unwrap(), long);
    let too_long = "x".repeat(65536);
    for key in ["", " ", "a b", "a:b", "a\"b", "ä", "trace-bin", "TRACE-BIN", "-bin", &too_long] {
        match ok(key).unwrap_err() {
            HeaderError::InvalidKey { key: found, value } => {
                assert_eq!((found.as_str(), value.as_str()), (key, "v"));
            }
            other => panic!("expected InvalidKey, got {:?}", other),
        }
    }
}

#[test]
fn values_are_checked() {
    let ok = |value: &str| convert_header(&header("Key", value), &vec![]).map(|h| h.value);
    for value in ["", "a b", "tab\there", "~", "\u{80}ü\u{1F600}"] {
        assert_eq!(ok(value).unwrap(), value);
    }
    for value in ["\n", "a\u{7f}", "\0", "\u{1f}"] {
        let error = ok(value).unwrap_err();
        assert!(matches!(error, HeaderError::InvalidValue { .. }));
        assert_eq!(error.message(), format!("Invalid value in header: `key: {}`", value));
    }
}

#[test]
fn errors_of_headers_have_messages() {
    let error = convert_header(&header("$A", "$B"), &vec![]).unwrap_err();
    assert_eq!(error.message(), "Error substituting `$A`");
    let error = convert_header(&header("a", "$B"), &vec![]).unwrap_err();
    assert_eq!(error.message(), "Error substituting `$B`");
    let error = convert_header(&header("a b", "c"), &vec![]).unwrap_err();
    assert_eq!(error.message(), "Invalid key in header: `a b: c`");
}

#[test]
fn interceptor_takes_all_headers_or_none() {
    let env = env(&[("A", "x")]);
    let interceptor = InjectHeadersInterceptor::new(
        &vec![header("One", "$A"), header("two", ""), header("one", "again")],
        &env,
    )
    .unwrap();
    let found: Vec<(&str, &str)> =
        interceptor.headers().iter().map(|h| (h.key.as_str(), h.value.as_str())).collect();
    assert_eq!(found, vec![("one", "x"), ("two", ""), ("one", "again")]);

    let error = InjectHeadersInterceptor::new(
        &vec![header("one", "1"), header("two", "$B"), header("t h", "3")],
        &env,
    )
    .unwrap_err();
    assert_eq!(error.message(), "Error substituting `$B`");
    assert!(InjectHeadersInterceptor::new(&vec![], &env).unwrap().headers().is_empty());
}

// The switch and the configuration

fn config(result_url: Option<&str>) -> BesConfig {
    BesConfig {
        address: "https://host:1985".to_owned(),
        tls: true,
        http_headers: vec![],
        project_id: "project".to_owned(),
        result_url: result_url.map(|u| u.to_owned()),
    }
}

#[test]
fn sink_is_enabled_until_disabled() {
    let mut switch = Switch::default();
    let service = Arc::new(config(None));
    assert!(is_enabled(&switch));
    let made = new_remote_event_sink_if_enabled(
        &switch,
        ScribeConfig::default(),
        Some(service.clone()),
    );
    assert_eq!(made.unwrap().address, "https://host:1985");
    assert!(new_remote_event_sink_if_enabled(&switch, ScribeConfig::default(), None).is_none());
    disable(&mut switch);
    assert!(!is_enabled(&switch));
    disable(&mut switch);
    assert!(!is_enabled(&switch));
    let made =
        new_remote_event_sink_if_enabled(&switch, ScribeConfig::default(), Some(service));
    assert!(made.is_none());
}

#[test]
fn default_scribe_config_is_zero() {
    let config = ScribeConfig::default();
    assert_eq!(config.buffer_size, 0);
    assert_eq!(config.retry_backoff, Duration::default());
    assert_eq!(config.retry_attempts, 0);
    assert_eq!(config.message_batch_size, None);
    assert_eq!(config.thrift_timeout, Duration::from_secs(0));
}

#[test]
fn links_are_prefix_and_trace() {
    assert_eq!(result_link(&config(None), "t"), None);
    assert_eq!(
        result_link(&config(Some("https://host/invocation/")), "t-1").unwrap(),
        "https://host/invocation/t-1"
    );
}

#[test]
fn only_buck_events_are_forwarded() {
    let event = BuckEvent {
        timestamp: Timestamp { seconds: 1, nanos: 2 },
        trace_id: "t".to_owned(),
        data: EventData::Record,
    };
    assert_eq!(forwarded(Event::Buck(event)).unwrap().trace_id, "t");
    assert!(forwarded(Event::<BuckEvent>::CommandResult).is_none());
    assert!(forwarded(Event::<BuckEvent>::PartialResult).is_none());
}

#[test]
fn stats_are_zero() {
    let stats = stats();
    assert_eq!(stats.successes, 0);
    assert_eq!(stats.failures_unknown, 0);
    assert_eq!(stats.buffered, 0);
    assert_eq!(stats.bytes_written, 0);
}

// Streams

fn timed(event: ServiceEvent) -> TimedEvent {
    TimedEvent { event_time: None, event }
}

fn lifecycle(event: ServiceEvent) -> BesTransportEvent {
    BesTransportEvent::Lifecycle(timed(event))
}

fn finished() -> ServiceEvent {
    ServiceEvent::ComponentStreamFinished(FinishType::Finished)
}

/// The stream of an event, as its invocation and whether it is the tool's, and its
/// number there.
fn place(event: &OrderedEvent) -> (&str, bool, i64) {
    assert_eq!(event.stream_id.build_id, "trace");
    assert_eq!(event.project_id, "project");
    (
        &event.stream_id.invocation_id,
        event.stream_id.component == BuildComponent::Tool,
        event.sequence_number,
    )
}

#[test]
fn events_are_numbered_per_stream() {
    let mut publisher = Publisher::new("trace".to_owned(), "project".to_owned());
    assert!(publisher.has_room());
    match publisher.publish(lifecycle(ServiceEvent::BuildEnqueued)) {
        Publication::Lifecycle(e) => assert_eq!(place(&e), ("", false, 1)),
        other => panic!("expected Lifecycle, got {:?}", other),
    }
    match publisher.publish(lifecycle(ServiceEvent::InvocationAttemptStarted {
        attempt_number: 1,
    })) {
        Publication::Lifecycle(e) => assert_eq!(place(&e), ("trace", false, 1)),
        other => panic!("expected Lifecycle, got {:?}", other),
    }
    for number in 1..4 {
        match publisher.publish(BesTransportEvent::Stream(timed(finished()))) {
            Publication::Stream(e) => assert_eq!(place(&e), ("trace", true, number)),
            other => panic!("expected Stream, got {:?}", other),
        }
    }
    for event in [
        ServiceEvent::InvocationAttemptFinished(BuildStatus::CommandFailed),
        ServiceEvent::BuildFinished(BuildStatus::CommandFailed),
    ] {
        assert!(matches!(publisher.publish(lifecycle(event)), Publication::Held));
    }
    let ends = publisher.close();
    assert_eq!(ends.len(), 2);
    assert_eq!(place(&ends[0]), ("trace", false, 2));
    assert!(matches!(
        ends[0].event.event,
        ServiceEvent::InvocationAttemptFinished(BuildStatus::CommandFailed)
    ));
    assert_eq!(place(&ends[1]), ("", false, 2));
    assert!(matches!(
        ends[1].event.event,
        ServiceEvent::BuildFinished(BuildStatus::CommandFailed)
    ));
    assert!(publisher.close().is_empty());
    assert_eq!(publisher.counts(), (2, 2, 3));
}

#[test]
fn builds_get_a_handler_each() {
    let mut sessions = Sessions::new();
    assert!(!sessions.is_known("a"));
    assert_eq!(sessions.route("a", false), Route::Start);
    assert!(sessions.is_known("a"));
    assert_eq!(sessions.route("a", false), Route::Forward);
    assert_eq!(sessions.route("b", false), Route::Start);
    assert_eq!(sessions.route("a", true), Route::Restart);
    assert_eq!(sessions.route("a", false), Route::Forward);
}
