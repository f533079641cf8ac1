//! The reports of whole commands.
use std::collections::{BTreeMap, HashSet};

use buck_remote::bep::{
    AbortReason, ActionExecuted, BesTransportEvent, BuildEvent, BuildEventId, BuildStatus,
    FinishType, Payload, ServiceEvent, TestStatus, BAZEL_EVENT_TYPE_URL,
};
use buck_remote::buck_event::{
    ActionExecutionEnd, ActionOwner, AnalysisStart, AnalysisTarget, BuckEvent, Command,
    CommandDetails, CommandEnd, CommandKind, CommandStart, ConfiguredTargetLabel, EventData,
    ExecutionMetadata, Instant, SpanEnd, SpanStart, TargetLabel, TestResult, TimeSpan, Timestamp,
    TEST_STATUS_PASS,
};
use buck_remote::convert::{
    bazel_label, buck_to_bazel_events, checked_buck_to_bazel_events, Converter,
};
use buck_remote::publish::{Publication, Publisher, Route, Sessions};

// Inputs

const PID: i64 = 4321;

const NOW: Timestamp = Timestamp { seconds: 1_700_000_000, nanos: 25 };

fn buck_event(trace_id: &str, data: EventData) -> BuckEvent {
    BuckEvent { timestamp: NOW, trace_id: trace_id.to_owned(), data }
}

fn command_start(kind: Option<CommandKind>) -> EventData {
    EventData::SpanStart(Some(SpanStart::Command(CommandStart { kind, cli_args: vec![] })))
}

fn build_start() -> EventData {
    command_start(Some(CommandKind::Build))
}

fn command_end(kind: Option<CommandKind>, is_success: bool) -> EventData {
    EventData::SpanEnd(Some(SpanEnd::Command(CommandEnd { kind, is_success })))
}

fn build_end(is_success: bool) -> EventData {
    command_end(Some(CommandKind::Build), is_success)
}

fn instant_event() -> EventData {
    EventData::Instant(None)
}

fn configured(label: &str, config: &str) -> ConfiguredTargetLabel {
    let (package, name) = label.split_once(':').unwrap();
    ConfiguredTargetLabel {
        label: Some(TargetLabel { package: package.to_owned(), name: name.to_owned() }),
        configuration: Some(config.to_owned()),
    }
}

fn analysis_start(label: &str, config: &str, rule: &str) -> EventData {
    EventData::SpanStart(Some(SpanStart::Analysis(AnalysisStart {
        target: Some(AnalysisTarget::Standard(configured(label, config))),
        rule: rule.to_owned(),
    })))
}

fn action_end(owner: Option<ActionOwner>, failed: bool, commands: Vec<CommandDetails>) -> EventData {
    EventData::SpanEnd(Some(SpanEnd::ActionExecution(ActionExecutionEnd {
        owner,
        category: Some("cxx_compile".to_owned()),
        failed,
        commands: commands.into_iter().map(Some).collect(),
    })))
}

fn action_execution_end(label: &str, config: &str, failed: bool) -> EventData {
    action_end(Some(ActionOwner::Target(configured(label, config))), failed, vec![])
}

fn action_execution_end_with_command(
    label: &str,
    config: &str,
    failed: bool,
    command: CommandDetails,
) -> EventData {
    action_end(Some(ActionOwner::Target(configured(label, config))), failed, vec![command])
}

fn parsed_target_patterns(patterns: &[&str]) -> EventData {
    EventData::Instant(Some(Instant::TargetPatterns(
        patterns.iter().map(|p| p.to_string()).collect(),
    )))
}

fn local_command_execution(
    argv: Vec<String>,
    exit_code: i32,
    stdout: &str,
    stderr: &str,
) -> CommandDetails {
    CommandDetails {
        signed_exit_code: Some(exit_code),
        cmd_stdout: stdout.to_owned(),
        cmd_stderr: stderr.to_owned(),
        command: Some(Command::Local(argv)),
        metadata: None,
    }
}

fn remote_command_execution(exit_code: i32, stdout: &str, stderr: &str) -> CommandDetails {
    CommandDetails {
        signed_exit_code: Some(exit_code),
        cmd_stdout: stdout.to_owned(),
        cmd_stderr: stderr.to_owned(),
        command: Some(Command::Remote { action_digest: "abc123".to_owned() }),
        metadata: None,
    }
}

fn console_message(msg: &str) -> EventData {
    EventData::Instant(Some(Instant::ConsoleMessage(msg.to_owned())))
}

fn console_warning(msg: &str) -> EventData {
    EventData::Instant(Some(Instant::ConsoleWarning(msg.to_owned())))
}

fn streaming_output(msg: &str) -> EventData {
    EventData::Instant(Some(Instant::StreamingOutput(msg.to_owned())))
}

fn test_command_start() -> EventData {
    command_start(Some(CommandKind::Test))
}

fn test_command_end(is_success: bool) -> EventData {
    command_end(Some(CommandKind::Test), is_success)
}

fn test_result(name: &str, label: &str, status: i32) -> EventData {
    EventData::Instant(Some(Instant::TestResult(TestResult {
        name: name.to_owned(),
        status,
        duration: Some(TimeSpan { seconds: 1, nanos: 0 }),
        target_label: Some(configured(label, "cfg//linux-x86_64")),
    })))
}

fn events_of(data: Vec<EventData>) -> Vec<BuckEvent> {
    data.into_iter().map(|d| buck_event("trace", d)).collect()
}

fn collect_events(data: Vec<EventData>) -> Vec<BesTransportEvent> {
    buck_to_bazel_events(&events_of(data), PID)
}

// Outputs

#[derive(Debug)]
enum Expected {
    BuildEnqueued,
    InvocationAttemptStarted,
    InvocationAttemptFinished,
    LifecycleBuildFinished,
    Started,
    UnstructuredCommandLine,
    Progress,
    Finished { success: bool },
    ComponentStreamFinished,
}

fn is_lifecycle(expected: &Expected) -> bool {
    matches!(
        expected,
        Expected::BuildEnqueued
            | Expected::InvocationAttemptStarted
            | Expected::InvocationAttemptFinished
            | Expected::LifecycleBuildFinished
    )
}

fn assert_matches(actual: &BesTransportEvent, expected: &Expected) {
    let inner = match (actual, is_lifecycle(expected)) {
        (BesTransportEvent::Lifecycle(e), true) => &e.event,
        (BesTransportEvent::Stream(e), false) => &e.event,
        (BesTransportEvent::Lifecycle(_), false) => {
            panic!("expected Stream event, got Lifecycle: {:?}", expected)
        }
        (BesTransportEvent::Stream(_), true) => {
            panic!("expected Lifecycle event, got Stream: {:?}", expected)
        }
    };
    match expected {
        Expected::BuildEnqueued => assert!(matches!(inner, ServiceEvent::BuildEnqueued)),
        Expected::InvocationAttemptStarted => {
            assert!(matches!(inner, ServiceEvent::InvocationAttemptStarted { attempt_number: 1 }))
        }
        Expected::InvocationAttemptFinished => {
            assert!(matches!(inner, ServiceEvent::InvocationAttemptFinished(_)))
        }
        Expected::LifecycleBuildFinished => {
            assert!(matches!(inner, ServiceEvent::BuildFinished(_)))
        }
        Expected::ComponentStreamFinished => {
            assert!(matches!(inner, ServiceEvent::ComponentStreamFinished(FinishType::Finished)))
        }
        _ => {
            let bes = match inner {
                ServiceEvent::BazelEvent { type_url, event } => {
                    assert_eq!(type_url, BAZEL_EVENT_TYPE_URL);
                    event
                }
                other => panic!("expected BazelEvent, got {:?}", other),
            };
            match expected {
                Expected::Started => assert!(matches!(bes.id, BuildEventId::Started)),
                Expected::UnstructuredCommandLine => {
                    assert!(matches!(bes.id, BuildEventId::UnstructuredCommandLine))
                }
                Expected::Progress => {
                    assert!(matches!(bes.id, BuildEventId::Progress { .. }))
                }
                Expected::Finished { success } => {
                    assert!(matches!(bes.id, BuildEventId::BuildFinished));
                    assert!(bes.last_message, "BuildFinished should be last_message");
                    match &bes.payload {
                        Payload::Finished { exit_code, .. } => {
                            if *success {
                                assert_eq!(*exit_code, 0);
                            } else {
                                assert_ne!(*exit_code, 0);
                            }
                        }
                        other => panic!("expected Finished payload, got {:?}", other),
                    }
                }
                _ => unreachable!(),
            }
        }
    }
}

fn check(inputs: Vec<EventData>, expected: Vec<Expected>) {
    let actual = collect_events(inputs);
    assert_eq!(
        actual.len(),
        expected.len(),
        "expected {} events, got {}",
        expected.len(),
        actual.len(),
    );
    for (actual, expected) in actual.iter().zip(expected.iter()) {
        assert_matches(actual, expected);
    }
}

fn extract_bep_events(events: &[BesTransportEvent]) -> Vec<&BuildEvent> {
    events
        .iter()
        .filter_map(|e| match e {
            BesTransportEvent::Stream(e) => match &e.event {
                ServiceEvent::BazelEvent { event, .. } => Some(event),
                _ => None,
            },
            _ => None,
        })
        .collect()
}

fn id_text(id: &BuildEventId) -> String {
    format!("{:?}", id)
}

/// What is wrong with the graph of events, if anything: a declared child that was never
/// emitted, or an event but the root that no event declares.
fn bep_dag_error(events: &[BesTransportEvent]) -> Option<String> {
    let bep = extract_bep_events(events);
    let emitted: HashSet<String> = bep.iter().map(|e| id_text(&e.id)).collect();
    let declared: HashSet<String> =
        bep.iter().flat_map(|e| e.children.iter().map(id_text)).collect();
    for child in &declared {
        if !emitted.contains(child) {
            return Some(format!("Declared child was never emitted: {}", child));
        }
    }
    for event in &bep {
        if matches!(event.id, BuildEventId::Started) {
            continue;
        }
        if !declared.contains(&id_text(&event.id)) {
            return Some(format!(
                "Orphan event (not declared as child of any event): {}",
                id_text(&event.id)
            ));
        }
    }
    None
}

fn assert_valid_bep_dag(events: &[BesTransportEvent]) {
    assert_eq!(bep_dag_error(events), None);
}

fn find_action<'a>(bep: &[&'a BuildEvent]) -> &'a ActionExecuted {
    let action = bep
        .iter()
        .find(|e| matches!(e.id, BuildEventId::ActionCompleted { .. }))
        .expect("ActionCompleted should be emitted");
    match &action.payload {
        Payload::Action(a) => a,
        other => panic!("expected Action payload, got {:?}", other),
    }
}

fn find_finished<'a>(bep: &[&'a BuildEvent]) -> (i32, &'a Option<String>) {
    let finished = bep
        .iter()
        .find(|e| matches!(e.id, BuildEventId::BuildFinished))
        .expect("BuildFinished should be emitted");
    match &finished.payload {
        Payload::Finished { exit_code, failure_detail, .. } => (*exit_code, failure_detail),
        other => panic!("expected Finished payload, got {:?}", other),
    }
}

fn progress_events(bep: &[&BuildEvent]) -> Vec<(i32, String, String)> {
    bep.iter()
        .filter_map(|e| match (&e.id, &e.payload) {
            (BuildEventId::Progress { opaque_count }, Payload::Progress { stdout, stderr }) => {
                Some((*opaque_count, stdout.clone(), stderr.clone()))
            }
            _ => None,
        })
        .collect()
}

// Whole reports

#[test]
fn test_empty_stream() {
    check(vec![], vec![]);
}

#[test]
fn test_successful_build() {
    check(
        vec![build_start(), build_end(true)],
        vec![
            Expected::BuildEnqueued,
            Expected::InvocationAttemptStarted,
            Expected::Started,
            Expected::UnstructuredCommandLine,
            Expected::Progress,
            Expected::Finished { success: true },
            Expected::ComponentStreamFinished,
            Expected::InvocationAttemptFinished,
            Expected::LifecycleBuildFinished,
        ],
    );
}

#[test]
fn test_failed_build() {
    check(
        vec![build_start(), build_end(false)],
        vec![
            Expected::BuildEnqueued,
            Expected::InvocationAttemptStarted,
            Expected::Started,
            Expected::UnstructuredCommandLine,
            Expected::Progress,
            Expected::Finished { success: false },
            Expected::ComponentStreamFinished,
            Expected::InvocationAttemptFinished,
            Expected::LifecycleBuildFinished,
        ],
    );
}

#[test]
fn test_non_build_command_produces_nothing() {
    check(vec![command_start(None)], vec![]);
}

#[test]
fn test_instant_and_record_events_produce_nothing() {
    check(vec![instant_event(), EventData::Record], vec![]);
}

#[test]
fn test_dag_empty_build() {
    let events = collect_events(vec![build_start(), build_end(true)]);
    assert_valid_bep_dag(&events);
}

#[test]
fn test_bazel_label_conversion() {
    // Buck2 cell-prefixed labels get @ prepended
    assert_eq!(bazel_label("root//foo", "bar"), "@root//foo:bar");
    assert_eq!(bazel_label("cell//pkg/sub", "target"), "@cell//pkg/sub:target");
    // Already Bazel-style labels are left as-is
    assert_eq!(bazel_label("//foo", "bar"), "//foo:bar");
    assert_eq!(bazel_label("@repo//foo", "bar"), "@repo//foo:bar");
}

#[test]
fn test_dag_build_with_targets() {
    let events = collect_events(vec![
        build_start(),
        parsed_target_patterns(&["root//foo/..."]),
        analysis_start("root//foo:bar", "cfg//linux-x86_64", "rust_binary"),
        analysis_start("root//foo:baz", "cfg//linux-x86_64", "rust_library"),
        action_execution_end("root//foo:bar", "cfg//linux-x86_64", false),
        action_execution_end("root//foo:baz", "cfg//linux-x86_64", false),
        build_end(true),
    ]);
    assert_valid_bep_dag(&events);
}

#[test]
fn test_dag_build_with_targets_no_patterns() {
    // Without target patterns, each target is a pattern of its own
    let events = collect_events(vec![
        build_start(),
        analysis_start("root//foo:bar", "cfg//linux-x86_64", "rust_binary"),
        action_execution_end("root//foo:bar", "cfg//linux-x86_64", false),
        build_end(true),
    ]);
    assert_valid_bep_dag(&events);
}

#[test]
fn test_dag_build_with_multiple_patterns() {
    let events = collect_events(vec![
        build_start(),
        parsed_target_patterns(&["root//foo:bar", "root//foo:baz"]),
        analysis_start("root//foo:bar", "cfg//linux-x86_64", "rust_binary"),
        analysis_start("root//foo:baz", "cfg//linux-x86_64", "rust_library"),
        action_execution_end("root//foo:bar", "cfg//linux-x86_64", false),
        action_execution_end("root//foo:baz", "cfg//linux-x86_64", false),
        build_end(true),
    ]);
    assert_valid_bep_dag(&events);
}

#[test]
fn test_dag_build_with_progress() {
    let events = collect_events(vec![
        build_start(),
        parsed_target_patterns(&["root//foo:bar"]),
        console_message("Analyzing target root//foo:bar"),
        analysis_start("root//foo:bar", "cfg//linux-x86_64", "rust_binary"),
        console_message("Building root//foo:bar"),
        action_execution_end("root//foo:bar", "cfg//linux-x86_64", false),
        build_end(true),
    ]);
    assert_valid_bep_dag(&events);

    let progress_events: Vec<(i32, String)> = progress_events(&extract_bep_events(&events))
        .into_iter()
        .map(|(count, _, stderr)| (count, stderr))
        .collect();
    assert_eq!(progress_events.len(), 3);
    assert_eq!(progress_events[0], (0, "Analyzing target root//foo:bar".to_owned()));
    assert_eq!(progress_events[1], (1, "Building root//foo:bar".to_owned()));
    assert_eq!(progress_events[2].0, 2);
    assert!(progress_events[2].1.is_empty());
}

#[test]
fn test_action_with_remote_command() {
    let cmd = remote_command_execution(0, "", "built successfully");
    let events = collect_events(vec![
        build_start(),
        parsed_target_patterns(&["root//foo:bar"]),
        analysis_start("root//foo:bar", "cfg//linux-x86_64", "rust_binary"),
        action_execution_end_with_command("root//foo:bar", "cfg//linux-x86_64", false, cmd),
        build_end(true),
    ]);
    assert_valid_bep_dag(&events);

    let bep = extract_bep_events(&events);
    let a = find_action(&bep);
    assert!(a.success);
    assert!(
        !a.command_line.is_empty(),
        "remote commands should have command_line populated (action_digest, etc.)",
    );
    assert_eq!(a.command_line, vec!["remote:abc123"]);
}

#[test]
fn test_action_with_failure_details() {
    let cmd = local_command_execution(
        vec!["gcc".to_owned(), "-c".to_owned(), "main.cpp".to_owned()],
        1,
        "",
        "error: undefined reference to 'main'",
    );
    let events = collect_events(vec![
        build_start(),
        analysis_start("root//foo:bar", "cfg//linux-x86_64", "rust_binary"),
        action_execution_end_with_command("root//foo:bar", "cfg//linux-x86_64", true, cmd),
        build_end(false),
    ]);

    let bep = extract_bep_events(&events);
    let a = find_action(&bep);
    assert!(!a.success, "action should be marked as failed");
    assert_eq!(a.exit_code, 1);
    let message = a.failure_detail.as_ref().expect("failed action should have failure_detail");
    assert!(
        message.contains("undefined reference"),
        "failure_detail.message should contain stderr, got: {}",
        message,
    );
    let stderr_file = a.stderr.as_ref().expect("stderr file should be present");
    assert_eq!(stderr_file.name, "stderr");
}

#[test]
fn test_build_finished_failure_detail() {
    let events = collect_events(vec![build_start(), build_end(false)]);
    let bep = extract_bep_events(&events);
    let (exit_code, failure_detail) = find_finished(&bep);
    assert_eq!(exit_code, 1);
    let message = failure_detail.as_ref().expect("failed build should have failure_detail");
    assert!(!message.is_empty(), "failure_detail.message should not be empty");
}

#[test]
fn test_build_finished_success_no_failure_detail() {
    let events = collect_events(vec![build_start(), build_end(true)]);
    let bep = extract_bep_events(&events);
    let (exit_code, failure_detail) = find_finished(&bep);
    assert_eq!(exit_code, 0);
    assert!(failure_detail.is_none(), "successful build should not have failure_detail");
}

#[test]
fn test_console_warning_produces_progress() {
    let events = collect_events(vec![
        build_start(),
        console_warning("WARNING: deprecated rule used"),
        build_end(true),
    ]);
    assert_valid_bep_dag(&events);

    let progress_events = progress_events(&extract_bep_events(&events));
    assert!(
        progress_events.len() >= 2,
        "expected at least 2 progress events, got {}",
        progress_events.len()
    );
    assert_eq!(progress_events[0].0, 0);
    assert_eq!(progress_events[0].2, "WARNING: deprecated rule used");
    assert!(progress_events[0].1.is_empty(), "warning should go to stderr, not stdout");
}

#[test]
fn test_streaming_output_produces_progress() {
    let events = collect_events(vec![
        build_start(),
        streaming_output("test output line 1\n"),
        build_end(true),
    ]);
    assert_valid_bep_dag(&events);

    let progress_events = progress_events(&extract_bep_events(&events));
    assert!(
        progress_events.len() >= 2,
        "expected at least 2 progress events, got {}",
        progress_events.len()
    );
    assert_eq!(progress_events[0].0, 0);
    assert_eq!(progress_events[0].1, "test output line 1\n");
    assert!(progress_events[0].2.is_empty(), "streaming output should go to stdout, not stderr");
}

#[test]
fn test_action_timing_fields() {
    let mut cmd = local_command_execution(vec!["gcc".to_owned()], 0, "", "");
    cmd.metadata = Some(ExecutionMetadata {
        start_time: Some(Timestamp { seconds: 1700000000, nanos: 0 }),
        wall_time: Some(TimeSpan { seconds: 5, nanos: 0 }),
    });
    let events = collect_events(vec![
        build_start(),
        analysis_start("root//foo:bar", "cfg//linux-x86_64", "rust_binary"),
        action_execution_end_with_command("root//foo:bar", "cfg//linux-x86_64", false, cmd),
        build_end(true),
    ]);

    let bep = extract_bep_events(&events);
    let a = find_action(&bep);
    let start = a.start_time.expect("start_time should be set from metadata");
    assert_eq!(start.seconds, 1700000000, "start_time should match metadata");
    let end = a.end_time.expect("end_time should be computed from start_time + wall_time");
    assert_eq!(end.seconds, 1700000005, "end_time should be start_time(1700000000) + wall_time(5s)");
}

#[test]
fn test_target_with_multiple_actions() {
    let events = collect_events(vec![
        build_start(),
        parsed_target_patterns(&["root//foo:bar"]),
        analysis_start("root//foo:bar", "cfg//linux-x86_64", "rust_binary"),
        action_execution_end("root//foo:bar", "cfg//linux-x86_64", false),
        action_execution_end("root//foo:bar", "cfg//linux-x86_64", false),
        action_execution_end("root//foo:bar", "cfg//linux-x86_64", false),
        build_end(true),
    ]);
    assert_valid_bep_dag(&events);

    let bep = extract_bep_events(&events);
    let target_completed = bep
        .iter()
        .find(|e| matches!(e.id, BuildEventId::TargetCompleted { .. }))
        .expect("TargetCompleted should be emitted");
    let action_children = target_completed
        .children
        .iter()
        .filter(|c| matches!(c, BuildEventId::ActionCompleted { .. }))
        .count();
    assert_eq!(action_children, 3, "TargetCompleted should declare 3 ActionCompleted children");
}

#[test]
fn test_target_with_no_analysis() {
    let events = collect_events(vec![
        build_start(),
        parsed_target_patterns(&["root//foo:bar"]),
        action_execution_end("root//foo:bar", "cfg//linux-x86_64", false),
        build_end(true),
    ]);

    let bep = extract_bep_events(&events);
    let has_action = bep.iter().any(|e| matches!(e.id, BuildEventId::ActionCompleted { .. }));
    assert!(has_action, "ActionCompleted should still be emitted even without AnalysisStart");

    assert!(
        bep_dag_error(&events).is_some(),
        "DAG should be invalid: ActionCompleted is orphaned without AnalysisStart"
    );
}

#[test]
fn test_mixed_success_failure_actions() {
    let events = collect_events(vec![
        build_start(),
        parsed_target_patterns(&["root//foo:bar"]),
        analysis_start("root//foo:bar", "cfg//linux-x86_64", "rust_binary"),
        action_execution_end("root//foo:bar", "cfg//linux-x86_64", false),
        action_execution_end("root//foo:bar", "cfg//linux-x86_64", true),
        action_execution_end("root//foo:bar", "cfg//linux-x86_64", false),
        build_end(false),
    ]);
    assert_valid_bep_dag(&events);

    let bep = extract_bep_events(&events);
    let target_completed = bep
        .iter()
        .find(|e| matches!(e.id, BuildEventId::TargetCompleted { .. }))
        .expect("TargetCompleted should be emitted");
    match &target_completed.payload {
        Payload::Completed { success } => {
            assert!(!success, "TargetCompleted.success should be false when any action failed");
        }
        other => panic!("expected Completed payload, got {:?}", other),
    }
}

#[test]
fn test_build_with_only_cached_targets() {
    let events = collect_events(vec![
        build_start(),
        parsed_target_patterns(&["root//lib/..."]),
        analysis_start("root//lib:header_only", "cfg//linux-x86_64", "cxx_library"),
        analysis_start("root//lib:cached", "cfg//linux-x86_64", "cxx_library"),
        build_end(true),
    ]);
    assert_valid_bep_dag(&events);

    let bep = extract_bep_events(&events);
    let target_completions: Vec<_> =
        bep.iter().filter(|e| matches!(e.id, BuildEventId::TargetCompleted { .. })).collect();
    assert_eq!(target_completions.len(), 2, "both cached targets should have TargetCompleted");
    for tc in &target_completions {
        match &tc.payload {
            Payload::Completed { success } => {
                assert!(success, "cached/header-only targets should be successful");
                assert_eq!(
                    format!("{:?}", tc.payload),
                    "Completed { success: true }",
                    "no output groups for cached targets"
                );
            }
            other => panic!("expected Completed payload, got {:?}", other),
        }
    }
}

#[test]
fn test_dag_large_build() {
    let mut inputs = vec![
        build_start(),
        parsed_target_patterns(&["root//pkg/...", "root//lib/..."]),
    ];
    for i in 0..10 {
        inputs.push(analysis_start(
            &format!("root//pkg:target{}", i),
            "cfg//linux-x86_64",
            "rust_binary",
        ));
    }
    for i in 0..10 {
        for _ in 0..3 {
            inputs.push(action_execution_end(
                &format!("root//pkg:target{}", i),
                "cfg//linux-x86_64",
                false,
            ));
        }
    }
    inputs.push(build_end(true));

    let events = collect_events(inputs);
    assert_valid_bep_dag(&events);

    let bep = extract_bep_events(&events);
    let target_configured_count =
        bep.iter().filter(|e| matches!(e.id, BuildEventId::TargetConfigured { .. })).count();
    let target_completed_count =
        bep.iter().filter(|e| matches!(e.id, BuildEventId::TargetCompleted { .. })).count();
    let action_completed_count =
        bep.iter().filter(|e| matches!(e.id, BuildEventId::ActionCompleted { .. })).count();
    assert_eq!(target_configured_count, 10, "should have 10 TargetConfigured");
    assert_eq!(target_completed_count, 10, "should have 10 TargetCompleted");
    assert_eq!(action_completed_count, 30, "should have 30 ActionCompleted (3 per target)");
}

#[test]
fn test_interleaved_events() {
    let events = collect_events(vec![
        build_start(),
        parsed_target_patterns(&["root//foo:bar", "root//foo:baz"]),
        analysis_start("root//foo:bar", "cfg//linux-x86_64", "rust_binary"),
        analysis_start("root//foo:baz", "cfg//linux-x86_64", "rust_library"),
        action_execution_end("root//foo:baz", "cfg//linux-x86_64", false),
        action_execution_end("root//foo:bar", "cfg//linux-x86_64", false),
        build_end(true),
    ]);
    assert_valid_bep_dag(&events);

    let bep = extract_bep_events(&events);
    let target_completed_count =
        bep.iter().filter(|e| matches!(e.id, BuildEventId::TargetCompleted { .. })).count();
    assert_eq!(target_completed_count, 2, "both targets should complete despite interleaving");
}

#[test]
fn test_test_command_produces_events() {
    let events = collect_events(vec![
        test_command_start(),
        analysis_start("root//tests:my_test", "cfg//linux-x86_64", "rust_test"),
        action_execution_end("root//tests:my_test", "cfg//linux-x86_64", false),
        test_result("test_foo_passes", "root//tests:my_test", 0),
        test_result("test_bar_fails", "root//tests:my_test", 1),
        test_command_end(false),
    ]);

    let has_lifecycle = events.iter().any(|e| matches!(e, BesTransportEvent::Lifecycle(_)));
    assert!(has_lifecycle, "test commands should produce lifecycle events");

    let bep = extract_bep_events(&events);
    let has_started = bep.iter().any(|e| matches!(e.id, BuildEventId::Started));
    assert!(has_started, "test commands should emit BuildStarted");

    let test_results =
        bep.iter().filter(|e| matches!(e.payload, Payload::TestResult { .. })).count();
    assert_eq!(
        test_results, 2,
        "should emit one BEP TestResult per buck2 TestResult instant event",
    );

    let has_test_summary = bep.iter().any(|e| matches!(e.payload, Payload::TestSummary { .. }));
    assert!(has_test_summary, "should emit BEP TestSummary for the test target");

    assert_valid_bep_dag(&events);
}

#[test]
fn test_aborted_build() {
    let events = collect_events(vec![
        build_start(),
        parsed_target_patterns(&["root//foo:bar"]),
        analysis_start("root//foo:bar", "cfg//linux-x86_64", "rust_binary"),
    ]);

    let has_started = events.iter().any(|e| match e {
        BesTransportEvent::Lifecycle(ev) => matches!(ev.event, ServiceEvent::BuildEnqueued),
        _ => false,
    });
    assert!(has_started, "BuildEnqueued should be emitted even for aborted builds");

    let bep = extract_bep_events(&events);
    let has_started_bep = bep.iter().any(|e| matches!(e.id, BuildEventId::Started));
    assert!(has_started_bep, "BEP Started should be emitted before abort");

    let has_aborted = bep.iter().any(|e| {
        matches!(e.payload, Payload::Aborted { reason: AbortReason::UserInterrupted, .. })
    });
    assert!(
        has_aborted,
        "aborted builds should emit a BEP Aborted event when the stream ends without CommandEnd",
    );

    let has_finished = bep.iter().any(|e| matches!(e.id, BuildEventId::BuildFinished));
    assert!(has_finished, "aborted builds should still emit BuildFinished with failure status");
}

#[test]
fn test_configuration_event_emitted() {
    let events = collect_events(vec![
        build_start(),
        analysis_start("root//foo:bar", "cfg//linux-x86_64", "rust_binary"),
        build_end(true),
    ]);

    let bep = extract_bep_events(&events);
    let has_target_configured =
        bep.iter().any(|e| matches!(e.id, BuildEventId::TargetConfigured { .. }));
    assert!(has_target_configured, "TargetConfigured should be emitted");

    let config_events: Vec<_> =
        bep.iter().filter(|e| matches!(e.id, BuildEventId::Configuration { .. })).collect();
    assert!(
        !config_events.is_empty(),
        "Configuration event should be emitted from AnalysisStart configuration data",
    );
    match &config_events[0].id {
        BuildEventId::Configuration { id } => {
            assert_eq!(
                id, "cfg//linux-x86_64",
                "Configuration ID should match AnalysisStart config"
            );
        }
        _ => unreachable!(),
    }

    assert_valid_bep_dag(&events);
}

#[test]
fn test_sequence_numbers_monotonic() {
    let events = collect_events(vec![
        build_start(),
        parsed_target_patterns(&["root//foo:bar"]),
        analysis_start("root//foo:bar", "cfg//linux-x86_64", "rust_binary"),
        action_execution_end("root//foo:bar", "cfg//linux-x86_64", false),
        build_end(true),
    ]);

    let mut lifecycle_count: i64 = 0;
    let mut stream_count: i64 = 0;
    for event in &events {
        match event {
            BesTransportEvent::Lifecycle(_) => lifecycle_count += 1,
            BesTransportEvent::Stream(_) => stream_count += 1,
        }
    }
    assert!(
        lifecycle_count >= 4,
        "expected at least 4 lifecycle events, got {}",
        lifecycle_count
    );
    assert!(stream_count >= 5, "expected at least 5 stream events, got {}", stream_count);

    let progress_counts: Vec<i32> =
        progress_events(&extract_bep_events(&events)).into_iter().map(|p| p.0).collect();
    for window in progress_counts.windows(2) {
        assert!(
            window[1] > window[0],
            "Progress opaque_count should be monotonically increasing: {} followed by {}",
            window[0],
            window[1],
        );
    }
}

#[test]
fn test_event_ordering() {
    let events = collect_events(vec![build_start(), build_end(true)]);

    let lifecycle_order: Vec<&str> = events
        .iter()
        .filter_map(|e| match e {
            BesTransportEvent::Lifecycle(ev) => match &ev.event {
                ServiceEvent::BuildEnqueued => Some("BuildEnqueued"),
                ServiceEvent::InvocationAttemptStarted { .. } => Some("InvocationAttemptStarted"),
                ServiceEvent::InvocationAttemptFinished(_) => Some("InvocationAttemptFinished"),
                ServiceEvent::BuildFinished(_) => Some("BuildFinished"),
                _ => None,
            },
            _ => None,
        })
        .collect();
    assert_eq!(
        lifecycle_order,
        vec![
            "BuildEnqueued",
            "InvocationAttemptStarted",
            "InvocationAttemptFinished",
            "BuildFinished"
        ],
        "lifecycle events must appear in correct order",
    );

    let stream_order: Vec<&str> = events
        .iter()
        .filter_map(|e| match e {
            BesTransportEvent::Stream(ev) => match &ev.event {
                ServiceEvent::BazelEvent { event, .. } => match event.id {
                    BuildEventId::Started => Some("Started"),
                    BuildEventId::BuildFinished => Some("BuildFinished"),
                    _ => None,
                },
                ServiceEvent::ComponentStreamFinished(_) => Some("ComponentStreamFinished"),
                _ => None,
            },
            _ => None,
        })
        .collect();
    assert_eq!(
        stream_order,
        vec!["Started", "BuildFinished", "ComponentStreamFinished"],
        "stream events must have Started before BuildFinished before ComponentStreamFinished",
    );
}

#[test]
fn test_last_message_flag() {
    let events = collect_events(vec![
        build_start(),
        parsed_target_patterns(&["root//foo:bar"]),
        analysis_start("root//foo:bar", "cfg//linux-x86_64", "rust_binary"),
        action_execution_end("root//foo:bar", "cfg//linux-x86_64", false),
        build_end(true),
    ]);

    let bep = extract_bep_events(&events);
    assert!(!bep.is_empty(), "should have BEP events");
    for event in &bep {
        if matches!(event.id, BuildEventId::BuildFinished) {
            assert!(event.last_message, "BuildFinished must have last_message=true");
        } else {
            assert!(
                !event.last_message,
                "Non-BuildFinished event should have last_message=false, but {:?} has last_message=true",
                event.id,
            );
        }
    }
}

// Particulars of reports

fn last_event(events: &[BesTransportEvent]) -> &ServiceEvent {
    match events.last().unwrap() {
        BesTransportEvent::Lifecycle(e) => &e.event,
        BesTransportEvent::Stream(e) => &e.event,
    }
}

#[test]
fn start_is_reported_with_its_particulars() {
    let start = EventData::SpanStart(Some(SpanStart::Command(CommandStart {
        kind: Some(CommandKind::Test),
        cli_args: vec!["buck2".to_owned(), "test".to_owned()],
    })));
    let events = collect_events(vec![start, test_command_end(true)]);
    let bep = extract_bep_events(&events);
    match &bep[0].payload {
        Payload::Started(started) => {
            assert_eq!(started.uuid, "trace");
            assert_eq!(started.start_time, NOW);
            assert_eq!(started.build_tool_version, "BUCK2");
            assert_eq!(started.options_description, "UNKNOWN");
            assert_eq!(started.command, "build");
            assert_eq!(started.working_directory, "UNKNOWN");
            assert_eq!(started.workspace_directory, "UNKNOWN");
            assert_eq!(started.server_pid, PID);
        }
        other => panic!("expected Started payload, got {:?}", other),
    }
    let children: Vec<String> = bep[0].children.iter().map(id_text).collect();
    assert_eq!(
        children,
        vec!["BuildFinished", "UnstructuredCommandLine", "Progress { opaque_count: 0 }"]
    );
    match &bep[1].payload {
        Payload::UnstructuredCommandLine { args } => assert_eq!(args, &vec!["buck2", "test"]),
        other => panic!("expected UnstructuredCommandLine payload, got {:?}", other),
    }
}

#[test]
fn ends_tell_the_status() {
    let events = collect_events(vec![build_start(), build_end(true)]);
    assert!(matches!(
        last_event(&events),
        ServiceEvent::BuildFinished(BuildStatus::CommandSucceeded)
    ));
    let events = collect_events(vec![build_start(), build_end(false)]);
    assert!(matches!(last_event(&events), ServiceEvent::BuildFinished(BuildStatus::CommandFailed)));
    let bep = extract_bep_events(&events);
    match &bep.last().unwrap().payload {
        Payload::Finished { exit_code_name, exit_code, finish_time, failure_detail } => {
            assert_eq!(exit_code_name, "FAILURE");
            assert_eq!(*exit_code, 1);
            assert_eq!(*finish_time, NOW);
            assert_eq!(failure_detail.as_deref(), Some("Build failed"));
        }
        other => panic!("expected Finished payload, got {:?}", other),
    }
}

#[test]
fn interruption_has_no_time_and_is_a_failure() {
    let events = collect_events(vec![build_start()]);
    assert_eq!(events.len(), 8);
    for event in &events[4..] {
        match event {
            BesTransportEvent::Lifecycle(e) => assert!(e.event_time.is_none()),
            BesTransportEvent::Stream(e) => assert!(e.event_time.is_none()),
        }
    }
    let bep = extract_bep_events(&events);
    match &bep.last().unwrap().payload {
        Payload::Aborted { reason, description } => {
            assert_eq!(*reason, AbortReason::UserInterrupted);
            assert_eq!(description, "Build interrupted");
        }
        other => panic!("expected Aborted payload, got {:?}", other),
    }
    assert!(matches!(last_event(&events), ServiceEvent::BuildFinished(BuildStatus::CommandFailed)));
}

#[test]
fn events_after_the_end_add_nothing() {
    let before = collect_events(vec![build_start(), build_end(true)]);
    let after = collect_events(vec![
        build_start(),
        build_end(true),
        build_start(),
        console_message("too late"),
    ]);
    assert_eq!(format!("{:?}", before), format!("{:?}", after));
}

#[test]
fn other_commands_end_nothing() {
    let events = collect_events(vec![
        build_start(),
        command_end(Some(CommandKind::Other), true),
        command_end(None, true),
        EventData::SpanEnd(None),
        EventData::SpanStart(None),
        EventData::SpanStart(Some(SpanStart::Other)),
        EventData::SpanEnd(Some(SpanEnd::Other)),
        EventData::Instant(Some(Instant::Other)),
    ]);
    assert_eq!(events.len(), 8);
}

#[test]
fn targets_are_configured_with_their_rule() {
    let events = collect_events(vec![
        build_start(),
        analysis_start("root//foo:bar", "cfg//a", "rust_binary"),
        analysis_start("root//foo:baz", "cfg//a", ""),
        analysis_start("root//foo:bar", "cfg//b", "rust_binary"),
        EventData::SpanStart(Some(SpanStart::Analysis(AnalysisStart {
            target: Some(AnalysisTarget::Other),
            rule: "anon".to_owned(),
        }))),
        build_end(true),
    ]);
    let bep = extract_bep_events(&events);
    let configured: Vec<(String, usize)> = bep
        .iter()
        .filter_map(|e| match &e.payload {
            Payload::Configured { target_kind } => Some((target_kind.clone(), e.children.len())),
            _ => None,
        })
        .collect();
    assert_eq!(
        configured,
        vec![
            ("rust_binary".to_owned(), 2),
            ("unknown rule type".to_owned(), 1),
            ("rust_binary".to_owned(), 2),
        ]
    );
    let configurations: Vec<String> = bep
        .iter()
        .filter(|e| matches!(e.payload, Payload::Configuration))
        .map(|e| id_text(&e.id))
        .collect();
    assert_eq!(
        configurations,
        vec!["Configuration { id: \"cfg//a\" }", "Configuration { id: \"cfg//b\" }"]
    );
}

#[test]
fn repeated_targets_report_their_actions_once() {
    let events = collect_events(vec![
        build_start(),
        analysis_start("root//foo:bar", "cfg//a", "rust_binary"),
        analysis_start("root//foo:bar", "cfg//a", "rust_binary"),
        action_execution_end("root//foo:bar", "cfg//a", true),
        build_end(false),
    ]);
    let completions: Vec<(usize, bool)> = extract_bep_events(&events)
        .iter()
        .filter_map(|e| match e.payload {
            Payload::Completed { success } => Some((e.children.len(), success)),
            _ => None,
        })
        .collect();
    assert_eq!(completions, vec![(1, false), (0, true)]);
}

fn single_action(owner: Option<ActionOwner>) -> String {
    let events = collect_events(vec![build_start(), action_end(owner, false, vec![])]);
    let bep = extract_bep_events(&events);
    id_text(&bep[2].id)
}

#[test]
fn owners_of_actions_are_told_apart() {
    assert_eq!(
        single_action(Some(ActionOwner::TestTarget(configured("a//b:c", "cfg")))),
        "ActionCompleted { configuration: Some(\"cfg\"), label: \"@a//b:c\", primary_output: \"UNKNOWN\" }"
    );
    assert_eq!(
        single_action(Some(ActionOwner::LocalResourceSetup(configured("//b:c", "cfg")))),
        "ActionCompleted { configuration: Some(\"cfg\"), label: \"//b:c\", primary_output: \"UNKNOWN\" }"
    );
    assert_eq!(
        single_action(Some(ActionOwner::AnonTarget(Some(TargetLabel {
            package: "a//b".to_owned(),
            name: "c".to_owned(),
        })))),
        "ActionCompleted { configuration: None, label: \"@a//b:c\", primary_output: \"UNKNOWN\" }"
    );
    assert_eq!(
        single_action(Some(ActionOwner::Bxl)),
        "ActionCompleted { configuration: None, label: \"UNKNOWN\", primary_output: \"UNKNOWN\" }"
    );
    assert_eq!(single_action(None), single_action(Some(ActionOwner::Bxl)));
}

fn details(command: Option<Command>) -> CommandDetails {
    CommandDetails {
        signed_exit_code: None,
        cmd_stdout: "ö".to_owned(),
        cmd_stderr: String::new(),
        command,
        metadata: None,
    }
}

#[test]
fn command_lines_depend_on_the_kind_of_command() {
    let lines: Vec<(Option<Command>, Vec<&str>)> = vec![
        (None, vec![]),
        (Some(Command::Local(vec!["a".to_owned(), "b".to_owned()])), vec!["a", "b"]),
        (Some(Command::Remote { action_digest: "d:1".to_owned() }), vec!["remote:d:1"]),
        (Some(Command::Worker(vec!["w".to_owned()])), vec!["w"]),
        (Some(Command::WorkerInit(vec!["i".to_owned()])), vec!["i"]),
        (
            Some(Command::OmittedLocal { action_digest: "d:2".to_owned() }),
            vec!["omitted_local:d:2"],
        ),
    ];
    for (command, expected) in lines {
        let events = collect_events(vec![
            build_start(),
            action_execution_end_with_command("a//b:c", "cfg", false, details(command)),
        ]);
        let bep = extract_bep_events(&events);
        let action = find_action(&bep);
        assert_eq!(action.command_line, expected);
        assert_eq!(action.mnemonic, "cxx_compile");
        assert_eq!(action.exit_code, 0);
        assert!(action.failure_detail.is_none());
        let stdout = action.stdout.as_ref().unwrap();
        assert_eq!((stdout.name.as_str(), stdout.length), ("stdout", 2));
        assert_eq!(stdout.contents, "ö");
    }
}

#[test]
fn action_without_commands_has_no_outputs() {
    let events = collect_events(vec![
        build_start(),
        EventData::SpanEnd(Some(SpanEnd::ActionExecution(ActionExecutionEnd {
            owner: None,
            category: None,
            failed: true,
            commands: vec![],
        }))),
    ]);
    let bep = extract_bep_events(&events);
    let action = find_action(&bep);
    assert_eq!(action.mnemonic, "UNKNOWN");
    assert!(!action.success);
    assert!(action.stdout.is_none() && action.stderr.is_none());
    assert_eq!(action.failure_detail.as_deref(), Some("UNKNOWN"));
    assert!(action.start_time.is_none() && action.end_time.is_none());
}

fn timed(start: Timestamp, wall: TimeSpan) -> EventData {
    let mut command = details(None);
    command.metadata =
        Some(ExecutionMetadata { start_time: Some(start), wall_time: Some(wall) });
    action_execution_end_with_command("a//b:c", "cfg", false, command)
}

#[test]
fn end_times_carry_over_seconds() {
    let cases = [
        ((10, 600_000_000), (2, 700_000_000), (13, 300_000_000)),
        ((10, 0), (2, 5), (12, 5)),
        ((10, -600_000_000), (2, -700_000_000), (11, -300_000_000)),
        ((0, 999_999_999), (0, 1), (1, 0)),
    ];
    for ((s, n), (ws, wn), (es, en)) in cases {
        let events = collect_events(vec![
            build_start(),
            timed(Timestamp { seconds: s, nanos: n }, TimeSpan { seconds: ws, nanos: wn }),
        ]);
        let bep = extract_bep_events(&events);
        assert_eq!(find_action(&bep).end_time, Some(Timestamp { seconds: es, nanos: en }));
    }
}

#[test]
fn end_times_out_of_range_are_not_accepted() {
    let converter = Converter::new(PID);
    let late = Timestamp { seconds: i64::MAX, nanos: 0 };
    assert!(converter.accepts(&buck_event("t", timed(late, TimeSpan { seconds: 0, nanos: 0 }))));
    assert!(!converter.accepts(&buck_event("t", timed(late, TimeSpan { seconds: 1, nanos: 0 }))));
    let nearly = Timestamp { seconds: i64::MAX, nanos: 999_999_999 };
    assert!(!converter.accepts(&buck_event("t", timed(nearly, TimeSpan { seconds: 0, nanos: 1 }))));
    assert!(converter.accepts(&buck_event("t", console_message("a"))));
    assert!(converter.accepts(&buck_event("t", test_result("a", "a//b:c", 0))));
}

#[test]
fn tests_are_numbered_and_summed_up_per_target() {
    let events = collect_events(vec![
        test_command_start(),
        analysis_start("root//t:a", "cfg//linux-x86_64", "rust_test"),
        analysis_start("root//t:b", "cfg//linux-x86_64", "rust_test"),
        test_result("one", "root//t:b", TEST_STATUS_PASS),
        test_result("two", "root//t:a", TEST_STATUS_PASS),
        test_result("three", "root//t:b", 4),
        test_command_end(false),
    ]);
    assert_valid_bep_dag(&events);
    let bep = extract_bep_events(&events);
    let results: Vec<(String, TestStatus, String)> = bep
        .iter()
        .filter_map(|e| match &e.payload {
            Payload::TestResult { status, status_details, .. } => {
                Some((id_text(&e.id), *status, status_details.clone()))
            }
            _ => None,
        })
        .collect();
    let id = |name: &str, run: i32| {
        format!(
            "TestResult {{ label: \"@root//t:{}\", configuration: \"cfg//linux-x86_64\", run: {}, shard: 1, attempt: 1 }}",
            name, run
        )
    };
    assert_eq!(
        results,
        vec![
            (id("b", 1), TestStatus::Passed, "one".to_owned()),
            (id("a", 1), TestStatus::Passed, "two".to_owned()),
            (id("b", 2), TestStatus::Failed, "three".to_owned()),
        ]
    );
    let summaries: Vec<(TestStatus, i32, i32, i32, i32)> = bep
        .iter()
        .filter_map(|e| match e.payload {
            Payload::TestSummary {
                overall_status,
                total_run_count,
                run_count,
                attempt_count,
                shard_count,
            } => Some((overall_status, total_run_count, run_count, attempt_count, shard_count)),
            _ => None,
        })
        .collect();
    assert_eq!(
        summaries,
        vec![(TestStatus::Failed, 2, 2, 1, 1), (TestStatus::Passed, 1, 1, 1, 1)]
    );
}

#[test]
fn patterns_announce_all_targets() {
    let events = collect_events(vec![
        build_start(),
        parsed_target_patterns(&["root//..."]),
        parsed_target_patterns(&["root//a/...", "root//b/..."]),
        analysis_start("root//a:x", "cfg", "r"),
        analysis_start("root//b:y", "cfg", "r"),
        build_end(true),
    ]);
    let expansions: Vec<(String, usize)> = extract_bep_events(&events)
        .iter()
        .filter(|e| matches!(e.payload, Payload::Expanded))
        .map(|e| (id_text(&e.id), e.children.len()))
        .collect();
    assert_eq!(
        expansions,
        vec![
            ("Pattern { pattern: \"root//a/...\" }".to_owned(), 2),
            ("Pattern { pattern: \"root//b/...\" }".to_owned(), 2),
        ]
    );
}

#[test]
fn labels_are_absolute() {
    assert_eq!(bazel_label("", ""), "@:");
    assert_eq!(bazel_label("/", "a"), "@/:a");
    assert_eq!(bazel_label("@", "a"), "@:a");
    assert_eq!(bazel_label("ünit//ö", "ä"), "@ünit//ö:ä");
}

#[test]
fn converter_takes_events_one_by_one() {
    let inputs = events_of(vec![build_start(), console_message("hello"), build_end(true)]);
    let mut converter = Converter::new(PID);
    let mut out = Vec::new();
    for event in &inputs {
        assert!(!converter.is_finished());
        assert!(converter.accepts(event));
        out.append(&mut converter.on_event(event));
    }
    assert!(converter.is_finished());
    out.append(&mut converter.on_end());
    assert_eq!(format!("{:?}", out), format!("{:?}", buck_to_bazel_events(&inputs, PID)));
}

#[test]
fn numbers_out_of_range_are_found() {
    let inputs = events_of(vec![build_start(), console_message("hello"), build_end(true)]);
    assert_eq!(
        format!("{:?}", checked_buck_to_bazel_events(&inputs, PID).unwrap()),
        format!("{:?}", buck_to_bazel_events(&inputs, PID))
    );
    let late = Timestamp { seconds: i64::MAX, nanos: 0 };
    let span = TimeSpan { seconds: 1, nanos: 0 };
    let inputs = events_of(vec![build_start(), timed(late, span)]);
    assert!(checked_buck_to_bazel_events(&inputs, PID).is_none());
    // Nothing is computed for what comes after the end.
    let inputs = events_of(vec![build_start(), build_end(true), timed(late, span)]);
    assert_eq!(checked_buck_to_bazel_events(&inputs, PID).unwrap().len(), 9);
}

#[test]
fn reports_are_sent_in_their_order() {
    let inputs = || {
        vec![
            build_start(),
            parsed_target_patterns(&["root//foo:bar"]),
            analysis_start("root//foo:bar", "cfg//linux-x86_64", "rust_binary"),
            console_message("working"),
            build_end(true),
        ]
    };
    let expected: Vec<String> = collect_events(inputs())
        .iter()
        .map(|e| match e {
            BesTransportEvent::Lifecycle(e) => format!("{:?}", e),
            BesTransportEvent::Stream(e) => format!("{:?}", e),
        })
        .collect();
    let mut publisher = Publisher::new("trace".to_owned(), String::new());
    let mut sent = Vec::new();
    for event in collect_events(inputs()) {
        match publisher.publish(event) {
            Publication::Lifecycle(e) => sent.push(e),
            Publication::Stream(e) => sent.push(e),
            Publication::Held => {}
        }
    }
    assert_eq!(sent.len(), expected.len() - 2);
    sent.append(&mut publisher.close());
    let found: Vec<String> = sent.iter().map(|e| format!("{:?}", e.event)).collect();
    assert_eq!(found, expected);
}

/// Reports the builds whose events are given, each by a handler of its own, and returns
/// what is sent for each.
fn publish_builds(events: &[BuckEvent]) -> BTreeMap<String, Vec<String>> {
    let mut sessions = Sessions::new();
    let mut handlers: BTreeMap<String, (Converter, Publisher, Vec<String>)> = BTreeMap::new();
    for event in events {
        let trace_id = event.trace_id.clone();
        if sessions.route(&trace_id, false) == Route::Start {
            let publisher = Publisher::new(trace_id.clone(), "project".to_owned());
            handlers.insert(trace_id.clone(), (Converter::new(PID), publisher, Vec::new()));
        }
        let (converter, publisher, sent) = handlers.get_mut(&trace_id).unwrap();
        for out in converter.on_event(event) {
            match publisher.publish(out) {
                Publication::Lifecycle(e) => sent.push(format!("{:?}", e)),
                Publication::Stream(e) => sent.push(format!("{:?}", e)),
                Publication::Held => {}
            }
        }
    }
    handlers
        .into_iter()
        .map(|(trace_id, (converter, mut publisher, mut sent))| {
            for out in converter.on_end() {
                match publisher.publish(out) {
                    Publication::Lifecycle(e) => sent.push(format!("{:?}", e)),
                    Publication::Stream(e) => sent.push(format!("{:?}", e)),
                    Publication::Held => {}
                }
            }
            sent.extend(publisher.close().iter().map(|e| format!("{:?}", e)));
            (trace_id, sent)
        })
        .collect()
}

#[test]
fn builds_do_not_depend_on_each_other() {
    let of = |trace_id: &str, data: Vec<EventData>| -> Vec<BuckEvent> {
        data.into_iter().map(|d| buck_event(trace_id, d)).collect()
    };
    let a = || {
        of(
            "a",
            vec![
                build_start(),
                console_message("from a"),
                analysis_start("root//foo:bar", "cfg", "r"),
                build_end(true),
            ],
        )
    };
    let b = || of("b", vec![test_command_start(), console_message("from b"), streaming_output("x")]);
    let mut mixed = Vec::new();
    let mut others = b().into_iter();
    for event in a() {
        mixed.push(event);
        mixed.extend(others.next());
    }
    let all = publish_builds(&mixed);
    assert_eq!(all["a"], publish_builds(&a())["a"]);
    assert_eq!(all["b"], publish_builds(&b())["b"]);
    assert_eq!(all["a"].len(), 14);
    assert!(all["a"].iter().all(|request| request.contains("build_id: \"a\"")));
}
