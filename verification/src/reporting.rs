//! What is reported for each event of a command: the model that the converter is
//! held to.
//!
//! A report in progress is a [`Report`]; [`step`] says what one event adds to it and
//! which events it sends, [`interruption`] what is sent when the events stop coming.
use vstd::prelude::*;

use crate::bep;
use crate::bep::{
    AbortReason, ActionExecutedView, BuildEventIdView, BuildEventView, BuildStartedView,
    BuildStatus, FileView, FinishType, PayloadView, ServiceEventView, TestStatus, TimedEventView,
    TransportView, BAZEL_EVENT_TYPE_URL,
};
use crate::buck_event::{
    ActionExecutionEnd, ActionOwner, AnalysisStart, AnalysisTarget, BuckEvent, Command,
    CommandDetails, CommandKind, ConfiguredTargetLabel, EventData, Instant, SpanEnd, SpanStart,
    TargetLabel, TestResult, TimeSpan, Timestamp, TEST_STATUS_PASS,
};

verus! {

/// A target and the name of its configuration.
pub struct TargetKey {
    pub label: Seq<char>,
    pub config: Seq<char>,
}

/// An outcome (of an action or of a test) for a configured target.
pub struct Outcome {
    pub key: TargetKey,
    pub success: bool,
}

/// A report in progress.
pub struct Report {
    /// The process identifier of the build tool's server.
    pub server_pid: int,
    /// The targets whose analysis has started, in order.
    pub targets: Seq<TargetKey>,
    /// The configurations that have been reported.
    pub configurations: Set<Seq<char>>,
    /// The target patterns the command was given.
    pub patterns: Seq<Seq<char>>,
    /// The outcomes of the actions of configured targets, in order.
    pub actions: Seq<Outcome>,
    /// The outcomes of the tests of configured targets, in order.
    pub tests: Seq<Outcome>,
    /// How many progress events have been sent.
    pub progress_count: int,
    /// Whether a build or test command has started.
    pub started: bool,
    /// Whether a build or test command has ended.
    pub finished: bool,
}

/// The report before any event.
pub open spec fn new_report(server_pid: int) -> Report {
    Report {
        server_pid,
        targets: Seq::empty(),
        configurations: Set::empty(),
        patterns: Seq::empty(),
        actions: Seq::empty(),
        tests: Seq::empty(),
        progress_count: 0,
        started: false,
        finished: false,
    }
}

/// Whether a package or label is rooted: whether it starts with `//`.
pub open spec fn is_rooted(s: Seq<char>) -> bool {
    s.len() >= 2 && s[0] == '/' && s[1] == '/'
}

/// Whether a package or label is external: whether it starts with `@`.
pub open spec fn is_external(s: Seq<char>) -> bool {
    s.len() >= 1 && s[0] == '@'
}

/// The Bazel form of a label: a package that is neither rooted nor external is made
/// external.
pub open spec fn bazel_label_text(package: Seq<char>, name: Seq<char>) -> Seq<char> {
    if is_rooted(package) || is_external(package) {
        package + seq![':'] + name
    } else {
        seq!['@'] + package + seq![':'] + name
    }
}

/// A label in the Bazel form starts with `//` or `@`. It is the package and the name with a
/// colon between them, after an `@` exactly where the package starts with neither.
pub proof fn law_bazel_labels_are_absolute(package: Seq<char>, name: Seq<char>)
    ensures
        ({
            let label = bazel_label_text(package, name);
            let rest = package + seq![':'] + name;
            let is_absolute = |s: Seq<char>|
                (s.len() >= 1 && s[0] == '@') || (s.len() >= 2 && s[0] == '/' && s[1] == '/');
            &&& is_absolute(label)
            &&& label == if is_absolute(package) {
                rest
            } else {
                seq!['@'] + rest
            }
        }),
{
    let label = bazel_label_text(package, name);
    let rest = package + seq![':'] + name;
    if !is_rooted(package) && !is_external(package) {
        assert(label =~= seq!['@'] + rest);
    }
}

/// The Bazel form of a target label.
pub open spec fn label_text(label: TargetLabel) -> Seq<char> {
    bazel_label_text(label.package@, label.name@)
}

/// The target and configuration of a label, if it has both.
pub open spec fn target_key(label: ConfiguredTargetLabel) -> Option<TargetKey> {
    match (label.label, label.configuration) {
        (Some(l), Some(c)) => Some(TargetKey { label: label_text(l), config: c@ }),
        _ => None,
    }
}

/// The outcomes of one configured target.
pub open spec fn outcomes_of(outcomes: Seq<Outcome>, key: TargetKey) -> Seq<Outcome> {
    outcomes.filter(|o: Outcome| o.key == key)
}

/// Whether all the outcomes are successes.
pub open spec fn all_succeeded(outcomes: Seq<Outcome>) -> bool {
    forall|i: int| 0 <= i < outcomes.len() ==> (#[trigger] outcomes[i]).success
}

/// The configured targets that have outcomes, in the order of their first one.
pub open spec fn keys_of(outcomes: Seq<Outcome>) -> Seq<TargetKey>
    decreases outcomes.len(),
{
    if outcomes.len() == 0 {
        Seq::empty()
    } else {
        let before = keys_of(outcomes.drop_last());
        if before.contains(outcomes.last().key) {
            before
        } else {
            before.push(outcomes.last().key)
        }
    }
}

// Events in general

/// A lifecycle event.
pub open spec fn lifecycle(time: Option<Timestamp>, event: ServiceEventView) -> TransportView {
    TransportView::Lifecycle(TimedEventView { event_time: time, event })
}

/// An event of the build tool's stream.
pub open spec fn stream(time: Option<Timestamp>, event: ServiceEventView) -> TransportView {
    TransportView::Stream(TimedEventView { event_time: time, event })
}

/// A Build Event Protocol event on the build tool's stream.
pub open spec fn bazel(time: Option<Timestamp>, event: BuildEventView) -> TransportView {
    stream(time, ServiceEventView::BazelEvent { type_url: BAZEL_EVENT_TYPE_URL@, event })
}

/// A Build Event Protocol event that others may follow.
pub open spec fn report_event(
    time: Timestamp,
    id: BuildEventIdView,
    children: Seq<BuildEventIdView>,
    payload: PayloadView,
) -> TransportView {
    bazel(Some(time), BuildEventView { id, children, last_message: false, payload })
}

// The start of a command

/// Whether a command is one that is reported.
pub open spec fn is_reported(kind: Option<CommandKind>) -> bool {
    kind == Some(CommandKind::Build) || kind == Some(CommandKind::Test)
}

/// What the start of a reported command sends.
pub open spec fn start_events(
    server_pid: int,
    time: Timestamp,
    trace_id: Seq<char>,
    cli_args: Seq<Seq<char>>,
) -> Seq<TransportView> {
    seq![
        lifecycle(Some(time), ServiceEventView::BuildEnqueued),
        lifecycle(Some(time), ServiceEventView::InvocationAttemptStarted { attempt_number: 1 }),
        report_event(
            time,
            BuildEventIdView::Started,
            seq![
                BuildEventIdView::BuildFinished,
                BuildEventIdView::UnstructuredCommandLine,
                BuildEventIdView::Progress { opaque_count: 0 },
            ],
            PayloadView::Started(
                BuildStartedView {
                    uuid: trace_id,
                    start_time: time,
                    build_tool_version: "BUCK2"@,
                    options_description: "UNKNOWN"@,
                    command: "build"@,
                    working_directory: "UNKNOWN"@,
                    workspace_directory: "UNKNOWN"@,
                    server_pid,
                },
            ),
        ),
        report_event(
            time,
            BuildEventIdView::UnstructuredCommandLine,
            seq![],
            PayloadView::UnstructuredCommandLine { args: cli_args },
        ),
    ]
}

// Analysis

/// The target whose analysis is reported, if it is a configured target.
pub open spec fn analyzed(analysis: AnalysisStart) -> Option<TargetKey> {
    match analysis.target {
        Some(AnalysisTarget::Standard(label)) => target_key(label),
        _ => None,
    }
}

/// The kind of a target by its rule.
pub open spec fn target_kind(rule: Seq<char>) -> Seq<char> {
    if rule.len() == 0 {
        "unknown rule type"@
    } else {
        rule
    }
}

/// The identifier of the completion of a target.
pub open spec fn completed_id(key: TargetKey) -> BuildEventIdView {
    BuildEventIdView::TargetCompleted { label: key.label, configuration: key.config }
}

/// What the analysis of a target sends: the target, and its configuration if that is
/// new.
pub open spec fn analysis_events(
    time: Timestamp,
    key: TargetKey,
    rule: Seq<char>,
    new_config: bool,
) -> Seq<TransportView> {
    let config_id = BuildEventIdView::Configuration { id: key.config };
    let configured = |children: Seq<BuildEventIdView>|
        report_event(
            time,
            BuildEventIdView::TargetConfigured { label: key.label },
            children,
            PayloadView::Configured { target_kind: target_kind(rule) },
        );
    if new_config {
        seq![
            configured(seq![completed_id(key), config_id]),
            report_event(time, config_id, seq![], PayloadView::Configuration),
        ]
    } else {
        seq![configured(seq![completed_id(key)])]
    }
}

// Actions

/// The configuration of the owner of an action.
pub open spec fn owner_configuration(owner: Option<ActionOwner>) -> Option<Seq<char>> {
    match owner {
        Some(ActionOwner::Target(t))
        | Some(ActionOwner::TestTarget(t))
        | Some(ActionOwner::LocalResourceSetup(t)) => match t.configuration {
            Some(c) => Some(c@),
            None => None,
        },
        _ => None,
    }
}

/// The Bazel label of the owner of an action.
pub open spec fn owner_label(owner: Option<ActionOwner>) -> Option<Seq<char>> {
    match owner {
        Some(ActionOwner::Target(t))
        | Some(ActionOwner::TestTarget(t))
        | Some(ActionOwner::LocalResourceSetup(t)) => match t.label {
            Some(l) => Some(label_text(l)),
            None => None,
        },
        Some(ActionOwner::AnonTarget(Some(l))) => Some(label_text(l)),
        _ => None,
    }
}

/// The configured target that an action belongs to, if it belongs to one.
pub open spec fn owner_key(owner: Option<ActionOwner>) -> Option<TargetKey> {
    match (owner_label(owner), owner_configuration(owner)) {
        (Some(label), Some(config)) => Some(TargetKey { label, config }),
        _ => None,
    }
}

/// The identifier of the completion of an action.
pub open spec fn action_id(
    label: Option<Seq<char>>,
    configuration: Option<Seq<char>>,
) -> BuildEventIdView {
    BuildEventIdView::ActionCompleted {
        configuration,
        label: match label {
            Some(l) => l,
            None => "UNKNOWN"@,
        },
        primary_output: "UNKNOWN"@,
    }
}

/// The identifier of the completion of an action of a configured target.
pub open spec fn target_action_id(key: TargetKey) -> BuildEventIdView {
    action_id(Some(key.label), Some(key.config))
}

/// The details of the last command of an action.
pub open spec fn last_details(action: ActionExecutionEnd) -> Option<CommandDetails> {
    if action.commands@.len() == 0 {
        None
    } else {
        action.commands@.last()
    }
}

/// The command line that is reported for a command.
pub open spec fn command_line(command: Option<Command>) -> Seq<Seq<char>> {
    match command {
        None => seq![],
        Some(Command::Local(argv)) => bep::texts(argv@),
        Some(Command::Remote { action_digest }) => seq!["remote:"@ + action_digest@],
        Some(Command::Worker(argv)) => bep::texts(argv@),
        Some(Command::WorkerInit(argv)) => bep::texts(argv@),
        Some(Command::OmittedLocal { action_digest }) => seq![
            "omitted_local:"@ + action_digest@,
        ],
    }
}

/// The number of nanoseconds in a second.
pub const NANOS_PER_SECOND: i64 = 1_000_000_000;

/// The whole seconds in a number of nanoseconds, rounded towards zero.
pub open spec fn whole_seconds(nanos: int) -> int {
    if nanos >= 0 {
        nanos / NANOS_PER_SECOND as int
    } else {
        -((-nanos) / NANOS_PER_SECOND as int)
    }
}

/// The start time and wall time of a command, if both are known.
pub open spec fn timing(details: Option<CommandDetails>) -> Option<(Timestamp, TimeSpan)> {
    match details {
        Some(details) => match details.metadata {
            Some(metadata) => match (metadata.start_time, metadata.wall_time) {
                (Some(start), Some(wall)) => Some((start, wall)),
                _ => None,
            },
            None => None,
        },
        None => None,
    }
}

/// When a command started, if that is known.
pub open spec fn start_time(details: Option<CommandDetails>) -> Option<Timestamp> {
    match details {
        Some(details) => match details.metadata {
            Some(metadata) => metadata.start_time,
            None => None,
        },
        None => None,
    }
}

/// The seconds and nanoseconds at which a command that started at `start` and ran for
/// `wall` ended.
pub open spec fn end_parts(start: Timestamp, wall: TimeSpan) -> (int, int) {
    let nanos = start.nanos + wall.nanos;
    let carry = whole_seconds(nanos);
    (start.seconds + wall.seconds + carry, nanos - carry * NANOS_PER_SECOND)
}

/// Whether the end of a command can be told in 64 bit seconds.
pub open spec fn end_time_fits(details: Option<CommandDetails>) -> bool {
    match timing(details) {
        Some((start, wall)) => {
            &&& i64::MIN <= start.seconds + wall.seconds <= i64::MAX
            &&& i64::MIN <= end_parts(start, wall).0 <= i64::MAX
        },
        None => true,
    }
}

/// When a command ended, if its start time and wall time are known.
pub open spec fn end_time(details: Option<CommandDetails>) -> Option<Timestamp> {
    match timing(details) {
        Some((start, wall)) => Some(
            Timestamp {
                seconds: end_parts(start, wall).0 as i64,
                nanos: end_parts(start, wall).1 as i32,
            },
        ),
        None => None,
    }
}

/// The file that holds one of the outputs of a command.
pub open spec fn output_file(name: Seq<char>, text: Seq<char>) -> FileView {
    FileView { name, length: bep::file_length(text) as int, contents: text }
}

/// The report of an executed action.
pub open spec fn action_executed(action: ActionExecutionEnd) -> ActionExecutedView {
    let details = last_details(action);
    ActionExecutedView {
        success: !action.failed,
        mnemonic: match action.category {
            Some(category) => category@,
            None => "UNKNOWN"@,
        },
        exit_code: match details {
            Some(details) => match details.signed_exit_code {
                Some(code) => code as int,
                None => 0,
            },
            None => 0,
        },
        stdout: match details {
            Some(details) => Some(output_file("stdout"@, details.cmd_stdout@)),
            None => None,
        },
        stderr: match details {
            Some(details) => Some(output_file("stderr"@, details.cmd_stderr@)),
            None => None,
        },
        command_line: match details {
            Some(details) => command_line(details.command),
            None => seq![],
        },
        failure_detail: if !action.failed {
            None
        } else {
            match details {
                Some(details) => Some(details.cmd_stderr@),
                None => Some("UNKNOWN"@),
            }
        },
        start_time: start_time(details),
        end_time: end_time(details),
    }
}

/// What the end of an action sends.
pub open spec fn action_event(time: Timestamp, action: ActionExecutionEnd) -> TransportView {
    report_event(
        time,
        action_id(owner_label(action.owner), owner_configuration(action.owner)),
        seq![],
        PayloadView::Action(action_executed(action)),
    )
}

// Messages

/// What a message sends: a progress event that announces the next one.
pub open spec fn progress_event(
    time: Timestamp,
    count: int,
    stdout: Seq<char>,
    stderr: Seq<char>,
) -> TransportView {
    report_event(
        time,
        BuildEventIdView::Progress { opaque_count: count },
        seq![BuildEventIdView::Progress { opaque_count: count + 1 }],
        PayloadView::Progress { stdout, stderr },
    )
}

// Tests

/// The configured target that a test result belongs to, if it belongs to one.
pub open spec fn tested(result: TestResult) -> Option<TargetKey> {
    match result.target_label {
        Some(label) => target_key(label),
        None => None,
    }
}

/// The status of tests by whether they passed.
pub open spec fn test_status(passed: bool) -> TestStatus {
    if passed {
        TestStatus::Passed
    } else {
        TestStatus::Failed
    }
}

/// The identifier of the `run`-th test result of a target.
pub open spec fn test_result_id(key: TargetKey, run: int) -> BuildEventIdView {
    BuildEventIdView::TestResult {
        label: key.label,
        configuration: key.config,
        run,
        shard: 1,
        attempt: 1,
    }
}

/// The identifier of the summary of the tests of a target.
pub open spec fn test_summary_id(key: TargetKey) -> BuildEventIdView {
    BuildEventIdView::TestSummary { label: key.label, configuration: key.config }
}

/// What a test result sends.
pub open spec fn test_result_event(
    time: Timestamp,
    key: TargetKey,
    run: int,
    result: TestResult,
) -> TransportView {
    report_event(
        time,
        test_result_id(key, run),
        seq![],
        PayloadView::TestResult {
            status: test_status(result.status == TEST_STATUS_PASS),
            status_details: result.name@,
            test_attempt_duration: result.duration,
        },
    )
}

/// The summary of the tests of a target.
pub open spec fn summary_event(time: Timestamp, tests: Seq<Outcome>, key: TargetKey) -> TransportView {
    let results = outcomes_of(tests, key);
    report_event(
        time,
        test_summary_id(key),
        seq![],
        PayloadView::TestSummary {
            overall_status: test_status(all_succeeded(results)),
            total_run_count: results.len() as int,
            run_count: results.len() as int,
            attempt_count: 1,
            shard_count: 1,
        },
    )
}

// The end of a command

/// The patterns that are expanded: those the command was given or, if none are known,
/// the labels of the targets.
pub open spec fn expanded_patterns(report: Report) -> Seq<Seq<char>> {
    if report.patterns.len() > 0 {
        report.patterns
    } else {
        report.targets.map_values(|t: TargetKey| t.label)
    }
}

/// The identifier of the expansion of a pattern.
pub open spec fn pattern_id(pattern: Seq<char>) -> BuildEventIdView {
    BuildEventIdView::Pattern { pattern }
}

/// The identifier of the configuration of a target.
pub open spec fn configured_id(key: TargetKey) -> BuildEventIdView {
    BuildEventIdView::TargetConfigured { label: key.label }
}

/// The last progress event, which announces the expansions of the patterns.
pub open spec fn final_progress(report: Report, time: Timestamp) -> TransportView {
    report_event(
        time,
        BuildEventIdView::Progress { opaque_count: report.progress_count },
        expanded_patterns(report).map_values(|p: Seq<char>| pattern_id(p)),
        PayloadView::Progress { stdout: seq![], stderr: seq![] },
    )
}

/// The targets that the `i`-th pattern announces: all of them for a pattern the
/// command was given, or the one whose label stands in for a pattern.
pub open spec fn pattern_children(report: Report, i: int) -> Seq<BuildEventIdView> {
    if report.patterns.len() > 0 {
        report.targets.map_values(|t: TargetKey| configured_id(t))
    } else {
        seq![configured_id(report.targets[i])]
    }
}

/// The expansions of the patterns.
pub open spec fn pattern_events(report: Report, time: Timestamp) -> Seq<TransportView> {
    Seq::new(
        expanded_patterns(report).len(),
        |i: int|
            report_event(
                time,
                pattern_id(expanded_patterns(report)[i]),
                pattern_children(report, i),
                PayloadView::Expanded,
            ),
    )
}

/// Whether the `i`-th target stands among the targets before it.
pub open spec fn is_repeated(targets: Seq<TargetKey>, i: int) -> bool {
    targets.subrange(0, i).contains(targets[i])
}

/// The actions that the completion of the `i`-th target reports: those of the target,
/// at its first occurrence.
pub open spec fn completed_actions(report: Report, i: int) -> Seq<Outcome> {
    if is_repeated(report.targets, i) {
        Seq::empty()
    } else {
        outcomes_of(report.actions, report.targets[i])
    }
}

/// The test results and the summary that the completion of a target announces.
pub open spec fn test_children(tests: Seq<Outcome>, key: TargetKey) -> Seq<BuildEventIdView> {
    let count = outcomes_of(tests, key).len();
    if count > 0 {
        Seq::new(count, |k: int| test_result_id(key, k + 1)).push(test_summary_id(key))
    } else {
        Seq::empty()
    }
}

/// The completion of the `i`-th target.
pub open spec fn completed_event(report: Report, time: Timestamp, i: int) -> TransportView {
    let key = report.targets[i];
    let actions = completed_actions(report, i);
    report_event(
        time,
        completed_id(key),
        actions.map_values(|o: Outcome| target_action_id(o.key)) + test_children(report.tests, key),
        PayloadView::Completed { success: all_succeeded(actions) },
    )
}

/// The completions of the targets.
pub open spec fn completed_events(report: Report, time: Timestamp) -> Seq<TransportView> {
    Seq::new(report.targets.len(), |i: int| completed_event(report, time, i))
}

/// The summaries of the tests.
pub open spec fn summary_events(report: Report, time: Timestamp) -> Seq<TransportView> {
    keys_of(report.tests).map_values(|key: TargetKey| summary_event(time, report.tests, key))
}

/// How a command ended.
pub open spec fn build_status(is_success: bool) -> BuildStatus {
    if is_success {
        BuildStatus::CommandSucceeded
    } else {
        BuildStatus::CommandFailed
    }
}

/// The last Build Event Protocol event of a command that ended.
pub open spec fn finished_event(time: Timestamp, is_success: bool) -> TransportView {
    bazel(
        Some(time),
        BuildEventView {
            id: BuildEventIdView::BuildFinished,
            children: seq![],
            last_message: true,
            payload: PayloadView::Finished {
                exit_code_name: if is_success {
                    "SUCCESS"@
                } else {
                    "FAILURE"@
                },
                exit_code: if is_success {
                    0
                } else {
                    1
                },
                finish_time: time,
                failure_detail: if is_success {
                    None
                } else {
                    Some("Build failed"@)
                },
            },
        },
    )
}

/// The end of the stream and of the lifecycle.
pub open spec fn closing_events(time: Option<Timestamp>, status: BuildStatus) -> Seq<TransportView> {
    seq![
        stream(time, ServiceEventView::ComponentStreamFinished(FinishType::Finished)),
        lifecycle(time, ServiceEventView::InvocationAttemptFinished(status)),
        lifecycle(time, ServiceEventView::BuildFinished(status)),
    ]
}

/// What the end of a reported command sends.
pub open spec fn end_events(report: Report, time: Timestamp, is_success: bool) -> Seq<TransportView> {
    seq![final_progress(report, time)] + pattern_events(report, time) + completed_events(
        report,
        time,
    ) + summary_events(report, time) + seq![finished_event(time, is_success)] + closing_events(
        Some(time),
        build_status(is_success),
    )
}

// Steps

/// What one event adds to a report, and what it sends. Once the command has ended
/// nothing does.
pub open spec fn step(report: Report, event: BuckEvent) -> (Report, Seq<TransportView>) {
    let time = event.timestamp;
    if report.finished {
        (report, Seq::empty())
    } else {
        match event.data {
            EventData::SpanStart(Some(SpanStart::Command(command))) => {
                if is_reported(command.kind) {
                    (
                        Report { started: true, ..report },
                        start_events(
                            report.server_pid,
                            time,
                            event.trace_id@,
                            bep::texts(command.cli_args@),
                        ),
                    )
                } else {
                    (report, Seq::empty())
                }
            },
            EventData::SpanStart(Some(SpanStart::Analysis(analysis))) => match analyzed(analysis) {
                Some(key) => (
                    Report {
                        targets: report.targets.push(key),
                        configurations: report.configurations.insert(key.config),
                        ..report
                    },
                    analysis_events(
                        time,
                        key,
                        analysis.rule@,
                        !report.configurations.contains(key.config),
                    ),
                ),
                None => (report, Seq::empty()),
            },
            EventData::SpanEnd(Some(SpanEnd::Command(command))) => {
                if is_reported(command.kind) {
                    (
                        Report { finished: true, ..report },
                        end_events(report, time, command.is_success),
                    )
                } else {
                    (report, Seq::empty())
                }
            },
            EventData::SpanEnd(Some(SpanEnd::ActionExecution(action))) => (
                match owner_key(action.owner) {
                    Some(key) => Report {
                        actions: report.actions.push(Outcome { key, success: !action.failed }),
                        ..report
                    },
                    None => report,
                },
                seq![action_event(time, action)],
            ),
            EventData::Instant(Some(Instant::TargetPatterns(patterns))) => (
                Report { patterns: bep::texts(patterns@), ..report },
                Seq::empty(),
            ),
            EventData::Instant(Some(Instant::ConsoleMessage(message)))
            | EventData::Instant(Some(Instant::ConsoleWarning(message))) => (
                Report { progress_count: report.progress_count + 1, ..report },
                seq![progress_event(time, report.progress_count, seq![], message@)],
            ),
            EventData::Instant(Some(Instant::StreamingOutput(message))) => (
                Report { progress_count: report.progress_count + 1, ..report },
                seq![progress_event(time, report.progress_count, message@, seq![])],
            ),
            EventData::Instant(Some(Instant::TestResult(result))) => match tested(result) {
                Some(key) => (
                    Report {
                        tests: report.tests.push(
                            Outcome { key, success: result.status == TEST_STATUS_PASS },
                        ),
                        ..report
                    },
                    seq![
                        test_result_event(
                            time,
                            key,
                            (outcomes_of(report.tests, key).len() + 1) as int,
                            result,
                        ),
                    ],
                ),
                None => (report, Seq::empty()),
            },
            _ => (report, Seq::empty()),
        }
    }
}

/// What is sent when the events end: nothing more, unless a command has started and
/// not ended.
pub open spec fn interruption(report: Report) -> Seq<TransportView> {
    if report.started && !report.finished {
        seq![
            bazel(
                None,
                BuildEventView {
                    id: BuildEventIdView::BuildFinished,
                    children: seq![],
                    last_message: true,
                    payload: PayloadView::Aborted {
                        reason: AbortReason::UserInterrupted,
                        description: "Build interrupted"@,
                    },
                },
            ),
        ] + closing_events(None, BuildStatus::CommandFailed)
    } else {
        Seq::empty()
    }
}

/// The report after all of `events`.
pub open spec fn report_after(report: Report, events: Seq<BuckEvent>) -> Report
    decreases events.len(),
{
    if events.len() == 0 {
        report
    } else {
        step(report_after(report, events.drop_last()), events.last()).0
    }
}

/// What all of `events` send.
pub open spec fn sent(report: Report, events: Seq<BuckEvent>) -> Seq<TransportView>
    decreases events.len(),
{
    if events.len() == 0 {
        Seq::empty()
    } else {
        sent(report, events.drop_last()) + step(
            report_after(report, events.drop_last()),
            events.last(),
        ).1
    }
}

/// The whole report of a command whose events are `events`.
pub open spec fn converted(server_pid: int, events: Seq<BuckEvent>) -> Seq<TransportView> {
    sent(new_report(server_pid), events) + interruption(
        report_after(new_report(server_pid), events),
    )
}

// Facts about outcomes

/// The outcomes of a target are those of its key.
pub proof fn lemma_outcomes(s: Seq<Outcome>, key: TargetKey)
    ensures
        forall|i: int|
            0 <= i < outcomes_of(s, key).len() ==> (#[trigger] outcomes_of(
                s,
                key,
            )[i]).key == key,
        (outcomes_of(s, key).len() > 0) == keys_of(s).contains(key),
        (outcomes_of(s, key).len() > 0) == (exists|i: int|
            0 <= i < s.len() && (#[trigger] s[i]).key == key),
    decreases s.len(),
{
    reveal(Seq::filter);
    if s.len() > 0 {
        let rest = s.drop_last();
        lemma_outcomes(rest, key);
        let before = keys_of(rest);
        let after = keys_of(s);
        if after.contains(key) && key != s.last().key {
            let i = choose|i: int| 0 <= i < after.len() && after[i] == key;
            assert(before[i] == key);
        }
        if before.contains(key) {
            let i = choose|i: int| 0 <= i < before.len() && before[i] == key;
            assert(after[i] == key);
        }
        if key == s.last().key {
            if !before.contains(key) {
                assert(after[before.len() as int] == key);
            }
            assert(s[s.len() - 1].key == key);
        } else {
            if exists|i: int| 0 <= i < s.len() && (#[trigger] s[i]).key == key {
                let i = choose|i: int| 0 <= i < s.len() && (#[trigger] s[i]).key == key;
                assert(rest[i].key == key);
            }
            if exists|i: int| 0 <= i < rest.len() && (#[trigger] rest[i]).key == key {
                let i = choose|i: int| 0 <= i < rest.len() && (#[trigger] rest[i]).key == key;
                assert(s[i].key == key);
            }
        }
    }
}

/// One more outcome is one more of its own target and of no other.
pub proof fn lemma_outcomes_push(s: Seq<Outcome>, o: Outcome, key: TargetKey)
    ensures
        outcomes_of(s.push(o), key) == if o.key == key {
            outcomes_of(s, key).push(o)
        } else {
            outcomes_of(s, key)
        },
{
    reveal(Seq::filter);
    assert(s.push(o).drop_last() =~= s);
}

/// All outcomes of a target are successes exactly if none of them is a failure.
pub proof fn lemma_all_succeeded(s: Seq<Outcome>, key: TargetKey)
    ensures
        all_succeeded(outcomes_of(s, key)) <==> forall|j: int|
            0 <= j < s.len() && (#[trigger] s[j]).key == key ==> s[j].success,
    decreases s.len(),
{
    reveal(Seq::filter);
    if s.len() > 0 {
        let rest = s.drop_last();
        let before = outcomes_of(rest, key);
        let after = outcomes_of(s, key);
        lemma_all_succeeded(rest, key);
        assert forall|j: int| 0 <= j < rest.len() implies #[trigger] rest[j] == s[j] by {}
        assert(s[s.len() - 1] == s.last());
        if s.last().key == key {
            assert(after == before.push(s.last()));
            assert(after[before.len() as int] == s.last());
            assert forall|j: int| 0 <= j < before.len() implies #[trigger] before[j]
                == after[j] by {}
            if all_succeeded(after) {
                assert(all_succeeded(before)) by {
                    assert forall|j: int| 0 <= j < before.len() implies (
                    #[trigger] before[j]).success by {
                        assert(before[j] == after[j]);
                    }
                }
            }
        }
        if all_succeeded(after) {
            assert forall|j: int| 0 <= j < s.len() && (#[trigger] s[j]).key == key implies
                s[j].success by {
                if j < rest.len() {
                    assert(rest[j] == s[j]);
                }
            }
        } else {
            assert(!forall|j: int|
                0 <= j < s.len() && (#[trigger] s[j]).key == key ==> s[j].success) by {
                if forall|j: int|
                    0 <= j < s.len() && (#[trigger] s[j]).key == key ==> s[j].success {
                    assert forall|j: int|
                        0 <= j < rest.len() && (#[trigger] rest[j]).key == key implies
                        rest[j].success by {
                        assert(rest[j] == s[j]);
                    }
                    assert(all_succeeded(before));
                }
            }
        }
    }
}

/// No target stands twice among the targets of outcomes.
pub proof fn lemma_keys_differ(s: Seq<Outcome>)
    ensures
        keys_of(s).no_duplicates(),
    decreases s.len(),
{
    if s.len() > 0 {
        lemma_keys_differ(s.drop_last());
        let before = keys_of(s.drop_last());
        let key = s.last().key;
        if !before.contains(key) {
            let after = keys_of(s);
            assert(after == before.push(key));
            assert forall|i: int, j: int| 0 <= i < j < after.len() implies after[i]
                != after[j] by {
                if j == before.len() {
                    assert(before[i] == after[i]);
                    assert(before.contains(before[i]));
                }
            }
        }
    }
}

// Limits

/// Whether the numbers that an event brings into a report fit their fields: the count
/// of progress events, the number of a test run, and the end time of an action.
pub open spec fn fits(report: Report, event: BuckEvent) -> bool {
    report.finished || match event.data {
        EventData::SpanEnd(Some(SpanEnd::ActionExecution(action))) => end_time_fits(
            last_details(action),
        ),
        EventData::Instant(Some(Instant::ConsoleMessage(_)))
        | EventData::Instant(Some(Instant::ConsoleWarning(_)))
        | EventData::Instant(Some(Instant::StreamingOutput(_))) => report.progress_count < i32::MAX,
        EventData::Instant(Some(Instant::TestResult(result))) => match tested(result) {
            Some(key) => outcomes_of(report.tests, key).len() < i32::MAX,
            None => true,
        },
        _ => true,
    }
}

/// Whether the numbers of all of `events` fit.
pub open spec fn all_fit(report: Report, events: Seq<BuckEvent>) -> bool
    decreases events.len(),
{
    events.len() > 0 ==> {
        &&& all_fit(report, events.drop_last())
        &&& fits(report_after(report, events.drop_last()), events.last())
    }
}

} // verus!
