//! What the events of a report hold, said of the events of the command.
use vstd::prelude::*;
use vstd::utf8;

use crate::bep;
use crate::bep::{
    ActionExecutedView, BuildEventIdView, BuildEventView, BuildStartedView, PayloadView,
    ServiceEventView, TestStatus, TimedEventView, TransportView,
};
use crate::buck_event::{
    ActionExecutionEnd, ActionOwner, AnalysisStart, AnalysisTarget, BuckEvent, Command,
    CommandDetails, CommandKind, CommandStart, ConfiguredTargetLabel, EventData, Instant, SpanEnd,
    SpanStart, TargetLabel, TestResult, TimeSpan, Timestamp,
};
use crate::inputs;
use crate::reporting;
use crate::reporting::TargetKey;

verus! {

/// A Build Event Protocol event that others may follow, as it is sent over the stream of
/// the build tool.
pub open spec fn message(
    time: Timestamp,
    id: BuildEventIdView,
    children: Seq<BuildEventIdView>,
    payload: PayloadView,
) -> TransportView {
    TransportView::Stream(
        TimedEventView {
            event_time: Some(time),
            event: ServiceEventView::BazelEvent {
                type_url: "type.googleapis.com/build_event_stream.BuildEvent"@,
                event: BuildEventView { id, children, last_message: false, payload },
            },
        },
    )
}

/// What an action event tells of the action, where one is sent.
pub open spec fn told_action(e: TransportView) -> Option<ActionExecutedView> {
    match e {
        TransportView::Stream(timed) => match timed.event {
            ServiceEventView::BazelEvent { event, .. } => match event.payload {
                PayloadView::Action(action) => Some(action),
                _ => None,
            },
            _ => None,
        },
        _ => None,
    }
}

/// The texts of strings.
pub open spec fn texts(strings: Seq<String>) -> Seq<Seq<char>> {
    Seq::new(strings.len(), |i: int| strings[i]@)
}

/// The start of a build or test sends four events: the build is enqueued and its first
/// attempt started, then the stream opens with the start, which announces the end, the
/// command line and the first progress event, and with the arguments of the command.
pub proof fn law_start_is_reported(
    pid: int,
    events: Seq<BuckEvent>,
    n: int,
    command: CommandStart,
)
    requires
        0 <= n < events.len(),
        inputs::is_running(events, n),
        events[n].data == EventData::SpanStart(Some(SpanStart::Command(command))),
        command.kind == Some(CommandKind::Build) || command.kind == Some(CommandKind::Test),
    ensures
        ({
            let out = inputs::added(pid, events, n);
            let time = events[n].timestamp;
            &&& out.len() == 4
            &&& out[0] == TransportView::Lifecycle(
                TimedEventView { event_time: Some(time), event: ServiceEventView::BuildEnqueued },
            )
            &&& out[1] == TransportView::Lifecycle(
                TimedEventView {
                    event_time: Some(time),
                    event: ServiceEventView::InvocationAttemptStarted { attempt_number: 1 },
                },
            )
            &&& out[2] == message(
                time,
                BuildEventIdView::Started,
                seq![
                    BuildEventIdView::BuildFinished,
                    BuildEventIdView::UnstructuredCommandLine,
                    BuildEventIdView::Progress { opaque_count: 0 },
                ],
                PayloadView::Started(
                    BuildStartedView {
                        uuid: events[n].trace_id@,
                        start_time: time,
                        build_tool_version: "BUCK2"@,
                        options_description: "UNKNOWN"@,
                        command: "build"@,
                        working_directory: "UNKNOWN"@,
                        workspace_directory: "UNKNOWN"@,
                        server_pid: pid,
                    },
                ),
            )
            &&& out[3] == message(
                time,
                BuildEventIdView::UnstructuredCommandLine,
                Seq::empty(),
                PayloadView::UnstructuredCommandLine { args: texts(command.cli_args@) },
            )
        }),
{
    inputs::lemma_added(pid, events, n);
    inputs::lemma_first_is_running(events, n);
    inputs::lemma_report(pid, inputs::first(events, n));
    assert(bep::texts(command.cli_args@) =~= texts(command.cli_args@));
}

/// The start of the analysis of a configured target sends the target with its rule, which
/// announces the completion of that target; where no target with that configuration was
/// analyzed before, it announces the configuration too, which is then sent.
pub proof fn law_analysis_is_reported(
    pid: int,
    events: Seq<BuckEvent>,
    n: int,
    analysis: AnalysisStart,
    label: TargetLabel,
    configuration: String,
)
    requires
        0 <= n < events.len(),
        inputs::is_running(events, n),
        events[n].data == EventData::SpanStart(Some(SpanStart::Analysis(analysis))),
        analysis.target == Some(
            AnalysisTarget::Standard(
                ConfiguredTargetLabel { label: Some(label), configuration: Some(configuration) },
            ),
        ),
    ensures
        ({
            let out = inputs::added(pid, events, n);
            let time = events[n].timestamp;
            let is_known = exists|i: int|
                0 <= i < n && (inputs::analysis_of(#[trigger] events[i]) matches Some(key)
                    && key.config == configuration@);
            let completed = BuildEventIdView::TargetCompleted {
                label: inputs::label_of(label),
                configuration: configuration@,
            };
            let config = BuildEventIdView::Configuration { id: configuration@ };
            &&& out.len() == if is_known {
                1int
            } else {
                2
            }
            &&& out[0] == message(
                time,
                BuildEventIdView::TargetConfigured { label: inputs::label_of(label) },
                if is_known {
                    seq![completed]
                } else {
                    seq![completed, config]
                },
                PayloadView::Configured {
                    target_kind: if analysis.rule@.len() > 0 {
                        analysis.rule@
                    } else {
                        "unknown rule type"@
                    },
                },
            )
            &&& !is_known ==> out[1] == message(
                time,
                config,
                Seq::empty(),
                PayloadView::Configuration,
            )
        }),
{
    let before = inputs::first(events, n);
    inputs::lemma_added(pid, events, n);
    inputs::lemma_first_is_running(events, n);
    inputs::lemma_report(pid, before);
    inputs::lemma_label(label);
    let report = reporting::report_after(reporting::new_report(pid), before);
    let is_known = exists|i: int|
        0 <= i < n && (inputs::analysis_of(#[trigger] events[i]) matches Some(key) && key.config
            == configuration@);
    assert(report.configurations.contains(configuration@) == is_known) by {
        if report.configurations.contains(configuration@) {
            let i = choose|i: int|
                0 <= i < before.len() && (inputs::analysis_of(#[trigger] before[i]) matches Some(
                    key,
                ) && key.config == configuration@);
            assert(before[i] == events[i]);
        }
        if is_known {
            let i = choose|i: int|
                0 <= i < n && (inputs::analysis_of(#[trigger] events[i]) matches Some(key)
                    && key.config == configuration@);
            assert(before[i] == events[i]);
        }
    }
}

/// What holds of every action event: it tells whether the action failed, its category,
/// and what its last command says of itself.
proof fn lemma_action_is_told(
    pid: int,
    events: Seq<BuckEvent>,
    n: int,
    action: ActionExecutionEnd,
)
    requires
        0 <= n < events.len(),
        inputs::is_running(events, n),
        events[n].data == EventData::SpanEnd(Some(SpanEnd::ActionExecution(action))),
    ensures
        inputs::added(pid, events, n) == seq![
            reporting::action_event(events[n].timestamp, action),
        ],
        told_action(inputs::added(pid, events, n)[0]) == Some(reporting::action_executed(action)),
{
    inputs::lemma_added(pid, events, n);
    inputs::lemma_first_is_running(events, n);
    inputs::lemma_report(pid, inputs::first(events, n));
}

/// The end of an action sends one event, which is named after the owner of the action: a
/// target by its label and its configuration, an anonymous target by its label alone.
pub proof fn law_actions_are_named_after_their_owners(
    pid: int,
    events: Seq<BuckEvent>,
    n: int,
    action: ActionExecutionEnd,
)
    requires
        0 <= n < events.len(),
        inputs::is_running(events, n),
        events[n].data == EventData::SpanEnd(Some(SpanEnd::ActionExecution(action))),
    ensures
        ({
            let out = inputs::added(pid, events, n);
            let named = |label: Option<TargetLabel>, configuration: Option<String>|
                message(
                    events[n].timestamp,
                    BuildEventIdView::ActionCompleted {
                        configuration: match configuration {
                            Some(c) => Some(c@),
                            None => None,
                        },
                        label: match label {
                            Some(l) => inputs::label_of(l),
                            None => "UNKNOWN"@,
                        },
                        primary_output: "UNKNOWN"@,
                    },
                    Seq::empty(),
                    PayloadView::Action(told_action(out[0])->Some_0),
                );
            &&& out.len() == 1
            &&& told_action(out[0]) is Some
            &&& out[0] == match action.owner {
                Some(ActionOwner::Target(t)) => named(t.label, t.configuration),
                Some(ActionOwner::TestTarget(t)) => named(t.label, t.configuration),
                Some(ActionOwner::LocalResourceSetup(t)) => named(t.label, t.configuration),
                Some(ActionOwner::AnonTarget(label)) => named(label, None),
                Some(ActionOwner::Bxl) => named(None, None),
                None => named(None, None),
            }
        }),
{
    lemma_action_is_told(pid, events, n, action);
    match action.owner {
        Some(ActionOwner::Target(t))
        | Some(ActionOwner::TestTarget(t))
        | Some(ActionOwner::LocalResourceSetup(t)) => {
            if let Some(label) = t.label {
                inputs::lemma_label(label);
            }
        },
        Some(ActionOwner::AnonTarget(Some(label))) => {
            inputs::lemma_label(label);
        },
        _ => {},
    }
}

/// An action event tells success exactly of an action that did not fail, with the category
/// of the action as its mnemonic.
pub proof fn law_actions_tell_whether_they_failed(
    pid: int,
    events: Seq<BuckEvent>,
    n: int,
    action: ActionExecutionEnd,
)
    requires
        0 <= n < events.len(),
        inputs::is_running(events, n),
        events[n].data == EventData::SpanEnd(Some(SpanEnd::ActionExecution(action))),
    ensures
        told_action(inputs::added(pid, events, n)[0]) matches Some(told) && {
            &&& told.success != action.failed
            &&& told.failure_detail is Some == action.failed
            &&& action.category matches Some(category) ==> told.mnemonic == category@
            &&& action.category is None ==> told.mnemonic == "UNKNOWN"@
        },
{
    lemma_action_is_told(pid, events, n, action);
}

/// Where the details of the last command of an action are known, its event holds two
/// files, `stdout` with what the command wrote to its standard output and `stderr` with
/// what it wrote to its standard error, each with its length in bytes. The exit code, the
/// command line and the start time are those of the command, and the detail of a failure
/// is what it wrote to its standard error. The command line of a command that ran
/// elsewhere, or not at all, is the digest of its action after a word that says so.
pub proof fn law_actions_tell_of_their_last_command(
    pid: int,
    events: Seq<BuckEvent>,
    n: int,
    action: ActionExecutionEnd,
    details: CommandDetails,
)
    requires
        0 <= n < events.len(),
        inputs::is_running(events, n),
        events[n].data == EventData::SpanEnd(Some(SpanEnd::ActionExecution(action))),
        action.commands@.len() > 0,
        action.commands@[action.commands@.len() - 1] == Some(details),
    ensures
        told_action(inputs::added(pid, events, n)[0]) matches Some(told) && {
            let fits = |text: Seq<char>|
                utf8::encode_utf8(text).len() <= usize::MAX && utf8::encode_utf8(text).len()
                    <= i64::MAX;
            &&& told.stdout matches Some(stdout) && {
                &&& stdout.name == "stdout"@
                &&& stdout.contents == details.cmd_stdout@
                &&& fits(details.cmd_stdout@) ==> stdout.length == utf8::encode_utf8(
                    details.cmd_stdout@,
                ).len()
            }
            &&& told.stderr matches Some(stderr) && {
                &&& stderr.name == "stderr"@
                &&& stderr.contents == details.cmd_stderr@
                &&& fits(details.cmd_stderr@) ==> stderr.length == utf8::encode_utf8(
                    details.cmd_stderr@,
                ).len()
            }
            &&& action.failed ==> told.failure_detail == Some(details.cmd_stderr@)
            &&& details.signed_exit_code matches Some(code) ==> told.exit_code == code
            &&& details.signed_exit_code is None ==> told.exit_code == 0
            &&& told.command_line == match details.command {
                Some(Command::Local(arguments)) => texts(arguments@),
                Some(Command::Worker(arguments)) => texts(arguments@),
                Some(Command::WorkerInit(arguments)) => texts(arguments@),
                Some(Command::Remote { action_digest }) => seq!["remote:"@ + action_digest@],
                Some(Command::OmittedLocal { action_digest }) => seq![
                    "omitted_local:"@ + action_digest@,
                ],
                None => Seq::empty(),
            }
            &&& details.metadata matches Some(metadata) ==> {
                &&& told.start_time == metadata.start_time
                &&& told.end_time is Some == (metadata.start_time is Some && metadata.wall_time
                    is Some)
            }
            &&& details.metadata is None ==> told.start_time is None && told.end_time is None
        },
{
    lemma_action_is_told(pid, events, n, action);
    match details.command {
        Some(Command::Local(arguments)) => {
            assert(bep::texts(arguments@) =~= texts(arguments@));
        },
        Some(Command::Worker(arguments)) => {
            assert(bep::texts(arguments@) =~= texts(arguments@));
        },
        Some(Command::WorkerInit(arguments)) => {
            assert(bep::texts(arguments@) =~= texts(arguments@));
        },
        _ => {},
    }
}

/// Where nothing is known of the last command of an action, its event holds no files, no
/// command line and no times, and its exit code is zero.
pub proof fn law_actions_without_details_tell_no_more(
    pid: int,
    events: Seq<BuckEvent>,
    n: int,
    action: ActionExecutionEnd,
)
    requires
        0 <= n < events.len(),
        inputs::is_running(events, n),
        events[n].data == EventData::SpanEnd(Some(SpanEnd::ActionExecution(action))),
        action.commands@.len() == 0 || action.commands@[action.commands@.len() - 1] is None,
    ensures
        told_action(inputs::added(pid, events, n)[0]) matches Some(told) && {
            &&& told.stdout is None
            &&& told.stderr is None
            &&& action.failed ==> told.failure_detail == Some("UNKNOWN"@)
            &&& told.exit_code == 0
            &&& told.command_line == Seq::<Seq<char>>::empty()
            &&& told.start_time is None
            &&& told.end_time is None
        },
{
    lemma_action_is_told(pid, events, n, action);
}

/// The end of a command is its start and its wall time added up. It is told with less than
/// a second of nanoseconds, which are negative only where those that are added up are.
pub proof fn law_end_times_add_up(
    pid: int,
    events: Seq<BuckEvent>,
    n: int,
    action: ActionExecutionEnd,
    details: CommandDetails,
    start: Timestamp,
    wall: TimeSpan,
    end: Timestamp,
)
    requires
        0 <= n < events.len(),
        inputs::is_running(events, n),
        events[n].data == EventData::SpanEnd(Some(SpanEnd::ActionExecution(action))),
        action.commands@.len() > 0,
        action.commands@[action.commands@.len() - 1] == Some(details),
        details.metadata matches Some(metadata) && metadata.start_time == Some(start)
            && metadata.wall_time == Some(wall),
        end.seconds * 1_000_000_000 + end.nanos == (start.seconds + wall.seconds) * 1_000_000_000
            + start.nanos + wall.nanos,
        -1_000_000_000 < end.nanos < 1_000_000_000,
        end.nanos > 0 ==> start.nanos + wall.nanos > 0,
        end.nanos < 0 ==> start.nanos + wall.nanos < 0,
    ensures
        told_action(inputs::added(pid, events, n)[0]) matches Some(told) && told.end_time == Some(
            end,
        ),
{
    lemma_action_is_told(pid, events, n, action);
    let (seconds, rest) = reporting::end_parts(start, wall);
    assert(seconds == end.seconds && rest == end.nanos);
}

/// A message or a warning of the command sends a progress event that holds it as standard
/// error, an output one that holds it as standard output. They are numbered from zero, and
/// each announces the next.
pub proof fn law_messages_are_progress(
    pid: int,
    events: Seq<BuckEvent>,
    n: int,
    instant: Instant,
    text: String,
)
    requires
        0 <= n < events.len(),
        inputs::is_running(events, n),
        events[n].data == EventData::Instant(Some(instant)),
        instant == Instant::ConsoleMessage(text) || instant == Instant::ConsoleWarning(text)
            || instant == Instant::StreamingOutput(text),
    ensures
        ({
            let count = inputs::messages(inputs::first(events, n));
            inputs::added(pid, events, n) == seq![
                message(
                    events[n].timestamp,
                    BuildEventIdView::Progress { opaque_count: count },
                    seq![BuildEventIdView::Progress { opaque_count: count + 1 }],
                    if instant is StreamingOutput {
                        PayloadView::Progress { stdout: text@, stderr: Seq::empty() }
                    } else {
                        PayloadView::Progress { stdout: Seq::empty(), stderr: text@ }
                    },
                ),
            ]
        }),
{
    inputs::lemma_added(pid, events, n);
    inputs::lemma_first_is_running(events, n);
    inputs::lemma_report(pid, inputs::first(events, n));
}

/// The result of a test of a configured target sends one event. It tells that the test
/// passed exactly if the status of the result is zero, and that it failed otherwise, with
/// the name and the duration of the test. The results of a target are numbered from one.
pub proof fn law_test_results_are_reported(
    pid: int,
    events: Seq<BuckEvent>,
    n: int,
    result: TestResult,
    label: TargetLabel,
    configuration: String,
)
    requires
        0 <= n < events.len(),
        inputs::is_running(events, n),
        events[n].data == EventData::Instant(Some(Instant::TestResult(result))),
        result.target_label == Some(
            ConfiguredTargetLabel { label: Some(label), configuration: Some(configuration) },
        ),
    ensures
        ({
            let key = TargetKey { label: inputs::label_of(label), config: configuration@ };
            inputs::added(pid, events, n) == seq![
                message(
                    events[n].timestamp,
                    BuildEventIdView::TestResult {
                        label: key.label,
                        configuration: key.config,
                        run: inputs::test_count(inputs::first(events, n), key) + 1,
                        shard: 1,
                        attempt: 1,
                    },
                    Seq::empty(),
                    PayloadView::TestResult {
                        status: if result.status == 0 {
                            TestStatus::Passed
                        } else {
                            TestStatus::Failed
                        },
                        status_details: result.name@,
                        test_attempt_duration: result.duration,
                    },
                ),
            ]
        }),
{
    let before = inputs::first(events, n);
    let key = TargetKey { label: inputs::label_of(label), config: configuration@ };
    inputs::lemma_added(pid, events, n);
    inputs::lemma_first_is_running(events, n);
    inputs::lemma_report(pid, before);
    inputs::lemma_label(label);
    inputs::lemma_tests_of(before, key);
}

/// No other event sends anything while the command goes on: not target patterns, not what
/// concerns no configured target, and not the start or the end of any command but a build
/// or a test.
pub proof fn law_other_events_send_nothing(pid: int, events: Seq<BuckEvent>, n: int)
    requires
        0 <= n < events.len(),
        inputs::is_running(events, n),
        !inputs::is_start(events[n]),
        !inputs::is_end(events[n]),
        !inputs::is_message(events[n]),
        inputs::analysis_of(events[n]) is None,
        inputs::test_of(events[n]) is None,
        !(events[n].data matches EventData::SpanEnd(Some(SpanEnd::ActionExecution(_)))),
    ensures
        inputs::added(pid, events, n) == Seq::<TransportView>::empty(),
{
    inputs::lemma_added(pid, events, n);
    inputs::lemma_first_is_running(events, n);
    inputs::lemma_report(pid, inputs::first(events, n));
    match events[n].data {
        EventData::SpanStart(Some(SpanStart::Analysis(analysis))) => {
            if let Some(AnalysisTarget::Standard(target)) = analysis.target {
                inputs::lemma_target(target);
            }
        },
        EventData::Instant(Some(Instant::TestResult(result))) => {
            if let Some(target) = result.target_label {
                inputs::lemma_target(target);
            }
        },
        _ => {},
    }
}

/// Nothing is sent for events that follow the end of the build or test.
pub proof fn law_nothing_follows_the_end(pid: int, events: Seq<BuckEvent>, n: int)
    requires
        0 <= n < events.len(),
        !inputs::is_running(events, n),
    ensures
        inputs::added(pid, events, n) == Seq::<TransportView>::empty(),
{
    let before = inputs::first(events, n);
    inputs::lemma_added(pid, events, n);
    inputs::lemma_finished(pid, before);
    let i = choose|i: int|
        0 <= i < n && i < events.len() && inputs::is_end(#[trigger] events[i]);
    assert(before[i] == events[i]);
}

} // verus!
