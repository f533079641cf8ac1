//! What the end of a command sends, said of the events before it, and what a whole report
//! is made of.
use vstd::prelude::*;

use crate::bep::{
    AbortReason, BuildEventIdView, BuildEventView, BuildStatus, FinishType, PayloadView,
    ServiceEventView, TestStatus, TimedEventView, TransportView,
};
use crate::buck_event::{
    ActionExecutionEnd, ActionOwner, AnalysisStart, AnalysisTarget, BuckEvent, CommandEnd,
    CommandKind, ConfiguredTargetLabel, EventData, Instant, SpanEnd, SpanStart, TargetLabel,
    TimeSpan, Timestamp,
};
use crate::content;
use crate::inputs;
use crate::reporting;
use crate::reporting::{Outcome, Report, TargetKey};

verus! {

/// Whether the `n`-th event is the first that ends a build or a test.
pub open spec fn ends_at(events: Seq<BuckEvent>, n: int, command: CommandEnd) -> bool {
    &&& 0 <= n < events.len()
    &&& inputs::is_running(events, n)
    &&& events[n].data == EventData::SpanEnd(Some(SpanEnd::Command(command)))
    &&& command.kind == Some(CommandKind::Build) || command.kind == Some(CommandKind::Test)
}

/// The patterns that are expanded at the end of a command: the target patterns that were
/// told of last or, where there are none, the labels of the targets that were analyzed.
pub open spec fn expanded(before: Seq<BuckEvent>) -> Seq<Seq<char>> {
    let patterns = inputs::last_patterns(before);
    let targets = inputs::analyses(before);
    if patterns.len() > 0 {
        patterns
    } else {
        Seq::new(targets.len(), |i: int| targets[i].label)
    }
}

/// The parts of what the end of a command sends.
proof fn lemma_end(pid: int, events: Seq<BuckEvent>, n: int, command: CommandEnd)
    requires
        ends_at(events, n, command),
    ensures
        ({
            let before = inputs::first(events, n);
            let report = reporting::report_after(reporting::new_report(pid), before);
            let time = events[n].timestamp;
            let out = inputs::added(pid, events, n);
            let p = expanded(before).len() as int;
            let t = inputs::analyses(before).len() as int;
            let k = reporting::keys_of(inputs::tests(before)).len() as int;
            &&& reporting::expanded_patterns(report) == expanded(before)
            &&& report.targets == inputs::analyses(before)
            &&& report.tests == inputs::tests(before)
            &&& report.actions == inputs::actions(before)
            &&& report.patterns == inputs::last_patterns(before)
            &&& report.progress_count == inputs::messages(before)
            &&& out.len() == 1 + p + t + k + 4
            &&& out[0] == reporting::final_progress(report, time)
            &&& out.subrange(1, 1 + p) == reporting::pattern_events(report, time)
            &&& out.subrange(1 + p, 1 + p + t) == reporting::completed_events(report, time)
            &&& out.subrange(1 + p + t, 1 + p + t + k) == reporting::summary_events(report, time)
            &&& out[1 + p + t + k] == reporting::finished_event(time, command.is_success)
            &&& out.subrange(1 + p + t + k + 1, out.len() as int) == reporting::closing_events(
                Some(time),
                reporting::build_status(command.is_success),
            )
        }),
{
    let before = inputs::first(events, n);
    let report = reporting::report_after(reporting::new_report(pid), before);
    let time = events[n].timestamp;
    let out = inputs::added(pid, events, n);
    inputs::lemma_added(pid, events, n);
    inputs::lemma_first_is_running(events, n);
    inputs::lemma_report(pid, before);
    assert(reporting::expanded_patterns(report) =~= expanded(before));
    assert(out == reporting::end_events(report, time, command.is_success));
    let p = expanded(before).len() as int;
    let t = inputs::analyses(before).len() as int;
    let k = reporting::keys_of(inputs::tests(before)).len() as int;
    assert(reporting::pattern_events(report, time).len() == p);
    assert(reporting::completed_events(report, time).len() == t);
    assert(reporting::summary_events(report, time).len() == k);
    assert(out.subrange(1, 1 + p) =~= reporting::pattern_events(report, time));
    assert(out.subrange(1 + p, 1 + p + t) =~= reporting::completed_events(report, time));
    assert(out.subrange(1 + p + t, 1 + p + t + k) =~= reporting::summary_events(report, time));
    assert(out.subrange(1 + p + t + k + 1, out.len() as int) =~= reporting::closing_events(
        Some(time),
        reporting::build_status(command.is_success),
    ));
}

/// The end of a command first sends the last progress event, whose number follows those
/// of the messages, and which announces the expansion of each pattern.
pub proof fn law_last_progress_announces_patterns(
    pid: int,
    events: Seq<BuckEvent>,
    n: int,
    command: CommandEnd,
)
    requires
        ends_at(events, n, command),
    ensures
        ({
            let before = inputs::first(events, n);
            let patterns = expanded(before);
            &&& inputs::added(pid, events, n).len() > 0
            &&& inputs::added(pid, events, n)[0] == content::message(
                events[n].timestamp,
                BuildEventIdView::Progress { opaque_count: inputs::messages(before) },
                Seq::new(
                    patterns.len(),
                    |i: int| BuildEventIdView::Pattern { pattern: patterns[i] },
                ),
                PayloadView::Progress { stdout: Seq::empty(), stderr: Seq::empty() },
            )
        }),
{
    lemma_end(pid, events, n, command);
    let before = inputs::first(events, n);
    let report = reporting::report_after(reporting::new_report(pid), before);
    let patterns = expanded(before);
    assert(reporting::expanded_patterns(report).map_values(
        |p: Seq<char>| reporting::pattern_id(p),
    ) =~= Seq::new(patterns.len(), |i: int| BuildEventIdView::Pattern { pattern: patterns[i] }));
}

/// Where a command was given target patterns, each is expanded, in order, and announces
/// every target that was analyzed, in order.
pub proof fn law_given_patterns_are_expanded(
    pid: int,
    events: Seq<BuckEvent>,
    n: int,
    command: CommandEnd,
    i: int,
)
    requires
        ends_at(events, n, command),
        0 <= i < inputs::last_patterns(inputs::first(events, n)).len(),
    ensures
        ({
            let before = inputs::first(events, n);
            let targets = inputs::analyses(before);
            inputs::added(pid, events, n)[1 + i] == content::message(
                events[n].timestamp,
                BuildEventIdView::Pattern { pattern: inputs::last_patterns(before)[i] },
                Seq::new(
                    targets.len(),
                    |k: int| BuildEventIdView::TargetConfigured { label: targets[k].label },
                ),
                PayloadView::Expanded,
            )
        }),
{
    lemma_end(pid, events, n, command);
    let before = inputs::first(events, n);
    let report = reporting::report_after(reporting::new_report(pid), before);
    let targets = inputs::analyses(before);
    let out = inputs::added(pid, events, n);
    let p = expanded(before).len() as int;
    assert(out.subrange(1, 1 + p)[i] == out[1 + i]);
    assert(report.targets.map_values(|t: TargetKey| reporting::configured_id(t)) =~= Seq::new(
        targets.len(),
        |k: int| BuildEventIdView::TargetConfigured { label: targets[k].label },
    ));
}

/// Where a command was given no target patterns, the label of each target that was
/// analyzed is expanded, in order, and announces that target and nothing else.
pub proof fn law_labels_are_expanded_to_their_targets(
    pid: int,
    events: Seq<BuckEvent>,
    n: int,
    command: CommandEnd,
    i: int,
)
    requires
        ends_at(events, n, command),
        inputs::last_patterns(inputs::first(events, n)).len() == 0,
        0 <= i < inputs::analyses(inputs::first(events, n)).len(),
    ensures
        ({
            let label = inputs::analyses(inputs::first(events, n))[i].label;
            inputs::added(pid, events, n)[1 + i] == content::message(
                events[n].timestamp,
                BuildEventIdView::Pattern { pattern: label },
                seq![BuildEventIdView::TargetConfigured { label }],
                PayloadView::Expanded,
            )
        }),
{
    lemma_end(pid, events, n, command);
    let before = inputs::first(events, n);
    let out = inputs::added(pid, events, n);
    let p = expanded(before).len() as int;
    assert(out.subrange(1, 1 + p)[i] == out[1 + i]);
}

/// Whether the actions of a target that ended before the `n`-th event all succeeded: an
/// action of a target is one that was executed for the target itself, for its tests or for
/// setting up a local resource.
pub open spec fn no_action_failed(events: Seq<BuckEvent>, n: int, key: TargetKey) -> bool {
    forall|i: int|
        0 <= i < n ==> !(inputs::action_of(#[trigger] events[i]) matches Some(o) && o.key == key
            && !o.success)
}

/// The events that the completion of a target announces for its tests: each test result,
/// then their summary.
pub open spec fn announced_tests(count: int, key: TargetKey) -> Seq<BuildEventIdView> {
    if count > 0 {
        Seq::new(
            count as nat,
            |i: int|
                BuildEventIdView::TestResult {
                    label: key.label,
                    configuration: key.config,
                    run: i + 1,
                    shard: 1,
                    attempt: 1,
                },
        ).push(BuildEventIdView::TestSummary { label: key.label, configuration: key.config })
    } else {
        Seq::empty()
    }
}

/// Whether the outcomes that events tell of one target are all successes.
proof fn lemma_failures(events: Seq<BuckEvent>, key: TargetKey)
    ensures
        reporting::all_succeeded(reporting::outcomes_of(inputs::actions(events), key))
            == no_action_failed(events, events.len() as int, key),
    decreases events.len(),
{
    reveal(Seq::filter);
    if events.len() > 0 {
        let rest = events.drop_last();
        let e = events.last();
        lemma_failures(rest, key);
        assert(events[events.len() - 1] == e);
        assert forall|i: int| 0 <= i < rest.len() implies #[trigger] rest[i] == events[i] by {}
        let before = reporting::outcomes_of(inputs::actions(rest), key);
        let after = reporting::outcomes_of(inputs::actions(events), key);
        let n = events.len() as int;
        if let Some(o) = inputs::action_of(e) {
            reporting::lemma_outcomes_push(inputs::actions(rest), o, key);
            if o.key == key {
                assert(after == before.push(o));
                assert(after[before.len() as int] == o);
                if reporting::all_succeeded(after) {
                    assert forall|j: int| 0 <= j < before.len() implies (
                    #[trigger] before[j]).success by {
                        assert(after[j].success);
                    }
                }
                if reporting::all_succeeded(before) && o.success {
                    assert(reporting::all_succeeded(after));
                }
            }
        }
        if no_action_failed(events, n, key) {
            assert forall|i: int| 0 <= i < rest.len() implies !(inputs::action_of(
                #[trigger] rest[i],
            ) matches Some(o) && o.key == key && !o.success) by {
                assert(rest[i] == events[i]);
            }
        }
        if no_action_failed(rest, n - 1, key) && !(inputs::action_of(e) matches Some(o) && o.key
            == key && !o.success) {
            assert forall|i: int| 0 <= i < n implies !(inputs::action_of(
                #[trigger] events[i],
            ) matches Some(o) && o.key == key && !o.success) by {
                if i < n - 1 {
                    assert(rest[i] == events[i]);
                }
            }
        }
    }
}

/// After the patterns, each target that was analyzed is completed, in order. At its first
/// completion a target has succeeded exactly if none of its actions failed, and each of
/// its actions is announced; a repeated completion tells success and announces no action.
/// Every completion announces the tests of the target.
pub proof fn law_targets_are_completed_with_their_actions(
    pid: int,
    events: Seq<BuckEvent>,
    n: int,
    command: CommandEnd,
    i: int,
)
    requires
        ends_at(events, n, command),
        0 <= i < inputs::analyses(inputs::first(events, n)).len(),
    ensures
        ({
            let before = inputs::first(events, n);
            let targets = inputs::analyses(before);
            let key = targets[i];
            let is_first = forall|j: int| 0 <= j < i ==> #[trigger] targets[j] != key;
            let action = BuildEventIdView::ActionCompleted {
                configuration: Some(key.config),
                label: key.label,
                primary_output: "UNKNOWN"@,
            };
            let actions = if is_first {
                inputs::action_count(before, key)
            } else {
                0
            };
            inputs::added(pid, events, n)[1 + expanded(before).len() + i] == content::message(
                events[n].timestamp,
                BuildEventIdView::TargetCompleted { label: key.label, configuration: key.config },
                Seq::new(actions as nat, |k: int| action) + announced_tests(
                    inputs::test_count(before, key),
                    key,
                ),
                PayloadView::Completed {
                    success: is_first ==> no_action_failed(events, n, key),
                },
            )
        }),
{
    lemma_end(pid, events, n, command);
    let before = inputs::first(events, n);
    let report = reporting::report_after(reporting::new_report(pid), before);
    let targets = inputs::analyses(before);
    let key = targets[i];
    let out = inputs::added(pid, events, n);
    let p = expanded(before).len() as int;
    let t = targets.len() as int;
    assert(out.subrange(1 + p, 1 + p + t)[i] == out[1 + p + i]);
    assert(out[1 + p + i] == reporting::completed_event(report, events[n].timestamp, i));
    let is_first = forall|j: int| 0 <= j < i ==> #[trigger] targets[j] != key;
    let earlier = targets.subrange(0, i);
    assert(reporting::is_repeated(targets, i) == !is_first) by {
        if earlier.contains(key) {
            let j = choose|j: int| 0 <= j < earlier.len() && earlier[j] == key;
            assert(targets[j] == key);
        }
        if !is_first {
            let j = choose|j: int| 0 <= j < i && #[trigger] targets[j] == key;
            assert(earlier[j] == key);
        }
    }
    let action = BuildEventIdView::ActionCompleted {
        configuration: Some(key.config),
        label: key.label,
        primary_output: "UNKNOWN"@,
    };
    let own = reporting::completed_actions(report, i);
    reporting::lemma_outcomes(report.actions, key);
    inputs::lemma_actions_of(before, key);
    inputs::lemma_tests_of(before, key);
    lemma_failures(before, key);
    assert(no_action_failed(before, n, key) == no_action_failed(events, n, key)) by {
        assert forall|j: int| 0 <= j < n implies #[trigger] before[j] == events[j] by {}
        assert forall|j: int| 0 <= j < n implies #[trigger] events[j] == before[j] by {}
        if no_action_failed(before, n, key) {
            assert forall|j: int| 0 <= j < n implies !(inputs::action_of(
                #[trigger] events[j],
            ) matches Some(o) && o.key == key && !o.success) by {
                assert(before[j] == events[j]);
            }
        }
    }
    assert(own.map_values(|o: Outcome| reporting::target_action_id(o.key)) =~= Seq::new(
        own.len(),
        |k: int| action,
    ));
    assert(reporting::test_children(report.tests, key) =~= announced_tests(
        inputs::test_count(before, key),
        key,
    ));
    if !is_first {
        assert(reporting::all_succeeded(own));
    }
}

/// Whether the test results of a target that came before the `n`-th event all passed.
pub open spec fn all_passed(events: Seq<BuckEvent>, n: int, key: TargetKey) -> bool {
    forall|i: int|
        0 <= i < n ==> !(inputs::test_of(#[trigger] events[i]) matches Some(o) && o.key == key
            && !o.success)
}

/// Whether the test results that events tell of one target all passed.
proof fn lemma_passes(events: Seq<BuckEvent>, key: TargetKey)
    ensures
        reporting::all_succeeded(reporting::outcomes_of(inputs::tests(events), key)) == all_passed(
            events,
            events.len() as int,
            key,
        ),
    decreases events.len(),
{
    reveal(Seq::filter);
    if events.len() > 0 {
        let rest = events.drop_last();
        let e = events.last();
        lemma_passes(rest, key);
        assert(events[events.len() - 1] == e);
        assert forall|i: int| 0 <= i < rest.len() implies #[trigger] rest[i] == events[i] by {}
        let before = reporting::outcomes_of(inputs::tests(rest), key);
        let after = reporting::outcomes_of(inputs::tests(events), key);
        let n = events.len() as int;
        if let Some(o) = inputs::test_of(e) {
            reporting::lemma_outcomes_push(inputs::tests(rest), o, key);
            if o.key == key {
                assert(after == before.push(o));
                assert(after[before.len() as int] == o);
                if reporting::all_succeeded(after) {
                    assert forall|j: int| 0 <= j < before.len() implies (
                    #[trigger] before[j]).success by {
                        assert(after[j].success);
                    }
                }
                if reporting::all_succeeded(before) && o.success {
                    assert(reporting::all_succeeded(after));
                }
            }
        }
        if all_passed(events, n, key) {
            assert forall|i: int| 0 <= i < rest.len() implies !(inputs::test_of(
                #[trigger] rest[i],
            ) matches Some(o) && o.key == key && !o.success) by {
                assert(rest[i] == events[i]);
            }
        }
        if all_passed(rest, n - 1, key) && !(inputs::test_of(e) matches Some(o) && o.key == key
            && !o.success) {
            assert forall|i: int| 0 <= i < n implies !(inputs::test_of(
                #[trigger] events[i],
            ) matches Some(o) && o.key == key && !o.success) by {
                if i < n - 1 {
                    assert(rest[i] == events[i]);
                }
            }
        }
    }
}

/// What is told of the tests of a target at the end of a command: that they passed exactly
/// if all of them did, and how many there were.
pub open spec fn told_summary(
    events: Seq<BuckEvent>,
    n: int,
    key: TargetKey,
) -> TransportView {
    let count = inputs::test_count(inputs::first(events, n), key);
    content::message(
        events[n].timestamp,
        BuildEventIdView::TestSummary { label: key.label, configuration: key.config },
        Seq::empty(),
        PayloadView::TestSummary {
            overall_status: if all_passed(events, n, key) {
                TestStatus::Passed
            } else {
                TestStatus::Failed
            },
            total_run_count: count,
            run_count: count,
            attempt_count: 1,
            shard_count: 1,
        },
    )
}

/// Whether keys are those of the targets that had test results, each once.
pub open spec fn are_tested(before: Seq<BuckEvent>, keys: Seq<TargetKey>) -> bool {
    &&& keys.no_duplicates()
    &&& forall|key: TargetKey| #[trigger]
        keys.contains(key) <==> inputs::test_count(before, key) > 0
}

/// After the targets, the tests of each target that had test results are summed up once,
/// and nothing else is sent before the last four events.
pub proof fn law_tests_are_summed_up_by_target(
    pid: int,
    events: Seq<BuckEvent>,
    n: int,
    command: CommandEnd,
)
    requires
        ends_at(events, n, command),
    ensures
        ({
            let before = inputs::first(events, n);
            let out = inputs::added(pid, events, n);
            let from = 1 + expanded(before).len() + inputs::analyses(before).len();
            &&& from + 4 <= out.len()
            &&& exists|keys: Seq<TargetKey>|
                {
                    &&& #[trigger] are_tested(before, keys)
                    &&& keys.len() == out.len() - 4 - from
                    &&& forall|k: int|
                        0 <= k < keys.len() ==> out[from + k] == told_summary(
                            events,
                            n,
                            #[trigger] keys[k],
                        )
                }
        }),
{
    lemma_end(pid, events, n, command);
    let before = inputs::first(events, n);
    let report = reporting::report_after(reporting::new_report(pid), before);
    let out = inputs::added(pid, events, n);
    let tests = inputs::tests(before);
    let keys = reporting::keys_of(tests);
    let from = (1 + expanded(before).len() + inputs::analyses(before).len()) as int;
    reporting::lemma_keys_differ(tests);
    assert forall|key: TargetKey| #[trigger] keys.contains(key) <==> inputs::test_count(
        before,
        key,
    ) > 0 by {
        reporting::lemma_outcomes(tests, key);
        inputs::lemma_tests_of(before, key);
    }
    assert(are_tested(before, keys));
    assert forall|k: int| 0 <= k < keys.len() implies out[from + k] == told_summary(
        events,
        n,
        #[trigger] keys[k],
    ) by {
        let key = keys[k];
        assert(out.subrange(from, from + keys.len())[k] == out[from + k]);
        assert(out[from + k] == reporting::summary_event(events[n].timestamp, tests, key));
        inputs::lemma_tests_of(before, key);
        lemma_passes(before, key);
        assert(all_passed(before, n, key) == all_passed(events, n, key)) by {
            assert forall|j: int| 0 <= j < n implies #[trigger] before[j] == events[j] by {}
            if all_passed(before, n, key) {
                assert forall|j: int| 0 <= j < n implies !(inputs::test_of(
                    #[trigger] events[j],
                ) matches Some(o) && o.key == key && !o.success) by {
                    assert(before[j] == events[j]);
                }
            }
        }
    }
}

/// The last four events that the end of a command sends: the end of the build with its
/// exit code, the end of the stream, and the ends of the invocation and of the build. They
/// tell whether the command succeeded.
pub proof fn law_end_is_told(pid: int, events: Seq<BuckEvent>, n: int, command: CommandEnd)
    requires
        ends_at(events, n, command),
    ensures
        ({
            let out = inputs::added(pid, events, n);
            let time = events[n].timestamp;
            let m = out.len() - 4;
            let status = if command.is_success {
                BuildStatus::CommandSucceeded
            } else {
                BuildStatus::CommandFailed
            };
            &&& m >= 1
            &&& out[m] == TransportView::Stream(
                TimedEventView {
                    event_time: Some(time),
                    event: ServiceEventView::BazelEvent {
                        type_url: "type.googleapis.com/build_event_stream.BuildEvent"@,
                        event: BuildEventView {
                            id: BuildEventIdView::BuildFinished,
                            children: Seq::empty(),
                            last_message: true,
                            payload: if command.is_success {
                                PayloadView::Finished {
                                    exit_code_name: "SUCCESS"@,
                                    exit_code: 0,
                                    finish_time: time,
                                    failure_detail: None,
                                }
                            } else {
                                PayloadView::Finished {
                                    exit_code_name: "FAILURE"@,
                                    exit_code: 1,
                                    finish_time: time,
                                    failure_detail: Some("Build failed"@),
                                }
                            },
                        },
                    },
                },
            )
            &&& out[m + 1] == TransportView::Stream(
                TimedEventView {
                    event_time: Some(time),
                    event: ServiceEventView::ComponentStreamFinished(FinishType::Finished),
                },
            )
            &&& out[m + 2] == TransportView::Lifecycle(
                TimedEventView {
                    event_time: Some(time),
                    event: ServiceEventView::InvocationAttemptFinished(status),
                },
            )
            &&& out[m + 3] == TransportView::Lifecycle(
                TimedEventView {
                    event_time: Some(time),
                    event: ServiceEventView::BuildFinished(status),
                },
            )
        }),
{
    lemma_end(pid, events, n, command);
    let out = inputs::added(pid, events, n);
    let m = out.len() - 4;
    let last = out.subrange(m + 1, out.len() as int);
    assert(last[0] == out[m + 1] && last[1] == out[m + 2] && last[2] == out[m + 3]);
}

// Whole reports

/// What is sent for a build or test whose events stop coming before its end.
pub open spec fn interrupted() -> Seq<TransportView> {
    seq![
        TransportView::Stream(
            TimedEventView {
                event_time: None,
                event: ServiceEventView::BazelEvent {
                    type_url: "type.googleapis.com/build_event_stream.BuildEvent"@,
                    event: BuildEventView {
                        id: BuildEventIdView::BuildFinished,
                        children: Seq::empty(),
                        last_message: true,
                        payload: PayloadView::Aborted {
                            reason: AbortReason::UserInterrupted,
                            description: "Build interrupted"@,
                        },
                    },
                },
            },
        ),
        TransportView::Stream(
            TimedEventView {
                event_time: None,
                event: ServiceEventView::ComponentStreamFinished(FinishType::Finished),
            },
        ),
        TransportView::Lifecycle(
            TimedEventView {
                event_time: None,
                event: ServiceEventView::InvocationAttemptFinished(BuildStatus::CommandFailed),
            },
        ),
        TransportView::Lifecycle(
            TimedEventView {
                event_time: None,
                event: ServiceEventView::BuildFinished(BuildStatus::CommandFailed),
            },
        ),
    ]
}

/// What the first `n` events add, one after another.
pub open spec fn all_added(pid: int, events: Seq<BuckEvent>, n: int) -> Seq<TransportView>
    decreases n,
{
    if n <= 0 {
        Seq::empty()
    } else {
        all_added(pid, events, n - 1) + inputs::added(pid, events, n - 1)
    }
}

/// What events add is what has been sent.
proof fn lemma_all_added(pid: int, events: Seq<BuckEvent>, n: int)
    requires
        0 <= n <= events.len(),
    ensures
        all_added(pid, events, n) == reporting::sent(
            reporting::new_report(pid),
            inputs::first(events, n),
        ),
    decreases n,
{
    if n > 0 {
        lemma_all_added(pid, events, n - 1);
        inputs::lemma_added(pid, events, n - 1);
    } else {
        assert(reporting::sent(reporting::new_report(pid), inputs::first(events, 0)) =~= Seq::<
            TransportView,
        >::empty());
    }
}

/// A report is what each event adds to it, in order. Where a build or test started and did
/// not end, it closes as interrupted; otherwise nothing more is sent.
pub proof fn law_report_is_what_events_add(pid: int, events: Seq<BuckEvent>)
    ensures
        ({
            let n = events.len() as int;
            reporting::converted(pid, events) == all_added(pid, events, n) + if inputs::is_running(
                events,
                n,
            ) && inputs::has_start(events) {
                interrupted()
            } else {
                Seq::empty()
            }
        }),
{
    let n = events.len() as int;
    let report = reporting::report_after(reporting::new_report(pid), events);
    lemma_all_added(pid, events, n);
    assert(inputs::first(events, n) =~= events);
    inputs::lemma_finished(pid, events);
    if inputs::is_running(events, n) {
        inputs::lemma_report(pid, events);
        if inputs::has_start(events) {
            assert(reporting::interruption(report) =~= interrupted());
        }
    }
}

/// What an expansion of a pattern announces, where one is sent.
pub open spec fn expansion(e: TransportView) -> Option<(Seq<char>, Seq<BuildEventIdView>)> {
    match e {
        TransportView::Stream(timed) => match timed.event {
            ServiceEventView::BazelEvent { event, .. } => match event.id {
                BuildEventIdView::Pattern { pattern } => Some((pattern, event.children)),
                _ => None,
            },
            _ => None,
        },
        _ => None,
    }
}

/// Whether what is sent is no expansion, or announces only the target that its pattern is
/// the label of.
pub open spec fn expands_to_itself(e: TransportView) -> bool {
    expansion(e) matches Some((pattern, children)) ==> children == seq![
        BuildEventIdView::TargetConfigured { label: pattern },
    ]
}

/// Without target patterns none are kept.
proof fn lemma_no_patterns(events: Seq<BuckEvent>)
    requires
        forall|i: int|
            0 <= i < events.len() ==> (inputs::patterns_of(#[trigger] events[i]) matches Some(
                patterns,
            ) ==> patterns.len() == 0),
    ensures
        inputs::last_patterns(events).len() == 0,
    decreases events.len(),
{
    if events.len() > 0 {
        let rest = events.drop_last();
        assert forall|i: int| 0 <= i < rest.len() implies (inputs::patterns_of(
            #[trigger] rest[i],
        ) matches Some(patterns) ==> patterns.len() == 0) by {
            assert(rest[i] == events[i]);
        }
        lemma_no_patterns(rest);
        assert(events[events.len() - 1] == events.last());
    }
}

/// What an event that is no end sends is no expansion.
proof fn lemma_step_expands_nothing(report: Report, e: BuckEvent, k: int)
    requires
        !report.finished,
        !inputs::is_end(e),
        0 <= k < reporting::step(report, e).1.len(),
    ensures
        expansion(reporting::step(report, e).1[k]) is None,
{
    match e.data {
        EventData::SpanStart(Some(SpanStart::Command(_))) => {
            assert(k == 0 || k == 1 || k == 2 || k == 3);
        },
        EventData::SpanStart(Some(SpanStart::Analysis(_))) => {
            assert(k == 0 || k == 1);
        },
        EventData::SpanEnd(Some(SpanEnd::ActionExecution(_))) => {
            assert(k == 0);
        },
        _ => {
            assert(k == 0);
        },
    }
}

/// What the end of a command without target patterns expands.
proof fn lemma_end_expands_labels(
    pid: int,
    events: Seq<BuckEvent>,
    n: int,
    command: CommandEnd,
    k: int,
)
    requires
        ends_at(events, n, command),
        inputs::last_patterns(inputs::first(events, n)).len() == 0,
        0 <= k < inputs::added(pid, events, n).len(),
    ensures
        expands_to_itself(inputs::added(pid, events, n)[k]),
{
    let before = inputs::first(events, n);
    let out = inputs::added(pid, events, n);
    lemma_end(pid, events, n, command);
    let p = expanded(before).len() as int;
    let t = inputs::analyses(before).len() as int;
    let m = out.len() - 4;
    if k == 0 {
    } else if k < 1 + p {
        law_labels_are_expanded_to_their_targets(pid, events, n, command, k - 1);
    } else if k < 1 + p + t {
        assert(out.subrange(1 + p, 1 + p + t)[k - 1 - p] == out[k]);
    } else if k < m {
        assert(out.subrange(1 + p + t, m)[k - 1 - p - t] == out[k]);
    } else if m < k {
        assert(out.subrange(m + 1, out.len() as int)[k - m - 1] == out[k]);
        assert(k == m + 1 || k == m + 2 || k == m + 3);
    }
}

/// What one event of a command without target patterns adds.
proof fn lemma_added_expansions(pid: int, events: Seq<BuckEvent>, n: int)
    requires
        0 <= n < events.len(),
        forall|i: int|
            0 <= i < events.len() ==> (inputs::patterns_of(#[trigger] events[i]) matches Some(
                patterns,
            ) ==> patterns.len() == 0),
    ensures
        forall|k: int|
            0 <= k < inputs::added(pid, events, n).len() ==> expands_to_itself(
                #[trigger] inputs::added(pid, events, n)[k],
            ),
{
    let before = inputs::first(events, n);
    let report = reporting::report_after(reporting::new_report(pid), before);
    let out = inputs::added(pid, events, n);
    assert forall|i: int| 0 <= i < before.len() implies (inputs::patterns_of(
        #[trigger] before[i],
    ) matches Some(patterns) ==> patterns.len() == 0) by {
        assert(before[i] == events[i]);
    }
    lemma_no_patterns(before);
    assert forall|k: int| 0 <= k < out.len() implies expands_to_itself(#[trigger] out[k]) by {
        inputs::lemma_added(pid, events, n);
        lemma_goes_on(pid, events, n);
        match events[n].data {
            EventData::SpanEnd(Some(SpanEnd::Command(command))) if inputs::is_end(events[n]) => {
                lemma_end_expands_labels(pid, events, n, command, k);
            },
            _ => {
                lemma_step_expands_nothing(report, events[n], k);
            },
        }
    }
}

/// Where a command was given no target patterns, every expansion in its report announces
/// exactly one event, the target whose label is the pattern itself.
pub proof fn law_patterns_stand_for_one_target(pid: int, events: Seq<BuckEvent>, k: int)
    requires
        forall|i: int|
            0 <= i < events.len() ==> (inputs::patterns_of(#[trigger] events[i]) matches Some(
                patterns,
            ) ==> patterns.len() == 0),
        0 <= k < reporting::converted(pid, events).len(),
        expansion(reporting::converted(pid, events)[k]) is Some,
    ensures
        expansion(reporting::converted(pid, events)[k]) matches Some((pattern, children))
            && children == seq![BuildEventIdView::TargetConfigured { label: pattern }],
{
    law_report_is_what_events_add(pid, events);
    lemma_all_expansions(pid, events, events.len() as int);
    let all = all_added(pid, events, events.len() as int);
    if k < all.len() {
        assert(expands_to_itself(all[k]));
    }
}

/// What the events of a command without target patterns add.
proof fn lemma_all_expansions(pid: int, events: Seq<BuckEvent>, n: int)
    requires
        0 <= n <= events.len(),
        forall|i: int|
            0 <= i < events.len() ==> (inputs::patterns_of(#[trigger] events[i]) matches Some(
                patterns,
            ) ==> patterns.len() == 0),
    ensures
        forall|k: int|
            0 <= k < all_added(pid, events, n).len() ==> expands_to_itself(
                #[trigger] all_added(pid, events, n)[k],
            ),
    decreases n,
{
    if n > 0 {
        lemma_all_expansions(pid, events, n - 1);
        lemma_added_expansions(pid, events, n - 1);
        let before = all_added(pid, events, n - 1);
        let all = all_added(pid, events, n);
        assert forall|k: int| 0 <= k < all.len() implies expands_to_itself(#[trigger] all[k]) by {
            if k < before.len() {
                assert(all[k] == before[k]);
            } else {
                assert(all[k] == inputs::added(pid, events, n - 1)[k - before.len()]);
            }
        }
    }
}

/// Whether a point in time is `wall` after `start`, told with less than a second of
/// nanoseconds, which are negative only where those that are added up are.
pub open spec fn is_after(start: Timestamp, wall: TimeSpan, end: Timestamp) -> bool {
    &&& end.seconds * 1_000_000_000 + end.nanos == (start.seconds + wall.seconds) * 1_000_000_000
        + start.nanos + wall.nanos
    &&& -1_000_000_000 < end.nanos < 1_000_000_000
    &&& end.nanos > 0 ==> start.nanos + wall.nanos > 0
    &&& end.nanos < 0 ==> start.nanos + wall.nanos < 0
}

/// Whether the numbers that the `n`-th event brings into a report fit their fields: the
/// number of a progress event and that of a test result are told in 32 bits, and the end
/// of an action in 64 bits of seconds.
pub open spec fn numbers_fit(events: Seq<BuckEvent>, n: int) -> bool {
    let before = inputs::first(events, n);
    match events[n].data {
        EventData::SpanEnd(Some(SpanEnd::ActionExecution(action))) => {
            action.commands@.len() > 0 ==> match action.commands@[action.commands@.len() - 1] {
                Some(details) => match details.metadata {
                    Some(metadata) => match (metadata.start_time, metadata.wall_time) {
                        (Some(start), Some(wall)) => {
                            &&& i64::MIN <= start.seconds + wall.seconds <= i64::MAX
                            &&& exists|end: Timestamp| is_after(start, wall, end)
                        },
                        _ => true,
                    },
                    None => true,
                },
                None => true,
            }
        },
        _ => {
            &&& inputs::is_message(events[n]) ==> inputs::messages(before) < i32::MAX
            &&& inputs::test_of(events[n]) matches Some(o) ==> inputs::test_count(before, o.key)
                < i32::MAX
        },
    }
}

/// The end of a command can be told exactly if there is a point in time for it.
proof fn lemma_end_fits(start: Timestamp, wall: TimeSpan)
    ensures
        (i64::MIN <= reporting::end_parts(start, wall).0 <= i64::MAX) == exists|end: Timestamp|
            is_after(start, wall, end),
{
    let (seconds, nanos) = reporting::end_parts(start, wall);
    if i64::MIN <= seconds <= i64::MAX {
        let end = Timestamp { seconds: seconds as i64, nanos: nanos as i32 };
        assert(is_after(start, wall, end));
    }
    if exists|end: Timestamp| is_after(start, wall, end) {
        let end = choose|end: Timestamp| is_after(start, wall, end);
        assert(end.seconds == seconds);
    }
}

/// A list of events is taken exactly if the numbers fit that its events bring into the
/// report, up to the end of the build or test.
pub proof fn law_events_are_taken_where_numbers_fit(pid: int, events: Seq<BuckEvent>)
    ensures
        reporting::all_fit(reporting::new_report(pid), events) <==> forall|n: int|
            0 <= n < events.len() && inputs::is_running(events, n) ==> #[trigger] numbers_fit(
                events,
                n,
            ),
    decreases events.len(),
{
    let report = reporting::new_report(pid);
    if events.len() > 0 {
        let rest = events.drop_last();
        let m = rest.len() as int;
        let after = reporting::report_after(report, rest);
        law_events_are_taken_where_numbers_fit(pid, rest);
        assert(events[m] == events.last());
        assert forall|n: int| 0 <= n < m implies numbers_fit(rest, n) == #[trigger] numbers_fit(
            events,
            n,
        ) && inputs::is_running(rest, n) == inputs::is_running(events, n) by {
            assert(inputs::first(rest, n) =~= inputs::first(events, n));
            assert(rest[n] == events[n]);
            lemma_same_course(rest, events, n);
        }
        assert(inputs::first(events, m) =~= rest);
        lemma_same_course(rest, events, m);
        inputs::lemma_finished(pid, rest);
        if inputs::is_running(events, m) {
            inputs::lemma_report(pid, rest);
            lemma_fits(pid, events);
        }
        assert(reporting::fits(after, events.last()) == (inputs::is_running(events, m)
            ==> numbers_fit(events, m)));
        if reporting::all_fit(report, events) {
            assert forall|n: int| 0 <= n < events.len() && inputs::is_running(
                events,
                n,
            ) implies #[trigger] numbers_fit(events, n) by {
                if n < m {
                    assert(numbers_fit(rest, n));
                }
            }
        }
        if forall|n: int|
            0 <= n < events.len() && inputs::is_running(events, n) ==> #[trigger] numbers_fit(
                events,
                n,
            ) {
            assert forall|n: int| 0 <= n < m && inputs::is_running(rest, n) implies
                #[trigger] numbers_fit(rest, n) by {
                assert(numbers_fit(events, n));
            }
            assert(inputs::is_running(events, m) ==> numbers_fit(events, m));
        }
    }
}

/// Whether a command goes on is decided by the events so far.
proof fn lemma_same_course(rest: Seq<BuckEvent>, events: Seq<BuckEvent>, n: int)
    requires
        events.len() > 0,
        rest == events.drop_last(),
        0 <= n <= rest.len(),
    ensures
        inputs::is_running(rest, n) == inputs::is_running(events, n),
{
    assert forall|i: int| 0 <= i < rest.len() implies #[trigger] rest[i] == events[i] by {}
    if inputs::is_running(rest, n) {
        assert forall|i: int| 0 <= i < n && i < events.len() implies !inputs::is_end(
            #[trigger] events[i],
        ) by {
            assert(rest[i] == events[i]);
        }
    }
}

/// Whether the numbers of the last event fit.
proof fn lemma_fits(pid: int, events: Seq<BuckEvent>)
    requires
        events.len() > 0,
        inputs::is_running(events.drop_last(), events.len() - 1),
    ensures
        reporting::fits(
            reporting::report_after(reporting::new_report(pid), events.drop_last()),
            events.last(),
        ) == numbers_fit(events, events.len() - 1),
{
    let rest = events.drop_last();
    let n = events.len() - 1;
    assert(inputs::first(events, n) =~= rest);
    assert(events[n] == events.last());
    inputs::lemma_report(pid, rest);
    match events.last().data {
        EventData::SpanEnd(Some(SpanEnd::ActionExecution(action))) => {
            if let Some((start, wall)) = reporting::timing(reporting::last_details(action)) {
                lemma_end_fits(start, wall);
            }
        },
        EventData::Instant(Some(Instant::TestResult(result))) => {
            if let Some(target) = result.target_label {
                inputs::lemma_target(target);
                if let Some(key) = inputs::target_of(target) {
                    inputs::lemma_tests_of(rest, key);
                }
            }
        },
        _ => {},
    }
}

/// Whether what is sent carries a time and, over the stream, the type of a Build Event
/// Protocol event, and is the last message exactly if it ends the build.
spec fn is_stamped(e: TransportView, time: Timestamp) -> bool {
    match e {
        TransportView::Lifecycle(timed) => {
            &&& timed.event_time == Some(time)
            &&& !(timed.event is BazelEvent)
        },
        TransportView::Stream(timed) => {
            &&& timed.event_time == Some(time)
            &&& timed.event matches ServiceEventView::BazelEvent { type_url, event } ==> {
                &&& type_url == "type.googleapis.com/build_event_stream.BuildEvent"@
                &&& event.last_message == (event.id == BuildEventIdView::BuildFinished)
            }
        },
    }
}

/// What an event that is no end sends.
proof fn lemma_step_is_stamped(report: Report, e: BuckEvent, k: int)
    requires
        !report.finished,
        !inputs::is_end(e),
        0 <= k < reporting::step(report, e).1.len(),
    ensures
        is_stamped(reporting::step(report, e).1[k], e.timestamp),
{
    let out = reporting::step(report, e).1;
    match e.data {
        EventData::SpanStart(Some(SpanStart::Command(_))) => {
            assert(k == 0 || k == 1 || k == 2 || k == 3);
        },
        EventData::SpanStart(Some(SpanStart::Analysis(_))) => {
            assert(k == 0 || k == 1);
        },
        EventData::SpanEnd(Some(SpanEnd::ActionExecution(_))) => {
            assert(k == 0);
        },
        _ => {
            assert(k == 0);
        },
    }
}

/// What the end of a command sends.
proof fn lemma_end_is_stamped(
    pid: int,
    events: Seq<BuckEvent>,
    n: int,
    command: CommandEnd,
    k: int,
)
    requires
        ends_at(events, n, command),
        0 <= k < inputs::added(pid, events, n).len(),
    ensures
        is_stamped(inputs::added(pid, events, n)[k], events[n].timestamp),
{
    let before = inputs::first(events, n);
    let out = inputs::added(pid, events, n);
    lemma_end(pid, events, n, command);
    let p = expanded(before).len() as int;
    let t = inputs::analyses(before).len() as int;
    let m = out.len() - 4;
    if k == 0 {
    } else if k < 1 + p {
        assert(out.subrange(1, 1 + p)[k - 1] == out[k]);
    } else if k < 1 + p + t {
        assert(out.subrange(1 + p, 1 + p + t)[k - 1 - p] == out[k]);
    } else if k < m {
        assert(out.subrange(1 + p + t, m)[k - 1 - p - t] == out[k]);
    } else if m < k {
        assert(out.subrange(m + 1, out.len() as int)[k - m - 1] == out[k]);
        assert(k == m + 1 || k == m + 2 || k == m + 3);
    }
}

/// What an event of a report carries, whatever it tells: the time of the event of the
/// command that it was sent for and, over the stream, the type of a Build Event Protocol
/// event. The end of the build is its last message, and no other is.
pub proof fn law_events_carry_their_time(pid: int, events: Seq<BuckEvent>, n: int, k: int)
    requires
        0 <= n < events.len(),
        0 <= k < inputs::added(pid, events, n).len(),
    ensures
        match inputs::added(pid, events, n)[k] {
            TransportView::Lifecycle(timed) => {
                &&& timed.event_time == Some(events[n].timestamp)
                &&& !(timed.event is BazelEvent)
            },
            TransportView::Stream(timed) => {
                &&& timed.event_time == Some(events[n].timestamp)
                &&& timed.event matches ServiceEventView::BazelEvent { type_url, event } ==> {
                    &&& type_url == "type.googleapis.com/build_event_stream.BuildEvent"@
                    &&& event.last_message == (event.id == BuildEventIdView::BuildFinished)
                }
            },
        },
{
    let before = inputs::first(events, n);
    inputs::lemma_added(pid, events, n);
    lemma_goes_on(pid, events, n);
    match events[n].data {
        EventData::SpanEnd(Some(SpanEnd::Command(command))) if inputs::is_end(events[n]) => {
            lemma_end_is_stamped(pid, events, n, command, k);
        },
        _ => {
            lemma_step_is_stamped(
                reporting::report_after(reporting::new_report(pid), before),
                events[n],
                k,
            );
        },
    }
}

/// Where an event adds something, no build or test has ended before it.
proof fn lemma_goes_on(pid: int, events: Seq<BuckEvent>, n: int)
    requires
        0 <= n < events.len(),
        inputs::added(pid, events, n).len() > 0,
    ensures
        inputs::is_running(events, n),
        !reporting::report_after(
            reporting::new_report(pid),
            inputs::first(events, n),
        ).finished,
{
    let before = inputs::first(events, n);
    inputs::lemma_added(pid, events, n);
    inputs::lemma_finished(pid, before);
    assert forall|i: int| 0 <= i < n && i < events.len() implies !inputs::is_end(
        #[trigger] events[i],
    ) by {
        assert(before[i] == events[i]);
    }
}

// Outcomes of targets

/// What an event tells of the completion of a target: the events it announces and whether
/// the target succeeded.
pub open spec fn completion(e: TransportView, label: Seq<char>, configuration: Seq<char>) -> Option<
    (Seq<BuildEventIdView>, bool),
> {
    match e {
        TransportView::Stream(timed) => match timed.event {
            ServiceEventView::BazelEvent { event, .. } => match event.payload {
                PayloadView::Completed { success } => {
                    if event.id == (BuildEventIdView::TargetCompleted { label, configuration }) {
                        Some((event.children, success))
                    } else {
                        None
                    }
                },
                _ => None,
            },
            _ => None,
        },
        _ => None,
    }
}

/// A target that was analyzed is among the analyses.
proof fn lemma_analyzed(events: Seq<BuckEvent>, m: int, key: TargetKey)
    requires
        0 <= m < events.len(),
        inputs::analysis_of(events[m]) == Some(key),
    ensures
        inputs::analyses(events).contains(key),
    decreases events.len(),
{
    let rest = events.drop_last();
    let all = inputs::analyses(events);
    if m < rest.len() {
        assert(rest[m] == events[m]);
        lemma_analyzed(rest, m, key);
        let before = inputs::analyses(rest);
        let i = choose|i: int| 0 <= i < before.len() && before[i] == key;
        assert(all[i] == key);
    } else {
        assert(all[all.len() - 1] == key);
    }
}

/// The first place of a value.
proof fn lemma_first_place(s: Seq<TargetKey>, key: TargetKey) -> (i: int)
    requires
        s.contains(key),
    ensures
        0 <= i < s.len(),
        s[i] == key,
        forall|j: int| 0 <= j < i ==> #[trigger] s[j] != key,
    decreases s.len(),
{
    let rest = s.drop_last();
    if rest.contains(key) {
        let i = lemma_first_place(rest, key);
        assert forall|j: int| 0 <= j < i implies #[trigger] s[j] != key by {
            assert(rest[j] != key);
        }
        i
    } else {
        let k = choose|k: int| 0 <= k < s.len() && s[k] == key;
        assert(k == s.len() - 1) by {
            if k < rest.len() {
                assert(rest[k] == key);
            }
        }
        assert forall|j: int| 0 <= j < k implies #[trigger] s[j] != key by {
            if s[j] == key {
                assert(rest[j] == key);
            }
        }
        k
    }
}

/// One event among others counts.
proof fn lemma_counted(events: Seq<BuckEvent>, j: int, key: TargetKey)
    requires
        0 <= j < events.len(),
        inputs::action_of(events[j]) matches Some(o) && o.key == key,
    ensures
        inputs::action_count(events, key) > 0,
    decreases events.len(),
{
    let rest = events.drop_last();
    if j < rest.len() {
        assert(rest[j] == events[j]);
        lemma_counted(rest, j, key);
    } else {
        lemma_count_is_natural(rest, |e: BuckEvent| inputs::action_of(e) matches Some(o) && o.key
            == key);
    }
}

/// There are no fewer than zero of anything.
proof fn lemma_count_is_natural(events: Seq<BuckEvent>, is: spec_fn(BuckEvent) -> bool)
    ensures
        inputs::count(events, is) >= 0,
    decreases events.len(),
{
    if events.len() > 0 {
        lemma_count_is_natural(events.drop_last(), is);
    }
}

/// Every action that was executed for a target before the end is announced by a completion
/// of that target. If the action failed, that completion tells that the target failed.
pub proof fn law_failed_actions_fail_their_targets(
    pid: int,
    events: Seq<BuckEvent>,
    n: int,
    command: CommandEnd,
    m: int,
    analysis: AnalysisStart,
    j: int,
    action: ActionExecutionEnd,
    label: TargetLabel,
    configuration: String,
)
    requires
        ends_at(events, n, command),
        0 <= m < n,
        events[m].data == EventData::SpanStart(Some(SpanStart::Analysis(analysis))),
        0 <= j < n,
        events[j].data == EventData::SpanEnd(Some(SpanEnd::ActionExecution(action))),
        ({
            let target = ConfiguredTargetLabel {
                label: Some(label),
                configuration: Some(configuration),
            };
            &&& analysis.target == Some(AnalysisTarget::Standard(target))
            &&& action.owner == Some(ActionOwner::Target(target)) || action.owner == Some(
                ActionOwner::TestTarget(target),
            ) || action.owner == Some(ActionOwner::LocalResourceSetup(target))
        }),
    ensures
        ({
            let out = inputs::added(pid, events, n);
            let text = reporting::bazel_label_text(label.package@, label.name@);
            exists|k: int|
                0 <= k < out.len() && (completion(#[trigger] out[k], text, configuration@) matches
                    Some((children, success)) && {
                    &&& children.contains(
                        BuildEventIdView::ActionCompleted {
                            configuration: Some(configuration@),
                            label: text,
                            primary_output: "UNKNOWN"@,
                        },
                    )
                    &&& action.failed ==> !success
                })
        }),
{
    let before = inputs::first(events, n);
    let out = inputs::added(pid, events, n);
    let text = reporting::bazel_label_text(label.package@, label.name@);
    let key = TargetKey { label: text, config: configuration@ };
    let targets = inputs::analyses(before);
    inputs::lemma_label(label);
    assert(before[m] == events[m] && before[j] == events[j]);
    lemma_analyzed(before, m, key);
    let i = lemma_first_place(targets, key);
    lemma_end(pid, events, n, command);
    law_targets_are_completed_with_their_actions(pid, events, n, command, i);
    lemma_counted(before, j, key);
    let k = 1 + expanded(before).len() + i;
    let id = BuildEventIdView::ActionCompleted {
        configuration: Some(configuration@),
        label: text,
        primary_output: "UNKNOWN"@,
    };
    if let Some((children, success)) = completion(out[k], text, configuration@) {
        assert(children[0] == id);
        if action.failed {
            assert(inputs::action_of(events[j]) matches Some(o) && o.key == key && !o.success);
            assert(!no_action_failed(events, n, key));
        }
    }
}

} // verus!
