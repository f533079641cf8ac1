//! What the events of a command say, read off the events themselves, and how a report
//! grows with them.
use vstd::prelude::*;

use crate::bep;
use crate::bep::TransportView;
use crate::buck_event::{
    ActionExecutionEnd, ActionOwner, AnalysisStart, AnalysisTarget, BuckEvent, CommandKind,
    ConfiguredTargetLabel, EventData, Instant, SpanEnd, SpanStart, TargetLabel, TestResult,
};
use crate::reporting;
use crate::reporting::{Outcome, Report, TargetKey};

verus! {

// Single events

/// The Bazel label of a target: `package:name`, after an `@` unless the package starts
/// with `//` or `@`.
pub open spec fn label_of(target: TargetLabel) -> Seq<char> {
    let package = target.package@;
    let plain = package + seq![':'] + target.name@;
    if package.len() >= 1 && package[0] == '@' {
        plain
    } else if package.len() >= 2 && package[0] == '/' && package[1] == '/' {
        plain
    } else {
        seq!['@'] + plain
    }
}

/// The configured target of a label, where label and configuration are both there.
pub open spec fn target_of(target: ConfiguredTargetLabel) -> Option<TargetKey> {
    match (target.label, target.configuration) {
        (Some(label), Some(config)) => Some(TargetKey { label: label_of(label), config: config@ }),
        _ => None,
    }
}

/// Whether a command is a build or a test.
pub open spec fn is_build_or_test(kind: Option<CommandKind>) -> bool {
    match kind {
        Some(CommandKind::Build) => true,
        Some(CommandKind::Test) => true,
        _ => false,
    }
}

/// Whether an event starts a build or a test.
pub open spec fn is_start(e: BuckEvent) -> bool {
    match e.data {
        EventData::SpanStart(Some(SpanStart::Command(command))) => is_build_or_test(command.kind),
        _ => false,
    }
}

/// Whether an event ends a build or a test.
pub open spec fn is_end(e: BuckEvent) -> bool {
    match e.data {
        EventData::SpanEnd(Some(SpanEnd::Command(command))) => is_build_or_test(command.kind),
        _ => false,
    }
}

/// The configured target whose analysis an event starts.
pub open spec fn analysis_of(e: BuckEvent) -> Option<TargetKey> {
    match e.data {
        EventData::SpanStart(Some(SpanStart::Analysis(analysis))) => match analysis.target {
            Some(AnalysisTarget::Standard(target)) => target_of(target),
            _ => None,
        },
        _ => None,
    }
}

/// The configured target that an action was executed for.
pub open spec fn owner_of(action: ActionExecutionEnd) -> Option<TargetKey> {
    match action.owner {
        Some(ActionOwner::Target(target)) => target_of(target),
        Some(ActionOwner::TestTarget(target)) => target_of(target),
        Some(ActionOwner::LocalResourceSetup(target)) => target_of(target),
        _ => None,
    }
}

/// The configured target whose action an event ends, and whether that succeeded.
pub open spec fn action_of(e: BuckEvent) -> Option<Outcome> {
    match e.data {
        EventData::SpanEnd(Some(SpanEnd::ActionExecution(action))) => match owner_of(action) {
            Some(key) => Some(Outcome { key, success: !action.failed }),
            None => None,
        },
        _ => None,
    }
}

/// The configured target whose test an event tells the result of, and whether that
/// passed, which the status zero says.
pub open spec fn test_of(e: BuckEvent) -> Option<Outcome> {
    match e.data {
        EventData::Instant(Some(Instant::TestResult(result))) => match result.target_label {
            Some(target) => match target_of(target) {
                Some(key) => Some(Outcome { key, success: result.status == 0 }),
                None => None,
            },
            None => None,
        },
        _ => None,
    }
}

/// Whether an event is a message or an output of the command.
pub open spec fn is_message(e: BuckEvent) -> bool {
    match e.data {
        EventData::Instant(Some(Instant::ConsoleMessage(_))) => true,
        EventData::Instant(Some(Instant::ConsoleWarning(_))) => true,
        EventData::Instant(Some(Instant::StreamingOutput(_))) => true,
        _ => false,
    }
}

/// The target patterns that an event tells of.
pub open spec fn patterns_of(e: BuckEvent) -> Option<Seq<Seq<char>>> {
    match e.data {
        EventData::Instant(Some(Instant::TargetPatterns(patterns))) => Some(
            Seq::new(patterns@.len(), |i: int| patterns@[i]@),
        ),
        _ => None,
    }
}

// Events one after another

/// What `read` finds in events, in order.
pub open spec fn read_all<A>(
    events: Seq<BuckEvent>,
    read: spec_fn(BuckEvent) -> Option<A>,
) -> Seq<A>
    decreases events.len(),
{
    if events.len() == 0 {
        Seq::empty()
    } else {
        match read(events.last()) {
            Some(a) => read_all(events.drop_last(), read).push(a),
            None => read_all(events.drop_last(), read),
        }
    }
}

/// How many events `is` holds of.
pub open spec fn count(events: Seq<BuckEvent>, is: spec_fn(BuckEvent) -> bool) -> int
    decreases events.len(),
{
    if events.len() == 0 {
        0
    } else if is(events.last()) {
        count(events.drop_last(), is) + 1
    } else {
        count(events.drop_last(), is)
    }
}

/// The targets that are analyzed, in order.
pub open spec fn analyses(events: Seq<BuckEvent>) -> Seq<TargetKey> {
    read_all(events, |e: BuckEvent| analysis_of(e))
}

/// The outcomes of the actions of configured targets, in order.
pub open spec fn actions(events: Seq<BuckEvent>) -> Seq<Outcome> {
    read_all(events, |e: BuckEvent| action_of(e))
}

/// The outcomes of the tests of configured targets, in order.
pub open spec fn tests(events: Seq<BuckEvent>) -> Seq<Outcome> {
    read_all(events, |e: BuckEvent| test_of(e))
}

/// How many messages there are.
pub open spec fn messages(events: Seq<BuckEvent>) -> int {
    count(events, |e: BuckEvent| is_message(e))
}

/// How many actions of a target there are.
pub open spec fn action_count(events: Seq<BuckEvent>, key: TargetKey) -> int {
    count(events, |e: BuckEvent| action_of(e) matches Some(o) && o.key == key)
}

/// How many test results of a target there are.
pub open spec fn test_count(events: Seq<BuckEvent>, key: TargetKey) -> int {
    count(events, |e: BuckEvent| test_of(e) matches Some(o) && o.key == key)
}

/// The target patterns that were told of last.
pub open spec fn last_patterns(events: Seq<BuckEvent>) -> Seq<Seq<char>>
    decreases events.len(),
{
    if events.len() == 0 {
        Seq::empty()
    } else {
        match patterns_of(events.last()) {
            Some(patterns) => patterns,
            None => last_patterns(events.drop_last()),
        }
    }
}

/// Whether a build or a test is among events.
pub open spec fn has_start(events: Seq<BuckEvent>) -> bool {
    exists|i: int| 0 <= i < events.len() && is_start(#[trigger] events[i])
}

/// Whether no build or test has ended before the `n`-th event.
pub open spec fn is_running(events: Seq<BuckEvent>, n: int) -> bool {
    forall|i: int| 0 <= i < n && i < events.len() ==> !is_end(#[trigger] events[i])
}

/// The first `n` events.
pub open spec fn first(events: Seq<BuckEvent>, n: int) -> Seq<BuckEvent> {
    events.subrange(0, n)
}

// What single events say

/// The start of the analysis of a target tells of it exactly if both its label and its
/// configuration are there.
pub proof fn law_analyses_are_of_configured_targets(e: BuckEvent, analysis: AnalysisStart)
    requires
        e.data == EventData::SpanStart(Some(SpanStart::Analysis(analysis))),
    ensures
        match analysis.target {
            Some(
                AnalysisTarget::Standard(
                    ConfiguredTargetLabel { label: Some(label), configuration: Some(configuration) },
                ),
            ) => analysis_of(e) == Some(
                TargetKey {
                    label: reporting::bazel_label_text(label.package@, label.name@),
                    config: configuration@,
                },
            ),
            _ => analysis_of(e) is None,
        },
{
    if let Some(AnalysisTarget::Standard(target)) = analysis.target {
        if let Some(label) = target.label {
            lemma_label(label);
        }
    }
}

/// The end of an action tells of the target that the action was executed for, whether for
/// the target itself, for its tests or for setting up a local resource, and of success
/// exactly if the action did not fail. The action of an anonymous target or of a script is
/// that of no target.
pub proof fn law_actions_are_of_their_owners(e: BuckEvent, action: ActionExecutionEnd)
    requires
        e.data == EventData::SpanEnd(Some(SpanEnd::ActionExecution(action))),
    ensures
        ({
            let told = |target: ConfiguredTargetLabel|
                match (target.label, target.configuration) {
                    (Some(label), Some(configuration)) => Some(
                        Outcome {
                            key: TargetKey {
                                label: reporting::bazel_label_text(label.package@, label.name@),
                                config: configuration@,
                            },
                            success: !action.failed,
                        },
                    ),
                    _ => None,
                };
            match action.owner {
                Some(ActionOwner::Target(target)) => action_of(e) == told(target),
                Some(ActionOwner::TestTarget(target)) => action_of(e) == told(target),
                Some(ActionOwner::LocalResourceSetup(target)) => action_of(e) == told(target),
                Some(ActionOwner::AnonTarget(_)) => action_of(e) is None,
                Some(ActionOwner::Bxl) => action_of(e) is None,
                None => action_of(e) is None,
            }
        }),
{
    match action.owner {
        Some(ActionOwner::Target(target))
        | Some(ActionOwner::TestTarget(target))
        | Some(ActionOwner::LocalResourceSetup(target)) => {
            if let Some(label) = target.label {
                lemma_label(label);
            }
        },
        _ => {},
    }
}

/// A test result tells of its target exactly if both the label and the configuration are
/// there, and of a test that passed exactly if its status is zero.
pub proof fn law_tests_pass_with_status_zero(e: BuckEvent, result: TestResult)
    requires
        e.data == EventData::Instant(Some(Instant::TestResult(result))),
    ensures
        match result.target_label {
            Some(
                ConfiguredTargetLabel { label: Some(label), configuration: Some(configuration) },
            ) => test_of(e) == Some(
                Outcome {
                    key: TargetKey {
                        label: reporting::bazel_label_text(label.package@, label.name@),
                        config: configuration@,
                    },
                    success: result.status == 0,
                },
            ),
            _ => test_of(e) is None,
        },
{
    if let Some(target) = result.target_label {
        if let Some(label) = target.label {
            lemma_label(label);
        }
    }
}

/// Only builds and tests start and end a report.
pub proof fn law_builds_and_tests_are_reported(e: BuckEvent)
    ensures
        is_start(e) == (e.data matches EventData::SpanStart(Some(SpanStart::Command(command)))
            && (command.kind == Some(CommandKind::Build) || command.kind == Some(
            CommandKind::Test,
        ))),
        is_end(e) == (e.data matches EventData::SpanEnd(Some(SpanEnd::Command(command))) && (
        command.kind == Some(CommandKind::Build) || command.kind == Some(CommandKind::Test))),
{
}

/// One more event adds what it says to what the events before it say, and nothing else:
/// a message or an output counts as a message, an analysis adds its target, and target
/// patterns take the place of those before.
pub proof fn law_events_add_what_they_say(events: Seq<BuckEvent>, e: BuckEvent)
    ensures
        messages(Seq::empty()) == 0,
        messages(events.push(e)) == messages(events) + match e.data {
            EventData::Instant(Some(Instant::ConsoleMessage(_))) => 1int,
            EventData::Instant(Some(Instant::ConsoleWarning(_))) => 1,
            EventData::Instant(Some(Instant::StreamingOutput(_))) => 1,
            _ => 0,
        },
        analyses(Seq::empty()) == Seq::<TargetKey>::empty(),
        analyses(events.push(e)) == match analysis_of(e) {
            Some(key) => analyses(events).push(key),
            None => analyses(events),
        },
        last_patterns(Seq::empty()) == Seq::<Seq<char>>::empty(),
        match e.data {
            EventData::Instant(Some(Instant::TargetPatterns(patterns))) => {
                &&& last_patterns(events.push(e)).len() == patterns@.len()
                &&& forall|i: int|
                    0 <= i < patterns@.len() ==> #[trigger] last_patterns(events.push(e))[i]
                        == patterns@[i]@
            },
            _ => last_patterns(events.push(e)) == last_patterns(events),
        },
{
    assert(events.push(e).drop_last() =~= events);
}

/// The actions and the test results of a target are those of the events that tell of one.
pub proof fn law_outcomes_are_counted_by_target(
    events: Seq<BuckEvent>,
    e: BuckEvent,
    key: TargetKey,
)
    ensures
        action_count(Seq::empty(), key) == 0,
        action_count(events.push(e), key) == action_count(events, key) + if action_of(
            e,
        ) matches Some(o) && o.key == key {
            1int
        } else {
            0
        },
        test_count(Seq::empty(), key) == 0,
        test_count(events.push(e), key) == test_count(events, key) + if test_of(e) matches Some(o)
            && o.key == key {
            1int
        } else {
            0
        },
{
    assert(events.push(e).drop_last() =~= events);
}

/// A build or test goes on as long as none of the events so far is an end.
pub proof fn law_reports_go_on_until_the_end(events: Seq<BuckEvent>, e: BuckEvent)
    ensures
        is_running(events, 0),
        is_running(events.push(e), events.len() as int + 1) <==> is_running(events, events.len() as int)
            && !is_end(e),
        has_start(events.push(e)) <==> has_start(events) || is_start(e),
        !has_start(Seq::empty()),
{
    let all = events.push(e);
    assert(all[events.len() as int] == e);
    assert forall|i: int| 0 <= i < events.len() implies #[trigger] all[i] == events[i] by {}
    if is_running(all, events.len() as int + 1) {
        assert forall|i: int| 0 <= i < events.len() implies !is_end(#[trigger] events[i]) by {
            assert(!is_end(all[i]));
        }
        assert(!is_end(all[events.len() as int]));
    }
    if has_start(events) {
        let i = choose|i: int| 0 <= i < events.len() && is_start(#[trigger] events[i]);
        assert(is_start(all[i]));
    }
    if is_start(e) {
        assert(is_start(all[events.len() as int]));
    }
    if has_start(all) && !is_start(e) {
        let i = choose|i: int| 0 <= i < all.len() && is_start(#[trigger] all[i]);
        assert(is_start(events[i]));
    }
}

// Facts about readings

/// Both ways to tell the label of a target agree.
pub proof fn lemma_label(target: TargetLabel)
    ensures
        reporting::label_text(target) == label_of(target),
{
    let package = target.package@;
    assert(seq!['@'] + package + seq![':'] + target.name@ =~= seq!['@'] + (package + seq![':']
        + target.name@));
}

/// Both ways to tell a configured target agree.
pub proof fn lemma_target(target: ConfiguredTargetLabel)
    ensures
        reporting::target_key(target) == target_of(target),
{
    if let Some(label) = target.label {
        lemma_label(label);
    }
}

/// Both ways to tell the owner of an action agree.
pub proof fn lemma_owner(action: ActionExecutionEnd)
    ensures
        reporting::owner_key(action.owner) == owner_of(action),
{
    match action.owner {
        Some(ActionOwner::Target(target)) => lemma_target(target),
        Some(ActionOwner::TestTarget(target)) => lemma_target(target),
        Some(ActionOwner::LocalResourceSetup(target)) => lemma_target(target),
        _ => {},
    }
}

/// What one event adds to a report, as the event itself says it.
proof fn lemma_step(report: Report, e: BuckEvent)
    requires
        !report.finished,
    ensures
        ({
            let after = reporting::step(report, e).0;
            &&& after.server_pid == report.server_pid
            &&& after.targets == match analysis_of(e) {
                Some(key) => report.targets.push(key),
                None => report.targets,
            }
            &&& after.configurations == match analysis_of(e) {
                Some(key) => report.configurations.insert(key.config),
                None => report.configurations,
            }
            &&& after.actions == match action_of(e) {
                Some(o) => report.actions.push(o),
                None => report.actions,
            }
            &&& after.tests == match test_of(e) {
                Some(o) => report.tests.push(o),
                None => report.tests,
            }
            &&& after.patterns == match patterns_of(e) {
                Some(patterns) => patterns,
                None => report.patterns,
            }
            &&& after.progress_count == report.progress_count + if is_message(e) {
                1int
            } else {
                0
            }
            &&& after.started == (report.started || is_start(e))
            &&& after.finished == is_end(e)
        }),
{
    match e.data {
        EventData::SpanStart(Some(SpanStart::Analysis(analysis))) => {
            if let Some(AnalysisTarget::Standard(target)) = analysis.target {
                lemma_target(target);
            }
        },
        EventData::SpanEnd(Some(SpanEnd::ActionExecution(action))) => {
            lemma_owner(action);
        },
        EventData::Instant(Some(Instant::TestResult(result))) => {
            if let Some(target) = result.target_label {
                lemma_target(target);
            }
        },
        EventData::Instant(Some(Instant::TargetPatterns(patterns))) => {
            assert(bep::texts(patterns@) =~= Seq::new(patterns@.len(), |i: int| patterns@[i]@));
        },
        _ => {},
    }
}

/// The report of events of which none is an end, as the events themselves say it.
pub proof fn lemma_report(pid: int, events: Seq<BuckEvent>)
    requires
        is_running(events, events.len() as int),
    ensures
        ({
            let report = reporting::report_after(reporting::new_report(pid), events);
            &&& report.server_pid == pid
            &&& report.targets == analyses(events)
            &&& report.actions == actions(events)
            &&& report.tests == tests(events)
            &&& report.patterns == last_patterns(events)
            &&& report.progress_count == messages(events)
            &&& report.started == has_start(events)
            &&& !report.finished
            &&& forall|config: Seq<char>| #[trigger]
                report.configurations.contains(config) <==> exists|i: int|
                    0 <= i < events.len() && (analysis_of(#[trigger] events[i]) matches Some(key)
                        && key.config == config)
        }),
    decreases events.len(),
{
    if events.len() > 0 {
        let rest = events.drop_last();
        let e = events.last();
        assert forall|i: int| 0 <= i < rest.len() implies !is_end(#[trigger] rest[i]) by {
            assert(rest[i] == events[i]);
        }
        lemma_report(pid, rest);
        let before = reporting::report_after(reporting::new_report(pid), rest);
        let report = reporting::report_after(reporting::new_report(pid), events);
        lemma_step(before, e);
        assert(events[events.len() - 1] == e);
        assert forall|i: int| 0 <= i < rest.len() implies #[trigger] rest[i] == events[i] by {}
        if has_start(rest) {
            let i = choose|i: int| 0 <= i < rest.len() && is_start(#[trigger] rest[i]);
            assert(is_start(events[i]));
        }
        if has_start(events) && !is_start(e) {
            let i = choose|i: int| 0 <= i < events.len() && is_start(#[trigger] events[i]);
            assert(is_start(rest[i]));
        }
        assert forall|config: Seq<char>| #[trigger]
            report.configurations.contains(config) <==> exists|i: int|
                0 <= i < events.len() && (analysis_of(#[trigger] events[i]) matches Some(key)
                    && key.config == config) by {
            if before.configurations.contains(config) {
                let i = choose|i: int|
                    0 <= i < rest.len() && (analysis_of(#[trigger] rest[i]) matches Some(key)
                        && key.config == config);
                assert(analysis_of(events[i]) matches Some(key) && key.config == config);
            }
            if exists|i: int|
                0 <= i < events.len() && (analysis_of(#[trigger] events[i]) matches Some(key)
                    && key.config == config) {
                let i = choose|i: int|
                    0 <= i < events.len() && (analysis_of(#[trigger] events[i]) matches Some(key)
                        && key.config == config);
                if i < rest.len() {
                    assert(analysis_of(rest[i]) matches Some(key) && key.config == config);
                }
            }
        }
    }
}

// The growth of a report

/// What the `n`-th event adds to what is sent.
pub open spec fn added(pid: int, events: Seq<BuckEvent>, n: int) -> Seq<TransportView> {
    let before = reporting::sent(reporting::new_report(pid), first(events, n));
    let after = reporting::sent(reporting::new_report(pid), first(events, n + 1));
    after.subrange(before.len() as int, after.len() as int)
}

/// What an event adds is what it sends.
pub proof fn lemma_added(pid: int, events: Seq<BuckEvent>, n: int)
    requires
        0 <= n < events.len(),
    ensures
        added(pid, events, n) == reporting::step(
            reporting::report_after(reporting::new_report(pid), first(events, n)),
            events[n],
        ).1,
        reporting::sent(reporting::new_report(pid), first(events, n + 1)) == reporting::sent(
            reporting::new_report(pid),
            first(events, n),
        ) + added(pid, events, n),
{
    let now = first(events, n + 1);
    assert(now.drop_last() =~= first(events, n));
    assert(now.last() == events[n]);
    let before = reporting::sent(reporting::new_report(pid), first(events, n));
    let more = reporting::step(
        reporting::report_after(reporting::new_report(pid), first(events, n)),
        events[n],
    ).1;
    assert(added(pid, events, n) =~= more);
}

/// The first events of a command that is running are those of one that is.
pub proof fn lemma_first_is_running(events: Seq<BuckEvent>, n: int)
    requires
        0 <= n <= events.len(),
        is_running(events, n),
    ensures
        is_running(first(events, n), n),
        first(events, n).len() == n,
{
    assert forall|i: int| 0 <= i < n implies !is_end(#[trigger] first(events, n)[i]) by {
        assert(first(events, n)[i] == events[i]);
    }
}

/// The report of events is over exactly if one of them is an end.
pub proof fn lemma_finished(pid: int, events: Seq<BuckEvent>)
    ensures
        reporting::report_after(reporting::new_report(pid), events).finished == !is_running(
            events,
            events.len() as int,
        ),
    decreases events.len(),
{
    if events.len() > 0 {
        let rest = events.drop_last();
        let before = reporting::report_after(reporting::new_report(pid), rest);
        lemma_finished(pid, rest);
        assert(events[events.len() - 1] == events.last());
        assert forall|i: int| 0 <= i < rest.len() implies #[trigger] rest[i] == events[i] by {}
        if before.finished {
            let i = choose|i: int| 0 <= i < rest.len() && is_end(#[trigger] rest[i]);
            assert(is_end(events[i]));
        } else {
            lemma_step(before, events.last());
            if !is_end(events.last()) {
                assert forall|i: int| 0 <= i < events.len() implies !is_end(
                    #[trigger] events[i],
                ) by {
                    if i < rest.len() {
                        assert(!is_end(rest[i]));
                    }
                }
            }
        }
    }
}

/// The outcomes of the actions of a target are as many as the events that tell of one.
pub proof fn lemma_actions_of(events: Seq<BuckEvent>, key: TargetKey)
    ensures
        reporting::outcomes_of(actions(events), key).len() == action_count(events, key),
    decreases events.len(),
{
    reveal(Seq::filter);
    if events.len() > 0 {
        let rest = events.drop_last();
        lemma_actions_of(rest, key);
        if let Some(o) = action_of(events.last()) {
            reporting::lemma_outcomes_push(actions(rest), o, key);
        }
    }
}

/// The outcomes of the tests of a target are as many as the events that tell of one.
pub proof fn lemma_tests_of(events: Seq<BuckEvent>, key: TargetKey)
    ensures
        reporting::outcomes_of(tests(events), key).len() == test_count(events, key),
    decreases events.len(),
{
    reveal(Seq::filter);
    if events.len() > 0 {
        let rest = events.drop_last();
        lemma_tests_of(rest, key);
        if let Some(o) = test_of(events.last()) {
            reporting::lemma_outcomes_push(tests(rest), o, key);
        }
    }
}

} // verus!
