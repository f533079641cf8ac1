//! What a report tells of the outcomes of actions and tests.
use vstd::prelude::*;

use crate::bep::{BuildEventIdView, PayloadView, TestStatus, TransportView};
use crate::buck_event::{BuckEvent, EventData, Instant, SpanEnd, Timestamp};
use crate::graph;
use crate::order;
use crate::reporting;
use crate::reporting::{Report, TargetKey};

verus! {

// Targets

/// The target whose completion an event reports, and whether it succeeded.
pub open spec fn completion_outcome() -> spec_fn(TransportView) -> Option<(TargetKey, bool)> {
    |e: TransportView|
        match graph::bep_event(e) {
            Some(event) => match (event.id, event.payload) {
                (
                    BuildEventIdView::TargetCompleted { label, configuration },
                    PayloadView::Completed { success },
                ) => Some((TargetKey { label, config: configuration }, success)),
                _ => None,
            },
            None => None,
        }
}

/// The targets of a report, and whether each succeeded.
pub open spec fn target_outcomes(report: Report) -> Seq<(TargetKey, bool)> {
    Seq::new(
        report.targets.len(),
        |i: int|
            (
                report.targets[i],
                reporting::all_succeeded(reporting::completed_actions(report, i)),
            ),
    )
}

/// The completions of the end of a command.
proof fn lemma_completions_end(report: Report, time: Timestamp, success: bool)
    ensures
        order::picked(reporting::end_events(report, time, success), completion_outcome())
            == target_outcomes(report),
{
    let pick = completion_outcome();
    order::lemma_picked_end(report, time, success, pick);
    order::lemma_picked_one(reporting::final_progress(report, time), pick);
    order::lemma_picked_nothing(reporting::pattern_events(report, time), pick);
    order::lemma_picked_all(
        reporting::completed_events(report, time),
        pick,
        target_outcomes(report),
    );
    order::lemma_picked_nothing(reporting::summary_events(report, time), pick);
    order::lemma_picked_one(reporting::finished_event(time, success), pick);
    order::lemma_picked_nothing(
        reporting::closing_events(Some(time), reporting::build_status(success)),
        pick,
    );
    assert(order::picked(reporting::end_events(report, time, success), pick) =~= target_outcomes(
        report,
    ));
}

/// The completions that have been sent: none before the end, and those of all targets
/// after it.
proof fn lemma_completions(pid: int, events: Seq<BuckEvent>)
    ensures
        ({
            let after = reporting::report_after(reporting::new_report(pid), events);
            order::picked(
                reporting::sent(reporting::new_report(pid), events),
                completion_outcome(),
            ) == if after.finished {
                target_outcomes(after)
            } else {
                Seq::empty()
            }
        }),
    decreases events.len(),
{
    let report = reporting::new_report(pid);
    let pick = completion_outcome();
    if events.len() > 0 {
        let event = events.last();
        lemma_completions(pid, events.drop_last());
        let before = reporting::report_after(report, events.drop_last());
        let (after, more) = reporting::step(before, event);
        order::lemma_picked_sent(report, events, pick);
        let all = order::picked(reporting::sent(report, events), pick);
        let found = order::picked(reporting::sent(report, events.drop_last()), pick);
        if before.finished {
            assert(all =~= found);
        } else {
            match event.data {
                EventData::SpanEnd(Some(SpanEnd::Command(command))) => {
                    if reporting::is_reported(command.kind) {
                        lemma_completions_end(before, event.timestamp, command.is_success);
                        assert(target_outcomes(after) =~= target_outcomes(before));
                        assert(all =~= target_outcomes(before));
                    } else {
                        assert(all =~= Seq::empty());
                    }
                },
                _ => {
                    order::lemma_picked_nothing(more, pick);
                    assert(all =~= Seq::empty());
                },
            }
        }
    }
}

/// A target that is reported for the first time has succeeded exactly if none of its
/// actions failed; so a target without actions has.
pub proof fn law_targets_fail_with_their_actions(pid: int, events: Seq<BuckEvent>, i: int)
    requires
        ({
            let after = reporting::report_after(reporting::new_report(pid), events);
            &&& after.finished
            &&& 0 <= i < after.targets.len()
            &&& !reporting::is_repeated(after.targets, i)
        }),
    ensures
        ({
            let after = reporting::report_after(reporting::new_report(pid), events);
            let found = order::picked(reporting::converted(pid, events), completion_outcome());
            let key = after.targets[i];
            &&& found.len() == after.targets.len()
            &&& found[i].0 == key
            &&& found[i].1 <==> forall|j: int|
                0 <= j < after.actions.len() && (#[trigger] after.actions[j]).key == key
                    ==> after.actions[j].success
        }),
{
    let after = reporting::report_after(reporting::new_report(pid), events);
    let found = order::picked(reporting::converted(pid, events), completion_outcome());
    let key = after.targets[i];
    lemma_completions(pid, events);
    assert(reporting::converted(pid, events) =~= reporting::sent(
        reporting::new_report(pid),
        events,
    ));
    assert(found[i] == target_outcomes(after)[i]);
    reporting::lemma_all_succeeded(after.actions, key);
}

// Tests

/// The target whose tests an event sums up, with the status and the number of tests.
pub open spec fn test_summary() -> spec_fn(TransportView) -> Option<(TargetKey, TestStatus, int)> {
    |e: TransportView|
        match graph::bep_event(e) {
            Some(event) => match (event.id, event.payload) {
                (
                    BuildEventIdView::TestSummary { label, configuration },
                    PayloadView::TestSummary { overall_status, total_run_count, .. },
                ) => Some(
                    (
                        TargetKey { label, config: configuration },
                        overall_status,
                        total_run_count,
                    ),
                ),
                _ => None,
            },
            None => None,
        }
}

/// The targets of a report that were tested, with their statuses and numbers of tests.
pub open spec fn test_outcomes(report: Report) -> Seq<(TargetKey, TestStatus, int)> {
    reporting::keys_of(report.tests).map_values(
        |key: TargetKey|
            (
                key,
                reporting::test_status(
                    reporting::all_succeeded(reporting::outcomes_of(report.tests, key)),
                ),
                reporting::outcomes_of(report.tests, key).len() as int,
            ),
    )
}

/// The summaries of the end of a command.
proof fn lemma_summaries_end(report: Report, time: Timestamp, success: bool)
    ensures
        order::picked(reporting::end_events(report, time, success), test_summary())
            == test_outcomes(report),
{
    let pick = test_summary();
    order::lemma_picked_end(report, time, success, pick);
    order::lemma_picked_one(reporting::final_progress(report, time), pick);
    order::lemma_picked_nothing(reporting::pattern_events(report, time), pick);
    order::lemma_picked_nothing(reporting::completed_events(report, time), pick);
    order::lemma_picked_all(reporting::summary_events(report, time), pick, test_outcomes(report));
    order::lemma_picked_one(reporting::finished_event(time, success), pick);
    order::lemma_picked_nothing(
        reporting::closing_events(Some(time), reporting::build_status(success)),
        pick,
    );
    assert(order::picked(reporting::end_events(report, time, success), pick) =~= test_outcomes(
        report,
    ));
}

/// The summaries that have been sent: none before the end, and those of all tests after
/// it.
proof fn lemma_summaries(pid: int, events: Seq<BuckEvent>)
    ensures
        ({
            let after = reporting::report_after(reporting::new_report(pid), events);
            order::picked(reporting::sent(reporting::new_report(pid), events), test_summary())
                == if after.finished {
                test_outcomes(after)
            } else {
                Seq::empty()
            }
        }),
    decreases events.len(),
{
    let report = reporting::new_report(pid);
    let pick = test_summary();
    if events.len() > 0 {
        let event = events.last();
        lemma_summaries(pid, events.drop_last());
        let before = reporting::report_after(report, events.drop_last());
        let (after, more) = reporting::step(before, event);
        order::lemma_picked_sent(report, events, pick);
        let all = order::picked(reporting::sent(report, events), pick);
        let found = order::picked(reporting::sent(report, events.drop_last()), pick);
        if before.finished {
            assert(all =~= found);
        } else {
            match event.data {
                EventData::SpanEnd(Some(SpanEnd::Command(command))) => {
                    if reporting::is_reported(command.kind) {
                        lemma_summaries_end(before, event.timestamp, command.is_success);
                        assert(test_outcomes(after) =~= test_outcomes(before));
                        assert(all =~= test_outcomes(before));
                    } else {
                        assert(all =~= Seq::empty());
                    }
                },
                _ => {
                    order::lemma_picked_nothing(more, pick);
                    assert(all =~= Seq::empty());
                },
            }
        }
    }
}

/// At the end of a command the tests of each tested target are summed up, once for each
/// target: how many there were, and that they passed if all of them did.
pub proof fn law_tests_are_summed_up(pid: int, events: Seq<BuckEvent>)
    requires
        reporting::report_after(reporting::new_report(pid), events).finished,
    ensures
        order::picked(reporting::converted(pid, events), test_summary()) == test_outcomes(
            reporting::report_after(reporting::new_report(pid), events),
        ),
        reporting::keys_of(
            reporting::report_after(reporting::new_report(pid), events).tests,
        ).no_duplicates(),
{
    let after = reporting::report_after(reporting::new_report(pid), events);
    lemma_summaries(pid, events);
    assert(reporting::converted(pid, events) =~= reporting::sent(
        reporting::new_report(pid),
        events,
    ));
    reporting::lemma_keys_differ(after.tests);
}

/// The number of the test run of a target that an event reports.
pub open spec fn test_run(key: TargetKey) -> spec_fn(TransportView) -> Option<int> {
    |e: TransportView|
        match graph::bep_event(e) {
            Some(event) => match event.id {
                BuildEventIdView::TestResult { label, configuration, run, .. } => {
                    if label == key.label && configuration == key.config {
                        Some(run)
                    } else {
                        None
                    }
                },
                _ => None,
            },
            None => None,
        }
}

/// The numbers from one to `n`.
pub open spec fn runs(n: int) -> Seq<int> {
    Seq::new(n as nat, |i: int| i + 1)
}

/// The test runs of a target that have been sent are numbered from one without a gap.
proof fn lemma_runs(pid: int, events: Seq<BuckEvent>, key: TargetKey)
    ensures
        ({
            let after = reporting::report_after(reporting::new_report(pid), events);
            order::picked(reporting::sent(reporting::new_report(pid), events), test_run(key))
                == runs(reporting::outcomes_of(after.tests, key).len() as int)
        }),
    decreases events.len(),
{
    let report = reporting::new_report(pid);
    let pick = test_run(key);
    if events.len() > 0 {
        let event = events.last();
        let time = event.timestamp;
        lemma_runs(pid, events.drop_last(), key);
        let before = reporting::report_after(report, events.drop_last());
        let (after, more) = reporting::step(before, event);
        order::lemma_picked_sent(report, events, pick);
        let all = order::picked(reporting::sent(report, events), pick);
        let found = order::picked(reporting::sent(report, events.drop_last()), pick);
        let n = reporting::outcomes_of(before.tests, key).len() as int;
        if before.finished {
            assert(all =~= found);
        } else {
            match event.data {
                EventData::SpanEnd(Some(SpanEnd::Command(command))) => {
                    if reporting::is_reported(command.kind) {
                        let success = command.is_success;
                        order::lemma_picked_end(before, time, success, pick);
                        order::lemma_picked_one(reporting::final_progress(before, time), pick);
                        order::lemma_picked_nothing(reporting::pattern_events(before, time), pick);
                        order::lemma_picked_nothing(
                            reporting::completed_events(before, time),
                            pick,
                        );
                        order::lemma_picked_nothing(reporting::summary_events(before, time), pick);
                        order::lemma_picked_one(reporting::finished_event(time, success), pick);
                        order::lemma_picked_nothing(
                            reporting::closing_events(
                                Some(time),
                                reporting::build_status(success),
                            ),
                            pick,
                        );
                    }
                    assert(all =~= found);
                },
                EventData::Instant(Some(Instant::TestResult(result))) => {
                    match reporting::tested(result) {
                        Some(k) => {
                            let o = after.tests.last();
                            reporting::lemma_outcomes_push(before.tests, o, key);
                            order::lemma_picked_one(more[0], pick);
                            if k == key {
                                assert(all =~= found.push(n + 1));
                                assert(runs(n).push(n + 1) =~= runs(n + 1));
                            } else {
                                assert(all =~= found);
                            }
                        },
                        None => {
                            assert(all =~= found);
                        },
                    }
                },
                _ => {
                    order::lemma_picked_nothing(more, pick);
                    assert(all =~= found);
                },
            }
        }
    } else {
        reveal(Seq::filter);
        assert(runs(0) =~= Seq::empty());
    }
}

/// Every test result of a target is reported, in order, with its number.
pub proof fn law_test_results_are_numbered(pid: int, events: Seq<BuckEvent>, key: TargetKey)
    ensures
        ({
            let after = reporting::report_after(reporting::new_report(pid), events);
            order::picked(reporting::converted(pid, events), test_run(key)) == runs(
                reporting::outcomes_of(after.tests, key).len() as int,
            )
        }),
{
    let report = reporting::new_report(pid);
    let after = reporting::report_after(report, events);
    let pick = test_run(key);
    lemma_runs(pid, events, key);
    order::lemma_picked_add(reporting::sent(report, events), reporting::interruption(after), pick);
    order::lemma_picked_nothing(reporting::interruption(after), pick);
    assert(order::picked(reporting::converted(pid, events), pick) =~= order::picked(
        reporting::sent(report, events),
        pick,
    ));
}

} // verus!
