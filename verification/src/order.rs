//! Which events a report consists of, and in which order they are sent.
use vstd::prelude::*;

use crate::bep;
use crate::bep::{BuildEventIdView, BuildStatus, ServiceEventView, TransportView};
use crate::buck_event::{BuckEvent, EventData, Instant, SpanEnd, SpanStart, Timestamp};
use crate::graph;
use crate::reporting;
use crate::reporting::{Report, TargetKey};

verus! {

/// What `pick` finds in the events of a list, in order.
pub open spec fn picked<A>(
    out: Seq<TransportView>,
    pick: spec_fn(TransportView) -> Option<A>,
) -> Seq<A>
    decreases out.len(),
{
    if out.len() == 0 {
        Seq::empty()
    } else {
        match pick(out.last()) {
            Some(a) => picked(out.drop_last(), pick).push(a),
            None => picked(out.drop_last(), pick),
        }
    }
}

/// What is found in one list after another.
pub proof fn lemma_picked_add<A>(
    a: Seq<TransportView>,
    b: Seq<TransportView>,
    pick: spec_fn(TransportView) -> Option<A>,
)
    ensures
        picked(a + b, pick) == picked(a, pick) + picked(b, pick),
    decreases b.len(),
{
    if b.len() == 0 {
        assert(a + b =~= a);
        assert(picked(a, pick) + picked(b, pick) =~= picked(a, pick));
    } else {
        assert((a + b).drop_last() =~= a + b.drop_last());
        lemma_picked_add(a, b.drop_last(), pick);
        match pick(b.last()) {
            Some(x) => {
                assert(picked(a, pick) + picked(b.drop_last(), pick).push(x) =~= (picked(a, pick)
                    + picked(b.drop_last(), pick)).push(x));
            },
            None => {},
        }
    }
}

/// What is found in a single event.
pub proof fn lemma_picked_one<A>(e: TransportView, pick: spec_fn(TransportView) -> Option<A>)
    ensures
        picked(seq![e], pick) == (match pick(e) {
            Some(a) => seq![a],
            None => Seq::empty(),
        }),
{
    assert(seq![e].drop_last() =~= Seq::empty());
    assert(picked(seq![e].drop_last(), pick) =~= Seq::empty());
    match pick(e) {
        Some(a) => {
            assert(Seq::empty().push(a) =~= seq![a]);
        },
        None => {},
    }
}

/// Nothing is found where there is nothing.
pub proof fn lemma_picked_nothing<A>(
    out: Seq<TransportView>,
    pick: spec_fn(TransportView) -> Option<A>,
)
    requires
        forall|i: int| 0 <= i < out.len() ==> pick(#[trigger] out[i]) is None,
    ensures
        picked(out, pick) == Seq::<A>::empty(),
    decreases out.len(),
{
    if out.len() > 0 {
        assert(pick(out[out.len() - 1]) is None);
        assert forall|i: int| 0 <= i < out.drop_last().len() implies pick(
            #[trigger] out.drop_last()[i],
        ) is None by {
            assert(out.drop_last()[i] == out[i]);
        }
        lemma_picked_nothing(out.drop_last(), pick);
    }
}

/// What is found where there is something in each event.
pub proof fn lemma_picked_all<A>(
    out: Seq<TransportView>,
    pick: spec_fn(TransportView) -> Option<A>,
    found: Seq<A>,
)
    requires
        out.len() == found.len(),
        forall|i: int| 0 <= i < out.len() ==> pick(#[trigger] out[i]) == Some(found[i]),
    ensures
        picked(out, pick) == found,
    decreases out.len(),
{
    if out.len() > 0 {
        assert(pick(out[out.len() - 1]) == Some(found.last()));
        assert forall|i: int| 0 <= i < out.drop_last().len() implies pick(
            #[trigger] out.drop_last()[i],
        ) == Some(found.drop_last()[i]) by {
            assert(out.drop_last()[i] == out[i]);
        }
        lemma_picked_all(out.drop_last(), pick, found.drop_last());
        assert(found.drop_last().push(found.last()) =~= found);
    } else {
        assert(found =~= Seq::empty());
    }
}

/// What the end of a command holds, part by part.
pub proof fn lemma_picked_end<A>(
    report: Report,
    time: Timestamp,
    success: bool,
    pick: spec_fn(TransportView) -> Option<A>,
)
    ensures
        picked(reporting::end_events(report, time, success), pick) == picked(
            seq![reporting::final_progress(report, time)],
            pick,
        ) + picked(reporting::pattern_events(report, time), pick) + picked(
            reporting::completed_events(report, time),
            pick,
        ) + picked(reporting::summary_events(report, time), pick) + picked(
            seq![reporting::finished_event(time, success)],
            pick,
        ) + picked(
            reporting::closing_events(Some(time), reporting::build_status(success)),
            pick,
        ),
{
    let a = seq![reporting::final_progress(report, time)];
    let b = reporting::pattern_events(report, time);
    let c = reporting::completed_events(report, time);
    let d = reporting::summary_events(report, time);
    let e = seq![reporting::finished_event(time, success)];
    let f = reporting::closing_events(Some(time), reporting::build_status(success));
    lemma_picked_add(a, b, pick);
    lemma_picked_add(a + b, c, pick);
    lemma_picked_add(a + b + c, d, pick);
    lemma_picked_add(a + b + c + d, e, pick);
    lemma_picked_add(a + b + c + d + e, f, pick);
}

/// What is found in the events of a report, event by event.
pub proof fn lemma_picked_sent<A>(
    report: Report,
    events: Seq<BuckEvent>,
    pick: spec_fn(TransportView) -> Option<A>,
)
    requires
        events.len() > 0,
    ensures
        picked(reporting::sent(report, events), pick) == picked(
            reporting::sent(report, events.drop_last()),
            pick,
        ) + picked(
            reporting::step(reporting::report_after(report, events.drop_last()), events.last()).1,
            pick,
        ),
{
    lemma_picked_add(
        reporting::sent(report, events.drop_last()),
        reporting::step(reporting::report_after(report, events.drop_last()), events.last()).1,
        pick,
    );
}

// Progress

/// The count of a progress event.
pub open spec fn progress_count() -> spec_fn(TransportView) -> Option<int> {
    |e: TransportView|
        match graph::bep_event(e) {
            Some(event) => match event.id {
                BuildEventIdView::Progress { opaque_count } => Some(opaque_count),
                _ => None,
            },
            None => None,
        }
}

/// The numbers from zero up to `n`.
pub open spec fn counting(n: int) -> Seq<int> {
    Seq::new(n as nat, |i: int| i)
}

/// How many progress events have been sent.
spec fn progress_sent(report: Report) -> int {
    if report.finished {
        report.progress_count + 1
    } else {
        report.progress_count
    }
}

/// The progress events of one step.
proof fn lemma_progress_step(report: Report, event: BuckEvent)
    requires
        report.progress_count >= 0,
    ensures
        ({
            let after = reporting::step(report, event).0;
            &&& after.progress_count >= report.progress_count
            &&& progress_sent(after) == progress_sent(report) || progress_sent(after)
                == progress_sent(report) + 1
            &&& picked(reporting::step(report, event).1, progress_count()) == if progress_sent(
                after,
            ) == progress_sent(report) {
                Seq::<int>::empty()
            } else {
                seq![progress_sent(report)]
            }
        }),
{
    let time = event.timestamp;
    let (after, more) = reporting::step(report, event);
    let pick = progress_count();
    if !report.finished {
        match event.data {
            EventData::SpanEnd(Some(SpanEnd::Command(command))) => {
                if reporting::is_reported(command.kind) {
                    lemma_picked_end(report, time, command.is_success, pick);
                    lemma_picked_one(reporting::final_progress(report, time), pick);
                    lemma_picked_nothing(reporting::pattern_events(report, time), pick);
                    lemma_picked_nothing(reporting::completed_events(report, time), pick);
                    lemma_picked_nothing(reporting::summary_events(report, time), pick);
                    lemma_picked_one(reporting::finished_event(time, command.is_success), pick);
                    lemma_picked_nothing(
                        reporting::closing_events(
                            Some(time),
                            reporting::build_status(command.is_success),
                        ),
                        pick,
                    );
                    assert(picked(more, pick) =~= seq![report.progress_count]);
                }
            },
            EventData::Instant(Some(Instant::ConsoleMessage(message)))
            | EventData::Instant(Some(Instant::ConsoleWarning(message))) => {
                lemma_picked_one(
                    reporting::progress_event(time, report.progress_count, seq![], message@),
                    pick,
                );
            },
            EventData::Instant(Some(Instant::StreamingOutput(message))) => {
                lemma_picked_one(
                    reporting::progress_event(time, report.progress_count, message@, seq![]),
                    pick,
                );
            },
            _ => {
                lemma_picked_nothing(more, pick);
            },
        }
    }
}

/// The progress events of a report are counted from zero without a gap.
pub proof fn law_progress_is_counted(pid: int, events: Seq<BuckEvent>)
    ensures
        picked(reporting::converted(pid, events), progress_count()) == counting(
            picked(reporting::converted(pid, events), progress_count()).len() as int,
        ),
{
    let report = reporting::new_report(pid);
    let after = reporting::report_after(report, events);
    let pick = progress_count();
    lemma_progress(pid, events);
    lemma_picked_add(reporting::sent(report, events), reporting::interruption(after), pick);
    lemma_picked_nothing(reporting::interruption(after), pick);
    assert(picked(reporting::converted(pid, events), pick) =~= picked(
        reporting::sent(report, events),
        pick,
    ));
}

/// The progress events that have been sent are counted from zero without a gap.
proof fn lemma_progress(pid: int, events: Seq<BuckEvent>)
    ensures
        reporting::report_after(reporting::new_report(pid), events).progress_count >= 0,
        picked(reporting::sent(reporting::new_report(pid), events), progress_count()) == counting(
            progress_sent(reporting::report_after(reporting::new_report(pid), events)),
        ),
    decreases events.len(),
{
    let report = reporting::new_report(pid);
    let pick = progress_count();
    if events.len() > 0 {
        lemma_progress(pid, events.drop_last());
        let before = reporting::report_after(report, events.drop_last());
        let after = reporting::report_after(report, events);
        lemma_progress_step(before, events.last());
        lemma_picked_sent(report, events, pick);
        let n = progress_sent(before);
        assert(counting(n) + seq![n] =~= counting(n + 1));
        assert(counting(n) + Seq::empty() =~= counting(n));
    } else {
        assert(counting(0) =~= Seq::empty());
    }
}

// Lifecycle

/// The event of a lifecycle call.
pub open spec fn lifecycle_event() -> spec_fn(TransportView) -> Option<ServiceEventView> {
    |e: TransportView|
        match e {
            TransportView::Lifecycle(timed) => Some(timed.event),
            TransportView::Stream(_) => None,
        }
}

/// How many times a reported command has started while the report was not closed.
pub open spec fn starts(report: Report, events: Seq<BuckEvent>) -> nat
    decreases events.len(),
{
    if events.len() == 0 {
        0
    } else {
        let before = reporting::report_after(report, events.drop_last());
        starts(report, events.drop_last()) + if before.finished {
            0nat
        } else {
            match events.last().data {
                EventData::SpanStart(Some(SpanStart::Command(command))) => {
                    if reporting::is_reported(command.kind) {
                        1nat
                    } else {
                        0nat
                    }
                },
                _ => 0nat,
            }
        }
    }
}

/// The lifecycle events of `n` starts.
pub open spec fn opened(n: nat) -> Seq<ServiceEventView>
    decreases n,
{
    if n == 0 {
        Seq::empty()
    } else {
        opened((n - 1) as nat) + seq![
            ServiceEventView::BuildEnqueued,
            ServiceEventView::InvocationAttemptStarted { attempt_number: 1 },
        ]
    }
}

/// The lifecycle events of an end.
pub open spec fn ended(status: BuildStatus) -> Seq<ServiceEventView> {
    seq![
        ServiceEventView::InvocationAttemptFinished(status),
        ServiceEventView::BuildFinished(status),
    ]
}

/// The lifecycle events that close a report.
proof fn lemma_lifecycle_closing(time: Option<Timestamp>, status: BuildStatus)
    ensures
        picked(reporting::closing_events(time, status), lifecycle_event()) == ended(status),
{
    let out = reporting::closing_events(time, status);
    let pick = lifecycle_event();
    assert(out =~= seq![out[0]] + seq![out[1]] + seq![out[2]]);
    lemma_picked_one(out[0], pick);
    lemma_picked_one(out[1], pick);
    lemma_picked_one(out[2], pick);
    lemma_picked_add(seq![out[0]], seq![out[1]], pick);
    lemma_picked_add(seq![out[0]] + seq![out[1]], seq![out[2]], pick);
    assert(picked(out, pick) =~= ended(status));
}

/// The lifecycle events of the start of a command.
proof fn lemma_lifecycle_start(pid: int, time: Timestamp, trace_id: Seq<char>, args: Seq<Seq<char>>)
    ensures
        picked(reporting::start_events(pid, time, trace_id, args), lifecycle_event()) == seq![
            ServiceEventView::BuildEnqueued,
            ServiceEventView::InvocationAttemptStarted { attempt_number: 1 },
        ],
{
    let out = reporting::start_events(pid, time, trace_id, args);
    let pick = lifecycle_event();
    let rest = out.subrange(2, 4);
    assert(out =~= seq![out[0]] + seq![out[1]] + rest);
    lemma_picked_one(out[0], pick);
    lemma_picked_one(out[1], pick);
    assert forall|i: int| 0 <= i < rest.len() implies pick(#[trigger] rest[i]) is None by {
        assert(rest[i] == out[i + 2]);
        assert(i == 0 || i == 1);
    }
    lemma_picked_nothing(rest, pick);
    lemma_picked_add(seq![out[0]], seq![out[1]], pick);
    lemma_picked_add(seq![out[0]] + seq![out[1]], rest, pick);
    assert(picked(out, pick) =~= seq![
        ServiceEventView::BuildEnqueued,
        ServiceEventView::InvocationAttemptStarted { attempt_number: 1 },
    ]);
}

/// The lifecycle events of the end of a command.
proof fn lemma_lifecycle_end(report: Report, time: Timestamp, success: bool)
    ensures
        picked(reporting::end_events(report, time, success), lifecycle_event()) == ended(
            reporting::build_status(success),
        ),
{
    let pick = lifecycle_event();
    let status = reporting::build_status(success);
    lemma_picked_end(report, time, success, pick);
    lemma_picked_one(reporting::final_progress(report, time), pick);
    lemma_picked_nothing(reporting::pattern_events(report, time), pick);
    lemma_picked_nothing(reporting::completed_events(report, time), pick);
    lemma_picked_nothing(reporting::summary_events(report, time), pick);
    lemma_picked_one(reporting::finished_event(time, success), pick);
    lemma_lifecycle_closing(Some(time), status);
    assert(picked(reporting::end_events(report, time, success), pick) =~= ended(status));
}

/// The lifecycle events that have been sent: those of the starts, and those of the end
/// once the command has ended.
proof fn lemma_lifecycle(pid: int, events: Seq<BuckEvent>)
    ensures
        ({
            let report = reporting::new_report(pid);
            let after = reporting::report_after(report, events);
            let found = picked(reporting::sent(report, events), lifecycle_event());
            &&& after.started == (starts(report, events) > 0)
            &&& if after.finished {
                exists|status: BuildStatus|
                    found == opened(starts(report, events)) + #[trigger] ended(status)
            } else {
                found == opened(starts(report, events))
            }
        }),
    decreases events.len(),
{
    let report = reporting::new_report(pid);
    let pick = lifecycle_event();
    if events.len() > 0 {
        let event = events.last();
        lemma_lifecycle(pid, events.drop_last());
        let before = reporting::report_after(report, events.drop_last());
        let n = starts(report, events.drop_last());
        let found = picked(reporting::sent(report, events.drop_last()), pick);
        let more = reporting::step(before, event).1;
        lemma_picked_sent(report, events, pick);
        let all = picked(reporting::sent(report, events), pick);
        if before.finished {
            assert(picked(more, pick) =~= Seq::empty());
            assert(all =~= found);
        } else {
            match event.data {
                EventData::SpanStart(Some(SpanStart::Command(command))) => {
                    if reporting::is_reported(command.kind) {
                        lemma_lifecycle_start(
                            before.server_pid,
                            event.timestamp,
                            event.trace_id@,
                            bep::texts(command.cli_args@),
                        );
                    } else {
                        assert(all =~= found);
                    }
                },
                EventData::SpanEnd(Some(SpanEnd::Command(command))) => {
                    if reporting::is_reported(command.kind) {
                        lemma_lifecycle_end(before, event.timestamp, command.is_success);
                        let status = reporting::build_status(command.is_success);
                        assert(all == opened(n) + ended(status));
                    } else {
                        assert(all =~= found);
                    }
                },
                _ => {
                    lemma_picked_nothing(more, pick);
                    assert(all =~= found);
                },
            }
        }
    }
}

/// The lifecycle events of a report are those of its starts, followed by those of its
/// end if it has started or ended. What was interrupted has failed.
pub proof fn law_lifecycle_is_closed(pid: int, events: Seq<BuckEvent>)
    ensures
        ({
            let report = reporting::new_report(pid);
            let after = reporting::report_after(report, events);
            let found = picked(reporting::converted(pid, events), lifecycle_event());
            if after.finished {
                exists|status: BuildStatus|
                    found == opened(starts(report, events)) + #[trigger] ended(status)
            } else if after.started {
                found == opened(starts(report, events)) + ended(BuildStatus::CommandFailed)
            } else {
                found == Seq::<ServiceEventView>::empty()
            }
        }),
{
    let report = reporting::new_report(pid);
    let after = reporting::report_after(report, events);
    let pick = lifecycle_event();
    let sent = reporting::sent(report, events);
    let more = reporting::interruption(after);
    lemma_lifecycle(pid, events);
    lemma_picked_add(sent, more, pick);
    let found = picked(reporting::converted(pid, events), pick);
    if after.started && !after.finished {
        let rest = reporting::closing_events(None, BuildStatus::CommandFailed);
        assert(more =~= seq![more[0]] + rest);
        lemma_picked_one(more[0], pick);
        lemma_picked_add(seq![more[0]], rest, pick);
        lemma_lifecycle_closing(None, BuildStatus::CommandFailed);
        assert(picked(more, pick) =~= ended(BuildStatus::CommandFailed));
    } else {
        assert(found =~= picked(sent, pick));
        if after.finished {
            let status = choose|status: BuildStatus|
                picked(sent, pick) == opened(starts(report, events)) + #[trigger] ended(status);
            assert(found == opened(starts(report, events)) + ended(status));
        }
    }
}

/// The lifecycle events of a command that starts once come in the order of its life.
pub proof fn law_lifecycle_of_one_command(pid: int, events: Seq<BuckEvent>)
    requires
        starts(reporting::new_report(pid), events) == 1,
    ensures
        exists|status: BuildStatus|
            picked(reporting::converted(pid, events), lifecycle_event()) == seq![
                ServiceEventView::BuildEnqueued,
                ServiceEventView::InvocationAttemptStarted { attempt_number: 1 },
            ] + #[trigger] ended(status),
{
    law_lifecycle_is_closed(pid, events);
    lemma_lifecycle(pid, events);
    let report = reporting::new_report(pid);
    let after = reporting::report_after(report, events);
    let found = picked(reporting::converted(pid, events), lifecycle_event());
    reveal_with_fuel(opened, 2);
    let status = if after.finished {
        choose|status: BuildStatus| found == opened(1) + #[trigger] ended(status)
    } else {
        BuildStatus::CommandFailed
    };
    assert(found == opened(1) + ended(status));
    assert(found =~= seq![
        ServiceEventView::BuildEnqueued,
        ServiceEventView::InvocationAttemptStarted { attempt_number: 1 },
    ] + ended(status));
}

// Configurations

/// The configuration that an event reports.
pub open spec fn configuration() -> spec_fn(TransportView) -> Option<Seq<char>> {
    |e: TransportView|
        match graph::bep_event(e) {
            Some(event) => match event.id {
                BuildEventIdView::Configuration { id } => Some(id),
                _ => None,
            },
            None => None,
        }
}

/// The configurations that one step reports.
proof fn lemma_configurations_step(report: Report, event: BuckEvent)
    ensures
        ({
            let after = reporting::step(report, event).0;
            let found = picked(reporting::step(report, event).1, configuration());
            ||| found == Seq::<Seq<char>>::empty() && after.configurations == report.configurations
            ||| found.len() == 1 && !report.configurations.contains(found[0])
                && after.configurations == report.configurations.insert(found[0])
        }),
{
    let time = event.timestamp;
    let (after, more) = reporting::step(report, event);
    let pick = configuration();
    if !report.finished {
        match event.data {
            EventData::SpanStart(Some(SpanStart::Analysis(analysis))) => {
                match reporting::analyzed(analysis) {
                    Some(key) => {
                        if report.configurations.contains(key.config) {
                            lemma_picked_nothing(more, pick);
                            assert(after.configurations =~= report.configurations);
                        } else {
                            assert(more =~= seq![more[0]] + seq![more[1]]);
                            lemma_picked_one(more[0], pick);
                            lemma_picked_one(more[1], pick);
                            lemma_picked_add(seq![more[0]], seq![more[1]], pick);
                            assert(picked(more, pick) =~= seq![key.config]);
                        }
                    },
                    None => {},
                }
            },
            EventData::SpanEnd(Some(SpanEnd::Command(command))) => {
                if reporting::is_reported(command.kind) {
                    let success = command.is_success;
                    lemma_picked_end(report, time, success, pick);
                    lemma_picked_one(reporting::final_progress(report, time), pick);
                    lemma_picked_nothing(reporting::pattern_events(report, time), pick);
                    lemma_picked_nothing(reporting::completed_events(report, time), pick);
                    lemma_picked_nothing(reporting::summary_events(report, time), pick);
                    lemma_picked_one(reporting::finished_event(time, success), pick);
                    lemma_picked_nothing(
                        reporting::closing_events(Some(time), reporting::build_status(success)),
                        pick,
                    );
                    assert(picked(more, pick) =~= Seq::empty());
                }
            },
            _ => {
                lemma_picked_nothing(more, pick);
            },
        }
    }
}

/// The configurations that have been sent are those of the report, each once.
proof fn lemma_configurations(pid: int, events: Seq<BuckEvent>)
    ensures
        ({
            let report = reporting::new_report(pid);
            let found = picked(reporting::sent(report, events), configuration());
            let after = reporting::report_after(report, events);
            &&& found.no_duplicates()
            &&& forall|c: Seq<char>| #[trigger]
                found.contains(c) == after.configurations.contains(c)
            &&& forall|i: int|
                0 <= i < after.targets.len() ==> after.configurations.contains(
                    (#[trigger] after.targets[i]).config,
                )
        }),
    decreases events.len(),
{
    let report = reporting::new_report(pid);
    let pick = configuration();
    if events.len() > 0 {
        lemma_configurations(pid, events.drop_last());
        let before = reporting::report_after(report, events.drop_last());
        let after = reporting::report_after(report, events);
        lemma_configurations_step(before, events.last());
        lemma_picked_sent(report, events, pick);
        let old_found = picked(reporting::sent(report, events.drop_last()), pick);
        let more = picked(reporting::step(before, events.last()).1, pick);
        let found = picked(reporting::sent(report, events), pick);
        if more.len() == 0 {
            assert(found =~= old_found);
        } else {
            assert(found =~= old_found.push(more[0]));
            assert forall|c: Seq<char>| #[trigger]
                found.contains(c) == after.configurations.contains(c) by {
                if old_found.contains(c) {
                    let i = choose|i: int| 0 <= i < old_found.len() && old_found[i] == c;
                    assert(found[i] == c);
                }
                if c == more[0] {
                    assert(found[old_found.len() as int] == c);
                }
                if found.contains(c) && c != more[0] {
                    let i = choose|i: int| 0 <= i < found.len() && found[i] == c;
                    assert(old_found[i] == c);
                }
            }
            assert(!old_found.contains(more[0]));
            assert forall|i: int, j: int|
                0 <= i < found.len() && 0 <= j < found.len() && i != j implies found[i]
                != found[j] by {
                if i < old_found.len() {
                    assert(old_found.contains(old_found[i]));
                }
                if j < old_found.len() {
                    assert(old_found.contains(old_found[j]));
                }
            }
        }
    }
}

/// Each configuration is reported once, and those of the analyzed targets are.
pub proof fn law_configurations_are_reported_once(pid: int, events: Seq<BuckEvent>)
    ensures
        ({
            let after = reporting::report_after(reporting::new_report(pid), events);
            let found = picked(reporting::converted(pid, events), configuration());
            &&& found.no_duplicates()
            &&& forall|i: int|
                0 <= i < after.targets.len() ==> found.contains(
                    (#[trigger] after.targets[i]).config,
                )
        }),
{
    let report = reporting::new_report(pid);
    let after = reporting::report_after(report, events);
    let pick = configuration();
    lemma_configurations(pid, events);
    lemma_picked_add(reporting::sent(report, events), reporting::interruption(after), pick);
    lemma_picked_nothing(reporting::interruption(after), pick);
    assert(picked(reporting::converted(pid, events), pick) =~= picked(
        reporting::sent(report, events),
        pick,
    ));
}

// Completions

/// The target whose completion an event reports.
pub open spec fn completion() -> spec_fn(TransportView) -> Option<TargetKey> {
    |e: TransportView|
        match graph::bep_event(e) {
            Some(event) => match event.id {
                BuildEventIdView::TargetCompleted { label, configuration } => Some(
                    TargetKey { label, config: configuration },
                ),
                _ => None,
            },
            None => None,
        }
}

/// The completions of the end of a command.
proof fn lemma_completions_end(report: Report, time: Timestamp, success: bool)
    ensures
        picked(reporting::end_events(report, time, success), completion()) == report.targets,
{
    let pick = completion();
    lemma_picked_end(report, time, success, pick);
    lemma_picked_one(reporting::final_progress(report, time), pick);
    lemma_picked_nothing(reporting::pattern_events(report, time), pick);
    lemma_picked_all(reporting::completed_events(report, time), pick, report.targets);
    lemma_picked_nothing(reporting::summary_events(report, time), pick);
    lemma_picked_one(reporting::finished_event(time, success), pick);
    lemma_picked_nothing(
        reporting::closing_events(Some(time), reporting::build_status(success)),
        pick,
    );
    assert(picked(reporting::end_events(report, time, success), pick) =~= report.targets);
}

/// The completions that have been sent: none before the end, and those of all targets
/// after it.
proof fn lemma_completions(pid: int, events: Seq<BuckEvent>)
    ensures
        ({
            let after = reporting::report_after(reporting::new_report(pid), events);
            picked(reporting::sent(reporting::new_report(pid), events), completion())
                == if after.finished {
                after.targets
            } else {
                Seq::empty()
            }
        }),
    decreases events.len(),
{
    let report = reporting::new_report(pid);
    let pick = completion();
    if events.len() > 0 {
        let event = events.last();
        lemma_completions(pid, events.drop_last());
        let before = reporting::report_after(report, events.drop_last());
        let (after, more) = reporting::step(before, event);
        lemma_picked_sent(report, events, pick);
        let all = picked(reporting::sent(report, events), pick);
        let found = picked(reporting::sent(report, events.drop_last()), pick);
        if before.finished {
            assert(all =~= found);
        } else {
            match event.data {
                EventData::SpanEnd(Some(SpanEnd::Command(command))) => {
                    if reporting::is_reported(command.kind) {
                        lemma_completions_end(before, event.timestamp, command.is_success);
                        assert(all =~= before.targets);
                    } else {
                        assert(all =~= Seq::empty());
                    }
                },
                _ => {
                    lemma_picked_nothing(more, pick);
                    assert(all =~= Seq::empty());
                },
            }
        }
    }
}

/// At the end of a command every analyzed target is completed, in the order of the
/// analyses, whether or not it has actions.
pub proof fn law_targets_are_completed(pid: int, events: Seq<BuckEvent>)
    requires
        reporting::report_after(reporting::new_report(pid), events).finished,
    ensures
        picked(reporting::converted(pid, events), completion()) == reporting::report_after(
            reporting::new_report(pid),
            events,
        ).targets,
{
    lemma_completions(pid, events);
    assert(reporting::converted(pid, events) =~= reporting::sent(
        reporting::new_report(pid),
        events,
    ));
}

// The end

/// Whether an event is one that others may follow: no Build Event Protocol event that
/// is the last message, and no end of the stream or of the lifecycle.
pub open spec fn goes_on(e: TransportView) -> bool {
    match e {
        TransportView::Lifecycle(timed) => match timed.event {
            ServiceEventView::BuildEnqueued => true,
            ServiceEventView::InvocationAttemptStarted { attempt_number } => true,
            _ => false,
        },
        TransportView::Stream(timed) => match timed.event {
            ServiceEventView::BazelEvent { type_url, event } => !event.last_message && event.id
                != BuildEventIdView::BuildFinished,
            _ => false,
        },
    }
}

/// Whether all events of a list are ones that others may follow.
pub open spec fn all_go_on(out: Seq<TransportView>) -> bool {
    forall|i: int| 0 <= i < out.len() ==> goes_on(#[trigger] out[i])
}

/// Whether a report is closed: events that others may follow, the last message, which
/// is the end of the build, and the ends of the stream, the invocation and the build.
pub open spec fn is_closed(out: Seq<TransportView>) -> bool {
    let n = out.len() as int;
    &&& n >= 4
    &&& all_go_on(out.subrange(0, n - 4))
    &&& match graph::bep_event(out[n - 4]) {
        Some(event) => event.last_message && event.id == BuildEventIdView::BuildFinished,
        None => false,
    }
    &&& exists|time: Option<Timestamp>, status: BuildStatus|
        out.subrange(n - 3, n) == #[trigger] reporting::closing_events(time, status)
}

/// A list that goes on, the last message and the closing events make a closed report.
proof fn lemma_closed(
    body: Seq<TransportView>,
    last: TransportView,
    time: Option<Timestamp>,
    status: BuildStatus,
)
    requires
        all_go_on(body),
        match graph::bep_event(last) {
            Some(event) => event.last_message && event.id == BuildEventIdView::BuildFinished,
            None => false,
        },
    ensures
        is_closed(body + seq![last] + reporting::closing_events(time, status)),
{
    let out = body + seq![last] + reporting::closing_events(time, status);
    let n = out.len() as int;
    assert(out.subrange(0, n - 4) =~= body);
    assert(out.subrange(n - 3, n) =~= reporting::closing_events(time, status));
}

/// Before the end of a command all events go on; the end closes the report.
proof fn lemma_closing_step(report: Report, out: Seq<TransportView>, event: BuckEvent)
    requires
        !report.finished,
        all_go_on(out),
    ensures
        ({
            let (after, more) = reporting::step(report, event);
            if after.finished {
                is_closed(out + more)
            } else {
                all_go_on(out + more)
            }
        }),
{
    let time = event.timestamp;
    let (after, more) = reporting::step(report, event);
    if after.finished {
        match event.data {
            EventData::SpanEnd(Some(SpanEnd::Command(command))) => {
                let success = command.is_success;
                let body = out + (seq![reporting::final_progress(report, time)]
                    + reporting::pattern_events(report, time) + reporting::completed_events(
                    report,
                    time,
                ) + reporting::summary_events(report, time));
                assert(all_go_on(body));
                lemma_closed(
                    body,
                    reporting::finished_event(time, success),
                    Some(time),
                    reporting::build_status(success),
                );
                assert(out + more =~= body + seq![reporting::finished_event(time, success)]
                    + reporting::closing_events(Some(time), reporting::build_status(success)));
            },
            _ => {},
        }
    } else {
        assert forall|i: int| 0 <= i < more.len() implies goes_on(#[trigger] more[i]) by {}
    }
}

/// What has been sent goes on until the command ends, and is closed then.
proof fn lemma_sent_is_closed(pid: int, events: Seq<BuckEvent>)
    ensures
        ({
            let out = reporting::sent(reporting::new_report(pid), events);
            if reporting::report_after(reporting::new_report(pid), events).finished {
                is_closed(out)
            } else {
                all_go_on(out)
            }
        }),
    decreases events.len(),
{
    let report = reporting::new_report(pid);
    if events.len() > 0 {
        lemma_sent_is_closed(pid, events.drop_last());
        let before = reporting::report_after(report, events.drop_last());
        let out = reporting::sent(report, events.drop_last());
        if before.finished {
            assert(reporting::sent(report, events) =~= out);
        } else {
            lemma_closing_step(before, out, events.last());
        }
    }
}

/// A report that has started or ended is closed, by its end or by its interruption, and
/// nothing in it comes after the last message but the closing events.
pub proof fn law_report_is_closed(pid: int, events: Seq<BuckEvent>)
    ensures
        ({
            let after = reporting::report_after(reporting::new_report(pid), events);
            let out = reporting::converted(pid, events);
            if after.started || after.finished {
                is_closed(out)
            } else {
                all_go_on(out)
            }
        }),
{
    let report = reporting::new_report(pid);
    let after = reporting::report_after(report, events);
    let out = reporting::sent(report, events);
    lemma_sent_is_closed(pid, events);
    let more = reporting::interruption(after);
    if after.started && !after.finished {
        lemma_closed(out, more[0], None, BuildStatus::CommandFailed);
        assert(out + more =~= out + seq![more[0]] + reporting::closing_events(
            None,
            BuildStatus::CommandFailed,
        ));
    } else {
        assert(out + more =~= out);
    }
}

/// The last message of a report is the end of the build, and the end of the build is
/// the last message.
pub proof fn law_last_message_ends_the_build(pid: int, events: Seq<BuckEvent>, i: int)
    requires
        0 <= i < reporting::converted(pid, events).len(),
    ensures
        match graph::bep_event(reporting::converted(pid, events)[i]) {
            Some(event) => event.last_message == (event.id == BuildEventIdView::BuildFinished),
            None => true,
        },
{
    law_report_is_closed(pid, events);
    let out = reporting::converted(pid, events);
    let n = out.len() as int;
    if is_closed(out) {
        if i < n - 4 {
            assert(goes_on(out.subrange(0, n - 4)[i]));
        } else if i > n - 4 {
            assert(out.subrange(n - 3, n)[i - (n - 3)] == out[i]);
        }
    } else {
        assert(goes_on(out[i]));
    }
}

/// Events that come after the end of the command add nothing to its report.
pub proof fn law_end_is_final(pid: int, events: Seq<BuckEvent>, later: Seq<BuckEvent>)
    requires
        reporting::report_after(reporting::new_report(pid), events).finished,
    ensures
        reporting::converted(pid, events + later) == reporting::converted(pid, events),
{
    lemma_end_is_final(reporting::new_report(pid), events, later);
}

/// Events that come after the end change neither the report nor what is sent.
proof fn lemma_end_is_final(report: Report, events: Seq<BuckEvent>, later: Seq<BuckEvent>)
    requires
        reporting::report_after(report, events).finished,
    ensures
        reporting::report_after(report, events + later) == reporting::report_after(report, events),
        reporting::sent(report, events + later) == reporting::sent(report, events),
    decreases later.len(),
{
    if later.len() == 0 {
        assert(events + later =~= events);
    } else {
        lemma_end_is_final(report, events, later.drop_last());
        assert((events + later).drop_last() =~= events + later.drop_last());
        assert(reporting::sent(report, events + later) =~= reporting::sent(report, events));
    }
}

} // verus!
