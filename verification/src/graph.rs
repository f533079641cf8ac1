//! The graph of a report: each Build Event Protocol event announces events as its
//! children.
use vstd::prelude::*;

use crate::bep;
use crate::bep::{BuildEventIdView, BuildEventView, ServiceEventView, TransportView};
use crate::buck_event::{
    BuckEvent, EventData, Instant, SpanEnd, SpanStart, Timestamp, TEST_STATUS_PASS,
};
use crate::reporting;
use crate::reporting::{Outcome, Report, TargetKey};

verus! {

/// The Build Event Protocol event that is sent, if one is.
pub open spec fn bep_event(e: TransportView) -> Option<BuildEventView> {
    match e {
        TransportView::Stream(timed) => match timed.event {
            ServiceEventView::BazelEvent { type_url, event } => Some(event),
            _ => None,
        },
        TransportView::Lifecycle(_) => None,
    }
}

/// Whether what is sent is the event `id`.
pub open spec fn is_event(e: TransportView, id: BuildEventIdView) -> bool {
    match bep_event(e) {
        Some(event) => event.id == id,
        None => false,
    }
}

/// Whether what is sent announces the event `id` as a child.
pub open spec fn announces(e: TransportView, id: BuildEventIdView) -> bool {
    match bep_event(e) {
        Some(event) => event.children.contains(id),
        None => false,
    }
}

/// Whether the event `id` is sent.
pub open spec fn emitted(out: Seq<TransportView>, id: BuildEventIdView) -> bool {
    exists|i: int| 0 <= i < out.len() && #[trigger] is_event(out[i], id)
}

/// Whether the event `id` is announced as a child.
pub open spec fn declared(out: Seq<TransportView>, id: BuildEventIdView) -> bool {
    exists|i: int| 0 <= i < out.len() && #[trigger] announces(out[i], id)
}

/// What is sent or announced by one list after another is sent or announced by either.
proof fn lemma_append(a: Seq<TransportView>, b: Seq<TransportView>)
    ensures
        forall|id: BuildEventIdView| #[trigger]
            emitted(a + b, id) == (emitted(a, id) || emitted(b, id)),
        forall|id: BuildEventIdView| #[trigger]
            declared(a + b, id) == (declared(a, id) || declared(b, id)),
{
    let c = a + b;
    assert forall|id: BuildEventIdView| #[trigger] emitted(c, id) == (emitted(a, id) || emitted(
        b,
        id,
    )) by {
        if emitted(c, id) {
            let i = choose|i: int| 0 <= i < c.len() && #[trigger] is_event(c[i], id);
            if i < a.len() {
                assert(is_event(a[i], id));
            } else {
                assert(is_event(b[i - a.len()], id));
            }
        }
        if emitted(a, id) {
            let i = choose|i: int| 0 <= i < a.len() && #[trigger] is_event(a[i], id);
            assert(is_event(c[i], id));
        }
        if emitted(b, id) {
            let i = choose|i: int| 0 <= i < b.len() && #[trigger] is_event(b[i], id);
            assert(is_event(c[i + a.len()], id));
        }
    }
    assert forall|id: BuildEventIdView| #[trigger] declared(c, id) == (declared(a, id)
        || declared(b, id)) by {
        if declared(c, id) {
            let i = choose|i: int| 0 <= i < c.len() && #[trigger] announces(c[i], id);
            if i < a.len() {
                assert(announces(a[i], id));
            } else {
                assert(announces(b[i - a.len()], id));
            }
        }
        if declared(a, id) {
            let i = choose|i: int| 0 <= i < a.len() && #[trigger] announces(a[i], id);
            assert(announces(c[i], id));
        }
        if declared(b, id) {
            let i = choose|i: int| 0 <= i < b.len() && #[trigger] announces(b[i], id);
            assert(announces(c[i + a.len()], id));
        }
    }
}

/// What one event sends and announces.
proof fn lemma_single(e: TransportView)
    ensures
        forall|id: BuildEventIdView| #[trigger] emitted(seq![e], id) == is_event(e, id),
        forall|id: BuildEventIdView| #[trigger] declared(seq![e], id) == announces(e, id),
{
    assert forall|id: BuildEventIdView| #[trigger] emitted(seq![e], id) == is_event(e, id) by {
        if is_event(e, id) {
            assert(is_event(seq![e][0], id));
        }
    }
    assert forall|id: BuildEventIdView| #[trigger] declared(seq![e], id) == announces(e, id) by {
        if announces(e, id) {
            assert(announces(seq![e][0], id));
        }
    }
}

/// Whether `id` is the identifier of one of the test results of a report.
pub open spec fn is_test_of(report: Report, id: BuildEventIdView, key: TargetKey, run: int) -> bool {
    &&& id == reporting::test_result_id(key, run)
    &&& 1 <= run <= reporting::outcomes_of(report.tests, key).len()
}

/// Whether the end of a command sends the event `id`.
spec fn end_emits(report: Report, id: BuildEventIdView) -> bool {
    ||| id == BuildEventIdView::BuildFinished
    ||| id == (BuildEventIdView::Progress { opaque_count: report.progress_count })
    ||| exists|i: int|
        0 <= i < reporting::expanded_patterns(report).len() && id == reporting::pattern_id(
            #[trigger] reporting::expanded_patterns(report)[i],
        )
    ||| exists|i: int|
        0 <= i < report.targets.len() && id == reporting::completed_id(#[trigger] report.targets[i])
    ||| exists|key: TargetKey|
        (#[trigger] reporting::outcomes_of(report.tests, key)).len() > 0 && id
            == reporting::test_summary_id(key)
}

/// Whether the end of a command announces the event `id`.
spec fn end_declares(report: Report, id: BuildEventIdView) -> bool {
    ||| exists|i: int|
        0 <= i < reporting::expanded_patterns(report).len() && id == reporting::pattern_id(
            #[trigger] reporting::expanded_patterns(report)[i],
        )
    ||| exists|i: int|
        0 <= i < report.targets.len() && id == reporting::configured_id(
            #[trigger] report.targets[i],
        )
    ||| exists|i: int|
        0 <= i < report.actions.len() && report.targets.contains(
            (#[trigger] report.actions[i]).key,
        ) && id == reporting::target_action_id(report.actions[i].key)
    ||| exists|key: TargetKey, run: int| #[trigger]
        is_test_of(report, id, key, run) && report.targets.contains(key)
    ||| exists|key: TargetKey|
        (#[trigger] reporting::outcomes_of(report.tests, key)).len() > 0 && report.targets.contains(
            key,
        ) && id == reporting::test_summary_id(key)
}

/// The last progress event announces the expansions of the patterns.
proof fn lemma_final_progress(report: Report, time: Timestamp)
    ensures
        forall|id: BuildEventIdView| #[trigger]
            is_event(reporting::final_progress(report, time), id) == (id
                == (BuildEventIdView::Progress { opaque_count: report.progress_count })),
        forall|id: BuildEventIdView| #[trigger]
            announces(reporting::final_progress(report, time), id) == (exists|i: int|
                0 <= i < reporting::expanded_patterns(report).len() && id == reporting::pattern_id(
                    #[trigger] reporting::expanded_patterns(report)[i],
                )),
{
    let patterns = reporting::expanded_patterns(report);
    let children = patterns.map_values(|p: Seq<char>| reporting::pattern_id(p));
    assert forall|id: BuildEventIdView| #[trigger]
        announces(reporting::final_progress(report, time), id) == (exists|i: int|
            0 <= i < patterns.len() && id == reporting::pattern_id(#[trigger] patterns[i])) by {
        if exists|i: int| 0 <= i < patterns.len() && id == reporting::pattern_id(#[trigger] patterns[i]) {
            let i = choose|i: int|
                0 <= i < patterns.len() && id == reporting::pattern_id(#[trigger] patterns[i]);
            assert(children[i] == id);
        }
        if children.contains(id) {
            let i = choose|i: int| 0 <= i < children.len() && children[i] == id;
            assert(id == reporting::pattern_id(patterns[i]));
        }
    }
}

/// The expansions of the patterns announce the targets.
proof fn lemma_patterns(report: Report, time: Timestamp)
    ensures
        forall|id: BuildEventIdView| #[trigger]
            emitted(reporting::pattern_events(report, time), id) == (exists|i: int|
                0 <= i < reporting::expanded_patterns(report).len() && id == reporting::pattern_id(
                    #[trigger] reporting::expanded_patterns(report)[i],
                )),
        forall|id: BuildEventIdView| #[trigger]
            declared(reporting::pattern_events(report, time), id) == (exists|i: int|
                0 <= i < report.targets.len() && id == reporting::configured_id(
                    #[trigger] report.targets[i],
                )),
{
    let patterns = reporting::expanded_patterns(report);
    let out = reporting::pattern_events(report, time);
    assert forall|id: BuildEventIdView| #[trigger] emitted(out, id) == (exists|i: int|
        0 <= i < patterns.len() && id == reporting::pattern_id(#[trigger] patterns[i])) by {
        if exists|i: int| 0 <= i < patterns.len() && id == reporting::pattern_id(#[trigger] patterns[i]) {
            let i = choose|i: int|
                0 <= i < patterns.len() && id == reporting::pattern_id(#[trigger] patterns[i]);
            assert(is_event(out[i], id));
        }
        if emitted(out, id) {
            let i = choose|i: int| 0 <= i < out.len() && #[trigger] is_event(out[i], id);
            assert(id == reporting::pattern_id(patterns[i]));
        }
    }
    assert forall|id: BuildEventIdView| #[trigger] declared(out, id) == (exists|i: int|
        0 <= i < report.targets.len() && id == reporting::configured_id(
            #[trigger] report.targets[i],
        )) by {
        let ids = report.targets.map_values(|t: TargetKey| reporting::configured_id(t));
        if exists|i: int|
            0 <= i < report.targets.len() && id == reporting::configured_id(
                #[trigger] report.targets[i],
            ) {
            let i = choose|i: int|
                0 <= i < report.targets.len() && id == reporting::configured_id(
                    #[trigger] report.targets[i],
                );
            if report.patterns.len() > 0 {
                assert(ids[i] == id);
                assert(announces(out[0], id));
            } else {
                assert(reporting::pattern_children(report, i)[0] == id);
                assert(announces(out[i], id));
            }
        }
        if declared(out, id) {
            let i = choose|i: int| 0 <= i < out.len() && #[trigger] announces(out[i], id);
            let children = reporting::pattern_children(report, i);
            let j = choose|j: int| 0 <= j < children.len() && children[j] == id;
            if report.patterns.len() > 0 {
                assert(id == reporting::configured_id(report.targets[j]));
            } else {
                assert(id == reporting::configured_id(report.targets[i]));
            }
        }
    }
}

/// A target that stands in a list has a first place there.
proof fn lemma_first(targets: Seq<TargetKey>, key: TargetKey) -> (i: int)
    requires
        targets.contains(key),
    ensures
        0 <= i < targets.len(),
        targets[i] == key,
        !reporting::is_repeated(targets, i),
    decreases targets.len(),
{
    let rest = targets.drop_last();
    if rest.contains(key) {
        let i = lemma_first(rest, key);
        assert(rest.subrange(0, i) =~= targets.subrange(0, i));
        i
    } else {
        let n = targets.len() - 1;
        let i = choose|i: int| 0 <= i < targets.len() && targets[i] == key;
        if i < n {
            assert(rest[i] == key);
        }
        assert(targets.subrange(0, n) =~= rest);
        n
    }
}

/// What the completion of a target announces for its tests.
proof fn lemma_test_children(report: Report, key: TargetKey, id: BuildEventIdView)
    ensures
        reporting::test_children(report.tests, key).contains(id) == ({
            ||| exists|run: int| #[trigger] is_test_of(report, id, key, run)
            ||| reporting::outcomes_of(report.tests, key).len() > 0 && id
                == reporting::test_summary_id(key)
        }),
{
    let children = reporting::test_children(report.tests, key);
    let count = reporting::outcomes_of(report.tests, key).len();
    if children.contains(id) {
        let j = choose|j: int| 0 <= j < children.len() && children[j] == id;
        if j < count {
            assert(is_test_of(report, id, key, j + 1));
        }
    }
    if exists|run: int| #[trigger] is_test_of(report, id, key, run) {
        let run = choose|run: int| #[trigger] is_test_of(report, id, key, run);
        assert(children[run - 1] == id);
    }
    if count > 0 && id == reporting::test_summary_id(key) {
        assert(children[count as int] == id);
    }
}

/// Whether the completions of the targets announce the event `id`.
spec fn completions_declare(report: Report, id: BuildEventIdView) -> bool {
    ||| exists|i: int|
        0 <= i < report.actions.len() && report.targets.contains(
            (#[trigger] report.actions[i]).key,
        ) && id == reporting::target_action_id(report.actions[i].key)
    ||| exists|key: TargetKey, run: int| #[trigger]
        is_test_of(report, id, key, run) && report.targets.contains(key)
    ||| exists|key: TargetKey|
        (#[trigger] reporting::outcomes_of(report.tests, key)).len() > 0 && report.targets.contains(
            key,
        ) && id == reporting::test_summary_id(key)
}

/// What one completion announces is among what the completions announce.
proof fn lemma_completion_declares(report: Report, time: Timestamp, i: int, id: BuildEventIdView)
    requires
        0 <= i < report.targets.len(),
        announces(reporting::completed_event(report, time, i), id),
    ensures
        completions_declare(report, id),
{
    let key = report.targets[i];
    assert(report.targets.contains(key));
    let actions = reporting::completed_actions(report, i);
    let ids = actions.map_values(|o: Outcome| reporting::target_action_id(o.key));
    let tests = reporting::test_children(report.tests, key);
    let children = ids + tests;
    let j = choose|j: int| 0 <= j < children.len() && children[j] == id;
    if j < ids.len() {
        reporting::lemma_outcomes(report.actions, key);
        assert(actions[j].key == key);
        let k = choose|k: int| 0 <= k < report.actions.len() && (#[trigger] report.actions[k]).key == key;
        assert(id == reporting::target_action_id(report.actions[k].key));
    } else {
        assert(tests[j - ids.len()] == id);
        assert(tests.contains(id));
        lemma_test_children(report, key, id);
        if exists|run: int| #[trigger] is_test_of(report, id, key, run) {
            let run = choose|run: int| #[trigger] is_test_of(report, id, key, run);
            assert(is_test_of(report, id, key, run) && report.targets.contains(key));
        }
    }
}

/// An event of the tests of a target is announced by its completion.
proof fn lemma_declared_by_completion(
    report: Report,
    time: Timestamp,
    key: TargetKey,
    id: BuildEventIdView,
)
    requires
        report.targets.contains(key),
        ({
            ||| exists|run: int| #[trigger] is_test_of(report, id, key, run)
            ||| reporting::outcomes_of(report.tests, key).len() > 0 && id
                == reporting::test_summary_id(key)
            ||| reporting::outcomes_of(report.actions, key).len() > 0 && id
                == reporting::target_action_id(key)
        }),
    ensures
        declared(reporting::completed_events(report, time), id),
{
    let out = reporting::completed_events(report, time);
    let i = lemma_first(report.targets, key);
    let actions = reporting::completed_actions(report, i);
    let ids = actions.map_values(|o: Outcome| reporting::target_action_id(o.key));
    let tests = reporting::test_children(report.tests, key);
    let children = ids + tests;
    lemma_test_children(report, key, id);
    if tests.contains(id) {
        let j = choose|j: int| 0 <= j < tests.len() && tests[j] == id;
        assert(children[ids.len() + j] == id);
    } else {
        reporting::lemma_outcomes(report.actions, key);
        assert(actions[0].key == key);
        assert(children[0] == ids[0]);
        assert(children[0] == id);
    }
    assert(announces(out[i], id));
}

/// The completions of the targets announce their actions and tests.
proof fn lemma_completions(report: Report, time: Timestamp)
    ensures
        forall|id: BuildEventIdView| #[trigger]
            emitted(reporting::completed_events(report, time), id) == (exists|i: int|
                0 <= i < report.targets.len() && id == reporting::completed_id(
                    #[trigger] report.targets[i],
                )),
        forall|id: BuildEventIdView| #[trigger]
            declared(reporting::completed_events(report, time), id) == completions_declare(
                report,
                id,
            ),
{
    let out = reporting::completed_events(report, time);
    assert forall|id: BuildEventIdView| #[trigger] emitted(out, id) == (exists|i: int|
        0 <= i < report.targets.len() && id == reporting::completed_id(
            #[trigger] report.targets[i],
        )) by {
        if exists|i: int|
            0 <= i < report.targets.len() && id == reporting::completed_id(
                #[trigger] report.targets[i],
            ) {
            let i = choose|i: int|
                0 <= i < report.targets.len() && id == reporting::completed_id(
                    #[trigger] report.targets[i],
                );
            assert(is_event(out[i], id));
        }
        if emitted(out, id) {
            let i = choose|i: int| 0 <= i < out.len() && #[trigger] is_event(out[i], id);
            assert(id == reporting::completed_id(report.targets[i]));
        }
    }
    assert forall|id: BuildEventIdView| #[trigger] declared(out, id) == completions_declare(
        report,
        id,
    ) by {
        if declared(out, id) {
            let i = choose|i: int| 0 <= i < out.len() && #[trigger] announces(out[i], id);
            lemma_completion_declares(report, time, i, id);
        }
        if completions_declare(report, id) {
            if exists|i: int|
                0 <= i < report.actions.len() && report.targets.contains(
                    (#[trigger] report.actions[i]).key,
                ) && id == reporting::target_action_id(report.actions[i].key) {
                let i = choose|i: int|
                    0 <= i < report.actions.len() && report.targets.contains(
                        (#[trigger] report.actions[i]).key,
                    ) && id == reporting::target_action_id(report.actions[i].key);
                let key = report.actions[i].key;
                reporting::lemma_outcomes(report.actions, key);
                lemma_declared_by_completion(report, time, key, id);
            } else if exists|key: TargetKey, run: int| #[trigger]
                is_test_of(report, id, key, run) && report.targets.contains(key) {
                let (key, run) = choose|key: TargetKey, run: int| #[trigger]
                    is_test_of(report, id, key, run) && report.targets.contains(key);
                lemma_declared_by_completion(report, time, key, id);
            } else {
                let key = choose|key: TargetKey|
                    (#[trigger] reporting::outcomes_of(report.tests, key)).len() > 0
                        && report.targets.contains(key) && id == reporting::test_summary_id(key);
                lemma_declared_by_completion(report, time, key, id);
            }
        }
    }
}

/// The summaries of the tests announce nothing.
proof fn lemma_summaries(report: Report, time: Timestamp)
    ensures
        forall|id: BuildEventIdView| #[trigger]
            emitted(reporting::summary_events(report, time), id) == (exists|key: TargetKey|
                (#[trigger] reporting::outcomes_of(report.tests, key)).len() > 0 && id
                    == reporting::test_summary_id(key)),
        forall|id: BuildEventIdView| !(#[trigger] declared(
            reporting::summary_events(report, time),
            id,
        )),
{
    let keys = reporting::keys_of(report.tests);
    let out = reporting::summary_events(report, time);
    assert forall|id: BuildEventIdView| #[trigger] emitted(out, id) == (exists|key: TargetKey|
        (#[trigger] reporting::outcomes_of(report.tests, key)).len() > 0 && id
            == reporting::test_summary_id(key)) by {
        if emitted(out, id) {
            let i = choose|i: int| 0 <= i < out.len() && #[trigger] is_event(out[i], id);
            assert(keys.contains(keys[i]));
            reporting::lemma_outcomes(report.tests, keys[i]);
            assert(id == reporting::test_summary_id(keys[i]));
        }
        if exists|key: TargetKey|
            (#[trigger] reporting::outcomes_of(report.tests, key)).len() > 0 && id
                == reporting::test_summary_id(key) {
            let key = choose|key: TargetKey|
                (#[trigger] reporting::outcomes_of(report.tests, key)).len() > 0 && id
                    == reporting::test_summary_id(key);
            reporting::lemma_outcomes(report.tests, key);
            let i = choose|i: int| 0 <= i < keys.len() && keys[i] == key;
            assert(is_event(out[i], id));
        }
    }
}

/// The end of the stream and of the lifecycle is no part of the graph.
proof fn lemma_closing(time: Option<Timestamp>, is_success: bool)
    ensures
        forall|id: BuildEventIdView| !(#[trigger] emitted(
            reporting::closing_events(time, reporting::build_status(is_success)),
            id,
        )),
        forall|id: BuildEventIdView| !(#[trigger] declared(
            reporting::closing_events(time, reporting::build_status(is_success)),
            id,
        )),
{
    let out = reporting::closing_events(time, reporting::build_status(is_success));
    assert forall|i: int| 0 <= i < out.len() implies bep_event(#[trigger] out[i]) is None by {
        assert(i == 0 || i == 1 || i == 2);
    }
}

/// What the end of a command sends and announces.
proof fn lemma_end(report: Report, time: Timestamp, is_success: bool)
    ensures
        forall|id: BuildEventIdView| #[trigger]
            emitted(reporting::end_events(report, time, is_success), id) == end_emits(report, id),
        forall|id: BuildEventIdView| #[trigger]
            declared(reporting::end_events(report, time, is_success), id) == end_declares(
                report,
                id,
            ),
{
    let a = seq![reporting::final_progress(report, time)];
    let b = reporting::pattern_events(report, time);
    let c = reporting::completed_events(report, time);
    let d = reporting::summary_events(report, time);
    let e = seq![reporting::finished_event(time, is_success)];
    let f = reporting::closing_events(Some(time), reporting::build_status(is_success));
    lemma_single(reporting::final_progress(report, time));
    lemma_final_progress(report, time);
    lemma_patterns(report, time);
    lemma_completions(report, time);
    lemma_summaries(report, time);
    lemma_single(reporting::finished_event(time, is_success));
    lemma_closing(Some(time), is_success);
    lemma_append(a, b);
    lemma_append(a + b, c);
    lemma_append(a + b + c, d);
    lemma_append(a + b + c + d, e);
    lemma_append(a + b + c + d + e, f);
}

/// What the start of a command sends and announces.
proof fn lemma_start(pid: int, time: Timestamp, trace_id: Seq<char>, args: Seq<Seq<char>>)
    ensures
        forall|id: BuildEventIdView| #[trigger]
            emitted(reporting::start_events(pid, time, trace_id, args), id) == (id
                == BuildEventIdView::Started || id == BuildEventIdView::UnstructuredCommandLine),
        forall|id: BuildEventIdView| #[trigger]
            declared(reporting::start_events(pid, time, trace_id, args), id) == (id
                == BuildEventIdView::BuildFinished || id
                == BuildEventIdView::UnstructuredCommandLine || id == (BuildEventIdView::Progress {
                opaque_count: 0,
            })),
{
    let out = reporting::start_events(pid, time, trace_id, args);
    assert(out =~= seq![out[0]] + seq![out[1]] + seq![out[2]] + seq![out[3]]);
    lemma_single(out[0]);
    lemma_single(out[1]);
    lemma_single(out[2]);
    lemma_single(out[3]);
    lemma_append(seq![out[0]], seq![out[1]]);
    lemma_append(seq![out[0]] + seq![out[1]], seq![out[2]]);
    lemma_append(seq![out[0]] + seq![out[1]] + seq![out[2]], seq![out[3]]);
    let children = seq![
        BuildEventIdView::BuildFinished,
        BuildEventIdView::UnstructuredCommandLine,
        BuildEventIdView::Progress { opaque_count: 0 },
    ];
    assert(children[0] == BuildEventIdView::BuildFinished);
    assert(children[1] == BuildEventIdView::UnstructuredCommandLine);
    assert(children[2] == (BuildEventIdView::Progress { opaque_count: 0 }));
}

/// What the analysis of a target sends and announces.
proof fn lemma_analysis(time: Timestamp, key: TargetKey, rule: Seq<char>, new_config: bool)
    ensures
        forall|id: BuildEventIdView| #[trigger]
            emitted(reporting::analysis_events(time, key, rule, new_config), id) == (id
                == reporting::configured_id(key) || new_config && id
                == (BuildEventIdView::Configuration { id: key.config })),
        forall|id: BuildEventIdView| #[trigger]
            declared(reporting::analysis_events(time, key, rule, new_config), id) == (id
                == reporting::completed_id(key) || new_config && id
                == (BuildEventIdView::Configuration { id: key.config })),
{
    let out = reporting::analysis_events(time, key, rule, new_config);
    let config_id = BuildEventIdView::Configuration { id: key.config };
    lemma_single(out[0]);
    if new_config {
        assert(out =~= seq![out[0]] + seq![out[1]]);
        lemma_single(out[1]);
        lemma_append(seq![out[0]], seq![out[1]]);
        let children = seq![reporting::completed_id(key), config_id];
        assert(children[0] == reporting::completed_id(key));
        assert(children[1] == config_id);
    } else {
        assert(out =~= seq![out[0]]);
        let children = seq![reporting::completed_id(key)];
        assert(children[0] == reporting::completed_id(key));
    }
}

/// What a message sends and announces.
proof fn lemma_progress(time: Timestamp, count: int, stdout: Seq<char>, stderr: Seq<char>)
    ensures
        forall|id: BuildEventIdView| #[trigger]
            emitted(seq![reporting::progress_event(time, count, stdout, stderr)], id) == (id
                == (BuildEventIdView::Progress { opaque_count: count })),
        forall|id: BuildEventIdView| #[trigger]
            declared(seq![reporting::progress_event(time, count, stdout, stderr)], id) == (id
                == (BuildEventIdView::Progress { opaque_count: count + 1 })),
{
    lemma_single(reporting::progress_event(time, count, stdout, stderr));
    let next = BuildEventIdView::Progress { opaque_count: count + 1 };
    assert(seq![next][0] == next);
}

/// The identifier of a progress event.
pub open spec fn progress_id(n: int) -> BuildEventIdView {
    BuildEventIdView::Progress { opaque_count: n }
}

/// Whether the event `id` has been announced and is still to come.
spec fn pending(report: Report, id: BuildEventIdView) -> bool {
    ||| id == BuildEventIdView::BuildFinished
    ||| id == (BuildEventIdView::Progress { opaque_count: report.progress_count })
    ||| exists|i: int|
        0 <= i < report.targets.len() && id == reporting::completed_id(#[trigger] report.targets[i])
}

/// What is still to come stays so when a target is added.
proof fn lemma_pending_push(before: Report, after: Report, key: TargetKey)
    requires
        after.targets == before.targets.push(key),
        after.progress_count == before.progress_count,
    ensures
        forall|id: BuildEventIdView| #[trigger] pending(before, id) ==> pending(after, id),
        pending(after, reporting::completed_id(key)),
{
    assert forall|id: BuildEventIdView| #[trigger] pending(before, id) implies pending(after, id) by {
        if exists|i: int|
            0 <= i < before.targets.len() && id == reporting::completed_id(
                #[trigger] before.targets[i],
            ) {
            let i = choose|i: int|
                0 <= i < before.targets.len() && id == reporting::completed_id(
                    #[trigger] before.targets[i],
                );
            assert(id == reporting::completed_id(after.targets[i]));
        }
    }
    assert(after.targets[before.targets.len() as int] == key);
}

/// While a command runs, what has been announced has been sent or is still to come, and
/// what will be announced at its end has been sent.
spec fn children_follow(report: Report, out: Seq<TransportView>) -> bool {
    if report.finished {
        forall|id: BuildEventIdView| #[trigger] declared(out, id) ==> emitted(out, id)
    } else {
        &&& forall|id: BuildEventIdView| #[trigger]
            declared(out, id) ==> emitted(out, id) || pending(report, id)
        &&& report.progress_count >= 0
        &&& forall|n: int|
            0 <= n < report.progress_count ==> emitted(out, #[trigger] progress_id(n))
        &&& forall|i: int|
            0 <= i < report.targets.len() ==> emitted(
                out,
                reporting::configured_id(#[trigger] report.targets[i]),
            )
        &&& forall|i: int|
            0 <= i < report.actions.len() ==> emitted(
                out,
                reporting::target_action_id((#[trigger] report.actions[i]).key),
            )
        &&& forall|key: TargetKey, run: int|
            1 <= run <= reporting::outcomes_of(report.tests, key).len() ==> emitted(
                out,
                #[trigger] reporting::test_result_id(key, run),
            )
    }
}

/// The end of a command sends all that was still to come.
proof fn lemma_children_end(report: Report, out: Seq<TransportView>, time: Timestamp, success: bool)
    requires
        !report.finished,
        children_follow(report, out),
    ensures
        children_follow(
            Report { finished: true, ..report },
            out + reporting::end_events(report, time, success),
        ),
{
    let more = reporting::end_events(report, time, success);
    lemma_append(out, more);
    lemma_end(report, time, success);
    assert forall|id: BuildEventIdView| #[trigger] declared(out + more, id) implies emitted(
        out + more,
        id,
    ) by {
        if declared(out, id) {
            if pending(report, id) {
                assert(end_emits(report, id));
                assert(emitted(more, id));
            }
        } else {
            assert(declared(more, id));
            assert(end_declares(report, id));
            if !end_emits(report, id) {
                assert(emitted(out, id));
            } else {
                assert(emitted(more, id));
            }
        }
    }
}

/// A step keeps what [`children_follow`] says.
proof fn lemma_children_step(report: Report, out: Seq<TransportView>, event: BuckEvent)
    requires
        children_follow(report, out),
    ensures
        children_follow(
            reporting::step(report, event).0,
            out + reporting::step(report, event).1,
        ),
{
    let time = event.timestamp;
    let (after, more) = reporting::step(report, event);
    lemma_append(out, more);
    if report.finished || more.len() == 0 {
        assert(out + more =~= out);
    }
    if !report.finished {
        match event.data {
            EventData::SpanStart(Some(SpanStart::Command(command))) => {
                lemma_start(
                    report.server_pid,
                    time,
                    event.trace_id@,
                    bep::texts(command.cli_args@),
                );
                if reporting::is_reported(command.kind) {
                    assert forall|id: BuildEventIdView| #[trigger]
                        declared(out + more, id) implies emitted(out + more, id) || pending(
                        after,
                        id,
                    ) by {
                        if id == (BuildEventIdView::Progress { opaque_count: 0 })
                            && report.progress_count != 0 {
                            assert(emitted(out, progress_id(0)));
                        }
                    }
                }
            },
            EventData::SpanStart(Some(SpanStart::Analysis(analysis))) => {
                match reporting::analyzed(analysis) {
                    Some(key) => {
                        lemma_analysis(
                            time,
                            key,
                            analysis.rule@,
                            !report.configurations.contains(key.config),
                        );
                        lemma_pending_push(report, after, key);
                        assert(after.targets[report.targets.len() as int] == key);
                    },
                    None => {},
                }
            },
            EventData::SpanEnd(Some(SpanEnd::Command(command))) => {
                if reporting::is_reported(command.kind) {
                    lemma_children_end(report, out, time, command.is_success);
                }
            },
            EventData::SpanEnd(Some(SpanEnd::ActionExecution(action))) => {
                lemma_single(reporting::action_event(time, action));
            },
            EventData::Instant(Some(Instant::ConsoleMessage(message)))
            | EventData::Instant(Some(Instant::ConsoleWarning(message))) => {
                lemma_progress(time, report.progress_count, seq![], message@);
            },
            EventData::Instant(Some(Instant::StreamingOutput(message))) => {
                lemma_progress(time, report.progress_count, message@, seq![]);
            },
            EventData::Instant(Some(Instant::TestResult(result))) => {
                match reporting::tested(result) {
                    Some(key) => {
                        let run = (reporting::outcomes_of(report.tests, key).len() + 1) as int;
                        lemma_single(reporting::test_result_event(time, key, run, result));
                        assert forall|k: TargetKey, r: int|
                            1 <= r <= reporting::outcomes_of(after.tests, k).len() implies emitted(
                            out + more,
                            #[trigger] reporting::test_result_id(k, r),
                        ) by {
                            reporting::lemma_outcomes_push(
                                report.tests,
                                Outcome { key, success: result.status == TEST_STATUS_PASS },
                                k,
                            );
                            if r <= reporting::outcomes_of(report.tests, k).len() {
                                assert(emitted(out, reporting::test_result_id(k, r)));
                            }
                        }
                    },
                    None => {},
                }
            },
            _ => {},
        }
    }
}

/// What [`children_follow`] says holds throughout a report.
proof fn lemma_children_follow(pid: int, events: Seq<BuckEvent>)
    ensures
        children_follow(
            reporting::report_after(reporting::new_report(pid), events),
            reporting::sent(reporting::new_report(pid), events),
        ),
    decreases events.len(),
{
    reveal(Seq::filter);
    if events.len() > 0 {
        lemma_children_follow(pid, events.drop_last());
        lemma_children_step(
            reporting::report_after(reporting::new_report(pid), events.drop_last()),
            reporting::sent(reporting::new_report(pid), events.drop_last()),
            events.last(),
        );
    }
}

/// In the report of a command that has ended, every event that is announced as a child
/// is sent.
pub proof fn law_announced_events_are_sent(pid: int, events: Seq<BuckEvent>, id: BuildEventIdView)
    requires
        reporting::report_after(reporting::new_report(pid), events).finished,
        declared(reporting::converted(pid, events), id),
    ensures
        emitted(reporting::converted(pid, events), id),
{
    lemma_children_follow(pid, events);
    let out = reporting::sent(reporting::new_report(pid), events);
    assert(reporting::converted(pid, events) =~= out);
}

/// Whether every action that is reported belongs to a configured target.
pub open spec fn actions_have_targets(report: Report, events: Seq<BuckEvent>) -> bool
    decreases events.len(),
{
    events.len() > 0 ==> {
        let before = reporting::report_after(report, events.drop_last());
        &&& actions_have_targets(report, events.drop_last())
        &&& before.finished || match events.last().data {
            EventData::SpanEnd(Some(SpanEnd::ActionExecution(action))) => reporting::owner_key(
                action.owner,
            ) is Some,
            _ => true,
        }
    }
}

/// Whether all outcomes are of targets whose analysis is reported.
pub open spec fn are_analyzed(report: Report, outcomes: Seq<Outcome>) -> bool {
    forall|i: int|
        0 <= i < outcomes.len() ==> report.targets.contains((#[trigger] outcomes[i]).key)
}

/// Whether the event `id` has been sent and will be announced.
spec fn awaiting(report: Report, id: BuildEventIdView) -> bool {
    ||| id == progress_id(0)
    ||| exists|i: int|
        0 <= i < report.targets.len() && id == reporting::configured_id(
            #[trigger] report.targets[i],
        )
    ||| exists|i: int|
        0 <= i < report.actions.len() && id == reporting::target_action_id(
            (#[trigger] report.actions[i]).key,
        )
    ||| exists|key: TargetKey, run: int| #[trigger] is_test_of(report, id, key, run)
}

/// What is sent has been announced, or will be.
spec fn parents_exist(report: Report, out: Seq<TransportView>) -> bool {
    &&& report.started ==> declared(out, BuildEventIdView::BuildFinished) && declared(
        out,
        progress_id(0),
    )
    &&& report.progress_count >= 0
    &&& report.progress_count > 0 ==> declared(out, progress_id(report.progress_count))
    &&& forall|i: int|
        0 <= i < report.targets.len() ==> declared(
            out,
            reporting::completed_id(#[trigger] report.targets[i]),
        )
    &&& if report.finished {
        report.started && are_analyzed(report, report.actions) && are_analyzed(
            report,
            report.tests,
        ) ==> forall|id: BuildEventIdView| #[trigger]
            emitted(out, id) ==> id == BuildEventIdView::Started || declared(out, id)
    } else {
        forall|id: BuildEventIdView| #[trigger]
            emitted(out, id) ==> id == BuildEventIdView::Started || declared(out, id) || awaiting(
                report,
                id,
            )
    }
}

/// The end of a command announces all that was still to be announced.
proof fn lemma_parents_end(report: Report, out: Seq<TransportView>, time: Timestamp, success: bool)
    requires
        !report.finished,
        parents_exist(report, out),
    ensures
        parents_exist(
            Report { finished: true, ..report },
            out + reporting::end_events(report, time, success),
        ),
{
    let more = reporting::end_events(report, time, success);
    lemma_append(out, more);
    lemma_end(report, time, success);
    if report.started && are_analyzed(report, report.actions) && are_analyzed(
        report,
        report.tests,
    ) {
        assert forall|key: TargetKey|
            (#[trigger] reporting::outcomes_of(report.tests, key)).len()
                > 0 implies report.targets.contains(key) by {
            reporting::lemma_outcomes(report.tests, key);
        }
        assert forall|id: BuildEventIdView| #[trigger] emitted(out + more, id) implies id
            == BuildEventIdView::Started || declared(out + more, id) by {
            if emitted(out, id) {
                if id != BuildEventIdView::Started && !declared(out, id) {
                    assert(awaiting(report, id));
                    if exists|key: TargetKey, run: int| #[trigger] is_test_of(report, id, key, run) {
                        let (key, run) = choose|key: TargetKey, run: int| #[trigger]
                            is_test_of(report, id, key, run);
                        assert(is_test_of(report, id, key, run) && report.targets.contains(key));
                    }
                    assert(id == progress_id(0) || end_declares(report, id));
                }
            } else {
                assert(end_emits(report, id));
                assert(declared(out, id) || end_declares(report, id));
            }
        }
    }
}

/// What will be announced stays so.
proof fn lemma_awaiting_grows(before: Report, after: Report)
    requires
        before.targets.len() <= after.targets.len(),
        after.targets.subrange(0, before.targets.len() as int) == before.targets,
        before.actions.len() <= after.actions.len(),
        after.actions.subrange(0, before.actions.len() as int) == before.actions,
        forall|key: TargetKey|
            (#[trigger] reporting::outcomes_of(before.tests, key)).len()
                <= reporting::outcomes_of(after.tests, key).len(),
    ensures
        forall|id: BuildEventIdView| #[trigger] awaiting(before, id) ==> awaiting(after, id),
{
    assert forall|id: BuildEventIdView| #[trigger] awaiting(before, id) implies awaiting(
        after,
        id,
    ) by {
        if id == progress_id(0) {
        } else if exists|i: int|
            0 <= i < before.targets.len() && id == reporting::configured_id(
                #[trigger] before.targets[i],
            ) {
            let i = choose|i: int|
                0 <= i < before.targets.len() && id == reporting::configured_id(
                    #[trigger] before.targets[i],
                );
            assert(after.targets[i] == before.targets[i]) by {
                assert(after.targets.subrange(0, before.targets.len() as int)[i]
                    == after.targets[i]);
            }
        } else if exists|i: int|
            0 <= i < before.actions.len() && id == reporting::target_action_id(
                (#[trigger] before.actions[i]).key,
            ) {
            let i = choose|i: int|
                0 <= i < before.actions.len() && id == reporting::target_action_id(
                    (#[trigger] before.actions[i]).key,
                );
            assert(after.actions[i] == before.actions[i]) by {
                assert(after.actions.subrange(0, before.actions.len() as int)[i]
                    == after.actions[i]);
            }
        } else {
            let (key, run) = choose|key: TargetKey, run: int| #[trigger]
                is_test_of(before, id, key, run);
            assert(is_test_of(after, id, key, run));
        }
    }
}

/// A step keeps what [`parents_exist`] says.
proof fn lemma_parents_step(report: Report, out: Seq<TransportView>, event: BuckEvent)
    requires
        parents_exist(report, out),
        report.finished || match event.data {
            EventData::SpanEnd(Some(SpanEnd::ActionExecution(action))) => reporting::owner_key(
                action.owner,
            ) is Some,
            _ => true,
        },
    ensures
        parents_exist(
            reporting::step(report, event).0,
            out + reporting::step(report, event).1,
        ),
{
    let time = event.timestamp;
    let (after, more) = reporting::step(report, event);
    lemma_append(out, more);
    if report.finished || more.len() == 0 {
        assert(out + more =~= out);
    }
    if !report.finished {
        assert(report.targets.subrange(0, report.targets.len() as int) =~= report.targets);
        assert(report.actions.subrange(0, report.actions.len() as int) =~= report.actions);
        match event.data {
            EventData::SpanStart(Some(SpanStart::Command(command))) => {
                lemma_start(
                    report.server_pid,
                    time,
                    event.trace_id@,
                    bep::texts(command.cli_args@),
                );
                lemma_awaiting_grows(report, after);
            },
            EventData::SpanStart(Some(SpanStart::Analysis(analysis))) => {
                match reporting::analyzed(analysis) {
                    Some(key) => {
                        lemma_analysis(
                            time,
                            key,
                            analysis.rule@,
                            !report.configurations.contains(key.config),
                        );
                        assert(after.targets.subrange(0, report.targets.len() as int)
                            =~= report.targets);
                        lemma_awaiting_grows(report, after);
                        assert(after.targets[report.targets.len() as int] == key);
                    },
                    None => {},
                }
            },
            EventData::SpanEnd(Some(SpanEnd::Command(command))) => {
                if reporting::is_reported(command.kind) {
                    lemma_parents_end(report, out, time, command.is_success);
                }
            },
            EventData::SpanEnd(Some(SpanEnd::ActionExecution(action))) => {
                lemma_single(reporting::action_event(time, action));
                let key = reporting::owner_key(action.owner)->0;
                assert(after.actions.subrange(0, report.actions.len() as int) =~= report.actions);
                lemma_awaiting_grows(report, after);
                assert(after.actions[report.actions.len() as int].key == key);
            },
            EventData::Instant(Some(Instant::TargetPatterns(patterns))) => {
                lemma_awaiting_grows(report, after);
            },
            EventData::Instant(Some(Instant::ConsoleMessage(message)))
            | EventData::Instant(Some(Instant::ConsoleWarning(message))) => {
                lemma_progress(time, report.progress_count, seq![], message@);
                lemma_awaiting_grows(report, after);
            },
            EventData::Instant(Some(Instant::StreamingOutput(message))) => {
                lemma_progress(time, report.progress_count, message@, seq![]);
                lemma_awaiting_grows(report, after);
            },
            EventData::Instant(Some(Instant::TestResult(result))) => {
                match reporting::tested(result) {
                    Some(key) => {
                        let run = (reporting::outcomes_of(report.tests, key).len() + 1) as int;
                        let o = Outcome { key, success: result.status == TEST_STATUS_PASS };
                        lemma_single(reporting::test_result_event(time, key, run, result));
                        assert forall|k: TargetKey|
                            (#[trigger] reporting::outcomes_of(report.tests, k)).len()
                                <= reporting::outcomes_of(after.tests, k).len() by {
                            reporting::lemma_outcomes_push(report.tests, o, k);
                        }
                        reporting::lemma_outcomes_push(report.tests, o, key);
                        lemma_awaiting_grows(report, after);
                        assert(is_test_of(after, reporting::test_result_id(key, run), key, run));
                    },
                    None => {},
                }
            },
            _ => {},
        }
    }
}

/// What [`parents_exist`] says holds throughout a report.
proof fn lemma_parents_exist(pid: int, events: Seq<BuckEvent>)
    requires
        actions_have_targets(reporting::new_report(pid), events),
    ensures
        parents_exist(
            reporting::report_after(reporting::new_report(pid), events),
            reporting::sent(reporting::new_report(pid), events),
        ),
    decreases events.len(),
{
    if events.len() > 0 {
        lemma_parents_exist(pid, events.drop_last());
        lemma_parents_step(
            reporting::report_after(reporting::new_report(pid), events.drop_last()),
            reporting::sent(reporting::new_report(pid), events.drop_last()),
            events.last(),
        );
    }
}

/// In the report of a command that has started and ended, and whose actions and tests
/// belong to targets whose analysis is reported, every event but the first one is
/// announced as a child.
pub proof fn law_sent_events_are_announced(pid: int, events: Seq<BuckEvent>, id: BuildEventIdView)
    requires
        actions_have_targets(reporting::new_report(pid), events),
        ({
            let report = reporting::report_after(reporting::new_report(pid), events);
            &&& report.started
            &&& report.finished
            &&& are_analyzed(report, report.actions)
            &&& are_analyzed(report, report.tests)
        }),
        emitted(reporting::converted(pid, events), id),
        id != BuildEventIdView::Started,
    ensures
        declared(reporting::converted(pid, events), id),
{
    lemma_parents_exist(pid, events);
    let out = reporting::sent(reporting::new_report(pid), events);
    assert(reporting::converted(pid, events) =~= out);
}

} // verus!
