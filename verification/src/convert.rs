//! Turning the events of a command into the events of a Build Event Service.
use vstd::hash_set::StringHashSet;
use vstd::prelude::*;

use crate::bep;
use crate::bep::{
    AbortReason, ActionExecuted, BesTransportEvent, BuildEvent, BuildEventId, BuildStarted,
    BuildStatus, File, FinishType, Payload, ServiceEvent, TestStatus, TimedEvent,
    BAZEL_EVENT_TYPE_URL,
};
use crate::buck_event::{
    ActionExecutionEnd, ActionOwner, AnalysisStart, AnalysisTarget, BuckEvent, Command,
    CommandDetails, CommandKind, CommandStart, ConfiguredTargetLabel, EventData,
    ExecutionMetadata, Instant, SpanEnd, SpanStart, TargetLabel, TestResult, TimeSpan, Timestamp,
    TEST_STATUS_PASS,
};
use crate::reporting;
use crate::reporting::{Outcome, Report, TargetKey, NANOS_PER_SECOND};

verus! {

/// Converts a Buck2 label to a valid Bazel label.
///
/// Buck2 labels have the form `cell//pkg:target`, and a Build Event Service that parses
/// them as Bazel labels rejects the cell. The label of an external repository,
/// `@cell//pkg:target`, is valid, though cells are not repositories.
pub fn bazel_label(package: &str, name: &str) -> (label: String)
    ensures
        label@ == reporting::bazel_label_text(package@, name@),
{
    let mut chars = package.chars();
    let first = chars.next();
    let second = chars.next();
    let rooted = match (first, second) {
        (Some(a), Some(b)) => a == '/' && b == '/',
        _ => false,
    };
    let external = match first {
        Some(a) => a == '@',
        None => false,
    };
    assert(rooted == reporting::is_rooted(package@));
    assert(external == reporting::is_external(package@));
    let mut label = String::new();
    if !(rooted || external) {
        label.append("@");
    }
    label.append(package);
    label.append(":");
    label.append(name);
    proof {
        reveal_strlit("@");
        reveal_strlit(":");
        assert("@"@ =~= seq!['@']);
        assert(":"@ =~= seq![':']);
        assert(label@ =~= reporting::bazel_label_text(package@, name@));
    }
    label
}

/// An event of the build tool's stream.
fn stream_event(time: Option<Timestamp>, event: ServiceEvent) -> (e: BesTransportEvent)
    ensures
        e@ == reporting::stream(time, event@),
{
    BesTransportEvent::Stream(TimedEvent { event_time: time, event })
}

/// A lifecycle event.
fn lifecycle_event(time: Option<Timestamp>, event: ServiceEvent) -> (e: BesTransportEvent)
    ensures
        e@ == reporting::lifecycle(time, event@),
{
    BesTransportEvent::Lifecycle(TimedEvent { event_time: time, event })
}

/// A Build Event Protocol event on the build tool's stream.
fn bazel_event(time: Option<Timestamp>, event: BuildEvent) -> (e: BesTransportEvent)
    ensures
        e@ == reporting::bazel(time, event@),
{
    stream_event(
        time,
        ServiceEvent::BazelEvent { type_url: BAZEL_EVENT_TYPE_URL.to_owned(), event },
    )
}

/// A Build Event Protocol event that others may follow.
fn report_event(
    time: Timestamp,
    id: BuildEventId,
    children: Vec<BuildEventId>,
    payload: Payload,
) -> (e: BesTransportEvent)
    ensures
        e@ == reporting::report_event(time, id@, bep::id_views(children@), payload@),
{
    bazel_event(Some(time), BuildEvent { id, children, last_message: false, payload })
}

/// A copy of a list of strings.
fn copy_strings(strings: &Vec<String>) -> (copy: Vec<String>)
    ensures
        bep::texts(copy@) == bep::texts(strings@),
{
    let copy = strings.clone();
    assert(bep::texts(copy@) =~= bep::texts(strings@));
    copy
}

/// What the start of a reported command sends.
fn start_events(server_pid: i64, time: Timestamp, trace_id: &String, command: &CommandStart) -> (out:
    Vec<BesTransportEvent>)
    ensures
        bep::views(out@) == reporting::start_events(
            server_pid as int,
            time,
            trace_id@,
            bep::texts(command.cli_args@),
        ),
{
    let enqueued = lifecycle_event(Some(time), ServiceEvent::BuildEnqueued);
    let attempt = lifecycle_event(
        Some(time),
        ServiceEvent::InvocationAttemptStarted { attempt_number: 1 },
    );
    let children = vec![
        BuildEventId::BuildFinished,
        BuildEventId::UnstructuredCommandLine,
        BuildEventId::Progress { opaque_count: 0 },
    ];
    assert(bep::id_views(children@) =~= seq![
        bep::BuildEventIdView::BuildFinished,
        bep::BuildEventIdView::UnstructuredCommandLine,
        bep::BuildEventIdView::Progress { opaque_count: 0 },
    ]);
    let started = report_event(
        time,
        BuildEventId::Started,
        children,
        Payload::Started(
            BuildStarted {
                uuid: trace_id.clone(),
                start_time: time,
                build_tool_version: "BUCK2".to_owned(),
                options_description: "UNKNOWN".to_owned(),
                command: "build".to_owned(),
                working_directory: "UNKNOWN".to_owned(),
                workspace_directory: "UNKNOWN".to_owned(),
                server_pid,
            },
        ),
    );
    let command_line = leaf_event(
        time,
        BuildEventId::UnstructuredCommandLine,
        Payload::UnstructuredCommandLine { args: copy_strings(&command.cli_args) },
    );
    let out = vec![enqueued, attempt, started, command_line];
    assert(bep::views(out@) =~= reporting::start_events(
        server_pid as int,
        time,
        trace_id@,
        bep::texts(command.cli_args@),
    ));
    out
}

/// A target by its Bazel label, and the name of its configuration.
#[derive(Debug)]
struct TargetName {
    label: String,
    config: String,
}

impl TargetName {
    spec fn key(self) -> TargetKey {
        TargetKey { label: self.label@, config: self.config@ }
    }

    /// Whether two names are those of one configured target.
    fn is(&self, other: &TargetName) -> (same: bool)
        ensures
            same == (self.key() == other.key()),
    {
        self.label == other.label && self.config == other.config
    }

    fn copy(&self) -> (c: TargetName)
        ensures
            c.key() == self.key(),
    {
        TargetName { label: self.label.clone(), config: self.config.clone() }
    }

    /// The identifier of the completion of the target.
    fn completed_id(&self) -> (id: BuildEventId)
        ensures
            id@ == reporting::completed_id(self.key()),
    {
        BuildEventId::TargetCompleted {
            label: self.label.clone(),
            configuration: self.config.clone(),
        }
    }

    /// The identifier of the configuration of the target.
    fn configured_id(&self) -> (id: BuildEventId)
        ensures
            id@ == reporting::configured_id(self.key()),
    {
        BuildEventId::TargetConfigured { label: self.label.clone() }
    }

    /// The identifier of the completion of an action of the target.
    fn action_id(&self) -> (id: BuildEventId)
        ensures
            id@ == reporting::target_action_id(self.key()),
    {
        action_id(Some(self.label.clone()), Some(self.config.clone()))
    }

    /// The identifier of a test result of the target.
    fn test_result_id(&self, run: i32) -> (id: BuildEventId)
        ensures
            id@ == reporting::test_result_id(self.key(), run as int),
    {
        BuildEventId::TestResult {
            label: self.label.clone(),
            configuration: self.config.clone(),
            run,
            shard: 1,
            attempt: 1,
        }
    }

    /// The identifier of the summary of the tests of the target.
    fn test_summary_id(&self) -> (id: BuildEventId)
        ensures
            id@ == reporting::test_summary_id(self.key()),
    {
        BuildEventId::TestSummary { label: self.label.clone(), configuration: self.config.clone() }
    }
}

/// The outcome of an action or of a test of a target.
#[derive(Debug)]
struct Record {
    target: TargetName,
    success: bool,
}

impl Record {
    spec fn outcome(self) -> Outcome {
        Outcome { key: self.target.key(), success: self.success }
    }
}

spec fn keys(s: Seq<TargetName>) -> Seq<TargetKey> {
    s.map_values(|t: TargetName| t.key())
}

spec fn outcomes(s: Seq<Record>) -> Seq<Outcome> {
    s.map_values(|r: Record| r.outcome())
}

/// The identifier of the completion of an action.
fn action_id(label: Option<String>, configuration: Option<String>) -> (id: BuildEventId)
    ensures
        id@ == reporting::action_id(bep::text_of(label), bep::text_of(configuration)),
{
    BuildEventId::ActionCompleted {
        configuration,
        label: match label {
            Some(label) => label,
            None => "UNKNOWN".to_owned(),
        },
        primary_output: "UNKNOWN".to_owned(),
    }
}

/// The Bazel label of an optional target label.
fn optional_label(label: &Option<TargetLabel>) -> (text: Option<String>)
    ensures
        bep::text_of(text) == (match *label {
            Some(l) => Some(reporting::label_text(l)),
            None => None,
        }),
{
    match label {
        Some(label) => Some(bazel_label(label.package.as_str(), label.name.as_str())),
        None => None,
    }
}

/// A copy of an optional string.
fn optional_copy(s: &Option<String>) -> (c: Option<String>)
    ensures
        c == *s,
{
    match s {
        Some(s) => Some(s.clone()),
        None => None,
    }
}

/// The target and configuration of a label, if it has both.
fn target_name(label: &ConfiguredTargetLabel) -> (name: Option<TargetName>)
    ensures
        match name {
            Some(name) => reporting::target_key(*label) == Some(name.key()),
            None => reporting::target_key(*label) is None,
        },
{
    match (optional_label(&label.label), optional_copy(&label.configuration)) {
        (Some(label), Some(config)) => Some(TargetName { label, config }),
        _ => None,
    }
}

/// The target whose analysis is reported, if it is a configured target.
fn analyzed(analysis: &AnalysisStart) -> (name: Option<TargetName>)
    ensures
        match name {
            Some(name) => reporting::analyzed(*analysis) == Some(name.key()),
            None => reporting::analyzed(*analysis) is None,
        },
{
    match &analysis.target {
        Some(AnalysisTarget::Standard(label)) => target_name(label),
        _ => None,
    }
}

/// What the analysis of a target sends.
fn analysis_events(time: Timestamp, target: &TargetName, rule: &String, new_config: bool) -> (out:
    Vec<BesTransportEvent>)
    ensures
        bep::views(out@) == reporting::analysis_events(time, target.key(), rule@, new_config),
{
    let mut children: Vec<BuildEventId> = vec![target.completed_id()];
    if new_config {
        children.push(BuildEventId::Configuration { id: target.config.clone() });
    }
    assert(bep::id_views(children@) =~= if new_config {
        seq![
            reporting::completed_id(target.key()),
            bep::BuildEventIdView::Configuration { id: target.key().config },
        ]
    } else {
        seq![reporting::completed_id(target.key())]
    });
    let target_kind = if rule.as_str().is_empty() {
        "unknown rule type".to_owned()
    } else {
        rule.clone()
    };
    let mut out: Vec<BesTransportEvent> = vec![
        report_event(
            time,
            target.configured_id(),
            children,
            Payload::Configured { target_kind },
        ),
    ];
    if new_config {
        out.push(
            leaf_event(
                time,
                BuildEventId::Configuration { id: target.config.clone() },
                Payload::Configuration,
            ),
        );
    }
    assert(bep::views(out@) =~= reporting::analysis_events(time, target.key(), rule@, new_config));
    out
}

/// The label and the configuration of the owner of an action.
fn owner_parts(owner: &Option<ActionOwner>) -> (parts: (Option<String>, Option<String>))
    ensures
        bep::text_of(parts.0) == reporting::owner_label(*owner),
        bep::text_of(parts.1) == reporting::owner_configuration(*owner),
{
    match owner {
        Some(ActionOwner::Target(t))
        | Some(ActionOwner::TestTarget(t))
        | Some(ActionOwner::LocalResourceSetup(t)) => (
            optional_label(&t.label),
            optional_copy(&t.configuration),
        ),
        Some(ActionOwner::AnonTarget(label)) => (optional_label(label), None),
        Some(ActionOwner::Bxl) => (None, None),
        None => (None, None),
    }
}

/// The details of the last command of an action.
fn last_details(action: &ActionExecutionEnd) -> (details: &Option<CommandDetails>)
    ensures
        *details == reporting::last_details(*action),
{
    if action.commands.len() == 0 {
        &None
    } else {
        &action.commands[action.commands.len() - 1]
    }
}

/// A prefix and a digest, as a command line of one part.
fn digest_line(prefix: &str, digest: &String) -> (line: Vec<String>)
    ensures
        bep::texts(line@) == seq![prefix@ + digest@],
{
    let mut text = prefix.to_owned();
    text.append(digest.as_str());
    let line = vec![text];
    assert(bep::texts(line@) =~= seq![prefix@ + digest@]);
    line
}

/// The command line that is reported for a command.
fn command_line(command: &Option<Command>) -> (line: Vec<String>)
    ensures
        bep::texts(line@) == reporting::command_line(*command),
{
    match command {
        None => {
            let line: Vec<String> = vec![];
            assert(bep::texts(line@) =~= seq![]);
            line
        },
        Some(Command::Local(argv)) => copy_strings(argv),
        Some(Command::Remote { action_digest }) => digest_line("remote:", action_digest),
        Some(Command::Worker(argv)) => copy_strings(argv),
        Some(Command::WorkerInit(argv)) => copy_strings(argv),
        Some(Command::OmittedLocal { action_digest }) => digest_line(
            "omitted_local:",
            action_digest,
        ),
    }
}

/// The end of a command that started at `start` and ran for `wall`.
fn time_after(start: Timestamp, wall: TimeSpan) -> (end: Timestamp)
    requires
        i64::MIN <= start.seconds + wall.seconds <= i64::MAX,
        i64::MIN <= reporting::end_parts(start, wall).0 <= i64::MAX,
    ensures
        end.seconds == reporting::end_parts(start, wall).0,
        end.nanos == reporting::end_parts(start, wall).1,
{
    let nanos: i64 = start.nanos as i64 + wall.nanos as i64;
    let carry: i64 = if nanos >= 0 {
        nanos / NANOS_PER_SECOND
    } else {
        -((-nanos) / NANOS_PER_SECOND)
    };
    Timestamp {
        seconds: start.seconds + wall.seconds + carry,
        nanos: (nanos - carry * NANOS_PER_SECOND) as i32,
    }
}

/// When a command started and when it ended, as far as that is known.
fn times(details: &CommandDetails) -> (t: (Option<Timestamp>, Option<Timestamp>))
    requires
        reporting::end_time_fits(Some(*details)),
    ensures
        t.0 == reporting::start_time(Some(*details)),
        t.1 == reporting::end_time(Some(*details)),
{
    match details.metadata {
        Some(metadata) => (
            metadata.start_time,
            match (metadata.start_time, metadata.wall_time) {
                (Some(start), Some(wall)) => Some(time_after(start, wall)),
                _ => None,
            },
        ),
        None => (None, None),
    }
}

/// Whether the end of a command can be told in 64 bit seconds.
fn end_fits(details: &Option<CommandDetails>) -> (b: bool)
    ensures
        b == reporting::end_time_fits(*details),
{
    match details {
        Some(CommandDetails {
            metadata: Some(ExecutionMetadata { start_time: Some(start), wall_time: Some(wall) }),
            ..
        }) => {
            let seconds: i128 = start.seconds as i128 + wall.seconds as i128;
            let nanos: i64 = start.nanos as i64 + wall.nanos as i64;
            let carry: i64 = if nanos >= 0 {
                nanos / NANOS_PER_SECOND
            } else {
                -((-nanos) / NANOS_PER_SECOND)
            };
            let end: i128 = seconds + carry as i128;
            i64::MIN as i128 <= seconds && seconds <= i64::MAX as i128 && i64::MIN as i128 <= end
                && end <= i64::MAX as i128
        },
        _ => true,
    }
}

/// The file that holds one of the outputs of a command.
fn output_file(name: &str, text: &String) -> (file: File)
    ensures
        file@ == reporting::output_file(name@, text@),
{
    File {
        name: name.to_owned(),
        length: text.as_str().len() as i64,
        contents: text.clone(),
    }
}

/// The report of an executed action.
fn action_executed(action: &ActionExecutionEnd) -> (report: ActionExecuted)
    requires
        reporting::end_time_fits(reporting::last_details(*action)),
    ensures
        report@ == reporting::action_executed(*action),
{
    let mnemonic = match &action.category {
        Some(category) => category.clone(),
        None => "UNKNOWN".to_owned(),
    };
    match last_details(action) {
        Some(details) => {
            let (start_time, end_time) = times(details);
            ActionExecuted {
                success: !action.failed,
                mnemonic,
                exit_code: match details.signed_exit_code {
                    Some(code) => code,
                    None => 0,
                },
                stdout: Some(output_file("stdout", &details.cmd_stdout)),
                stderr: Some(output_file("stderr", &details.cmd_stderr)),
                command_line: command_line(&details.command),
                failure_detail: if action.failed {
                    Some(details.cmd_stderr.clone())
                } else {
                    None
                },
                start_time,
                end_time,
            }
        },
        None => ActionExecuted {
            success: !action.failed,
            mnemonic,
            exit_code: 0,
            stdout: None,
            stderr: None,
            command_line: command_line(&None),
            failure_detail: if action.failed {
                Some("UNKNOWN".to_owned())
            } else {
                None
            },
            start_time: None,
            end_time: None,
        },
    }
}

/// A Build Event Protocol event that announces no others.
fn leaf_event(time: Timestamp, id: BuildEventId, payload: Payload) -> (e: BesTransportEvent)
    ensures
        e@ == reporting::report_event(time, id@, seq![], payload@),
{
    let no_children: Vec<BuildEventId> = vec![];
    assert(bep::id_views(no_children@) =~= seq![]);
    report_event(time, id, no_children, payload)
}

/// A list of one event.
fn one(event: BesTransportEvent) -> (out: Vec<BesTransportEvent>)
    ensures
        bep::views(out@) == seq![event@],
{
    let out = vec![event];
    assert(bep::views(out@) =~= seq![event@]);
    out
}

/// A list of no events.
fn none() -> (out: Vec<BesTransportEvent>)
    ensures
        bep::views(out@) == Seq::<bep::TransportView>::empty(),
{
    let out: Vec<BesTransportEvent> = vec![];
    assert(bep::views(out@) =~= Seq::empty());
    out
}

/// A progress event that announces the next one.
fn progress_event(time: Timestamp, count: i32, stdout: String, stderr: String) -> (e:
    BesTransportEvent)
    requires
        count < i32::MAX,
    ensures
        e@ == reporting::progress_event(time, count as int, stdout@, stderr@),
{
    let children = vec![BuildEventId::Progress { opaque_count: count + 1 }];
    assert(bep::id_views(children@) =~= seq![
        bep::BuildEventIdView::Progress { opaque_count: count + 1 },
    ]);
    report_event(
        time,
        BuildEventId::Progress { opaque_count: count },
        children,
        Payload::Progress { stdout, stderr },
    )
}

/// How many outcomes a target has, and whether they are all successes.
fn tally(records: &Vec<Record>, target: &TargetName) -> (t: (usize, bool))
    ensures
        t.0 == reporting::outcomes_of(outcomes(records@), target.key()).len(),
        t.1 == reporting::all_succeeded(
            reporting::outcomes_of(outcomes(records@), target.key()),
        ),
{
    let mut count: usize = 0;
    let mut all: bool = true;
    let ghost key = target.key();
    let ghost seen = outcomes(records@.subrange(0, 0));
    assert(seen =~= Seq::empty());
    proof {
        reveal(Seq::filter);
    }
    for i in 0..records.len()
        invariant
            key == target.key(),
            seen == outcomes(records@.subrange(0, i as int)),
            count <= i,
            count == reporting::outcomes_of(seen, key).len(),
            all == reporting::all_succeeded(reporting::outcomes_of(seen, key)),
    {
        let record = &records[i];
        let ghost before = reporting::outcomes_of(seen, key);
        proof {
            reporting::lemma_outcomes_push(seen, record.outcome(), key);
            assert(outcomes(records@.subrange(0, i + 1)) =~= seen.push(record.outcome()));
            seen = seen.push(record.outcome());
        }
        if record.target.is(target) {
            count = count + 1;
            proof {
                let after = reporting::outcomes_of(seen, key);
                assert(after == before.push(record.outcome()));
                if all && record.success {
                    assert(reporting::all_succeeded(after));
                } else if !record.success {
                    assert(!after[before.len() as int].success);
                } else {
                    let j = choose|j: int| 0 <= j < before.len() && !(#[trigger] before[j]).success;
                    assert(!after[j].success);
                }
            }
            all = all && record.success;
        }
    }
    assert(records@.subrange(0, records@.len() as int) =~= records@);
    (count, all)
}

/// Whether a target stands among the first `n` of a list.
fn stands_before(targets: &Vec<TargetName>, n: usize, target: &TargetName) -> (b: bool)
    requires
        n <= targets@.len(),
    ensures
        b == keys(targets@).subrange(0, n as int).contains(target.key()),
{
    let ghost before = keys(targets@).subrange(0, n as int);
    for i in 0..n
        invariant
            n <= targets@.len(),
            before == keys(targets@).subrange(0, n as int),
            forall|j: int| 0 <= j < i ==> before[j] != target.key(),
    {
        if targets[i].is(target) {
            assert(before[i as int] == target.key());
            return true;
        }
        assert(before[i as int] != target.key());
    }
    false
}

/// The targets that have outcomes, in the order of their first one.
fn recorded_targets(records: &Vec<Record>) -> (targets: Vec<TargetName>)
    ensures
        keys(targets@) == reporting::keys_of(outcomes(records@)),
{
    let mut targets: Vec<TargetName> = Vec::new();
    assert(keys(targets@) =~= reporting::keys_of(outcomes(records@.subrange(0, 0))));
    for i in 0..records.len()
        invariant
            keys(targets@) == reporting::keys_of(outcomes(records@.subrange(0, i as int))),
    {
        let target = &records[i].target;
        let ghost before = keys(targets@);
        proof {
            let now = outcomes(records@.subrange(0, i + 1));
            assert(now.drop_last() =~= outcomes(records@.subrange(0, i as int)));
            assert(now.last() == records@[i as int].outcome());
            assert(before.subrange(0, before.len() as int) =~= before);
        }
        if !stands_before(&targets, targets.len(), target) {
            targets.push(target.copy());
            assert(keys(targets@) =~= before.push(target.key()));
        }
    }
    assert(records@.subrange(0, records@.len() as int) =~= records@);
    targets
}

/// The last progress event, which announces the expansions of the patterns.
fn final_progress(time: Timestamp, count: i32, patterns: &Vec<String>) -> (e: BesTransportEvent)
    ensures
        e@ == reporting::report_event(
            time,
            bep::BuildEventIdView::Progress { opaque_count: count as int },
            bep::texts(patterns@).map_values(|p: Seq<char>| reporting::pattern_id(p)),
            bep::PayloadView::Progress { stdout: seq![], stderr: seq![] },
        ),
{
    let mut children: Vec<BuildEventId> = Vec::new();
    for i in 0..patterns.len()
        invariant
            children@.len() == i,
            forall|j: int|
                0 <= j < i ==> (#[trigger] children@[j])@ == reporting::pattern_id(patterns@[j]@),
    {
        children.push(BuildEventId::Pattern { pattern: patterns[i].clone() });
    }
    assert(bep::id_views(children@) =~= bep::texts(patterns@).map_values(
        |p: Seq<char>| reporting::pattern_id(p),
    ));
    let stdout = String::new();
    let stderr = String::new();
    assert(stdout@ =~= seq![]);
    assert(stderr@ =~= seq![]);
    report_event(
        time,
        BuildEventId::Progress { opaque_count: count },
        children,
        Payload::Progress { stdout, stderr },
    )
}

/// The identifiers of the configurations of targets.
fn configured_ids(targets: &Vec<TargetName>) -> (ids: Vec<BuildEventId>)
    ensures
        bep::id_views(ids@) == keys(targets@).map_values(
            |t: TargetKey| reporting::configured_id(t),
        ),
{
    let mut ids: Vec<BuildEventId> = Vec::new();
    for i in 0..targets.len()
        invariant
            ids@.len() == i,
            forall|j: int|
                0 <= j < i ==> (#[trigger] ids@[j])@ == reporting::configured_id(targets@[j].key()),
    {
        ids.push(targets[i].configured_id());
    }
    assert(bep::id_views(ids@) =~= keys(targets@).map_values(
        |t: TargetKey| reporting::configured_id(t),
    ));
    ids
}

/// The expansion of a pattern.
fn pattern_event(time: Timestamp, pattern: &String, children: Vec<BuildEventId>) -> (e:
    BesTransportEvent)
    ensures
        e@ == reporting::report_event(
            time,
            reporting::pattern_id(pattern@),
            bep::id_views(children@),
            bep::PayloadView::Expanded,
        ),
{
    report_event(
        time,
        BuildEventId::Pattern { pattern: pattern.clone() },
        children,
        Payload::Expanded,
    )
}

/// The summary of the tests of a target.
fn summary_event(time: Timestamp, tests: &Vec<Record>, target: &TargetName) -> (e:
    BesTransportEvent)
    requires
        reporting::outcomes_of(outcomes(tests@), target.key()).len() <= i32::MAX,
    ensures
        e@ == reporting::summary_event(time, outcomes(tests@), target.key()),
{
    let (count, all) = tally(tests, target);
    let total: i32 = count as i32;
    leaf_event(
        time,
        target.test_summary_id(),
        Payload::TestSummary {
            overall_status: test_status(all),
            total_run_count: total,
            run_count: total,
            attempt_count: 1,
            shard_count: 1,
        },
    )
}

/// The status of tests by whether they passed.
fn test_status(passed: bool) -> (status: TestStatus)
    ensures
        status == reporting::test_status(passed),
{
    if passed {
        TestStatus::Passed
    } else {
        TestStatus::Failed
    }
}

/// The last Build Event Protocol event of a command that ended.
fn finished_event(time: Timestamp, is_success: bool) -> (e: BesTransportEvent)
    ensures
        e@ == reporting::finished_event(time, is_success),
{
    let children: Vec<BuildEventId> = vec![];
    assert(bep::id_views(children@) =~= seq![]);
    let payload = if is_success {
        Payload::Finished {
            exit_code_name: "SUCCESS".to_owned(),
            exit_code: 0,
            finish_time: time,
            failure_detail: None,
        }
    } else {
        Payload::Finished {
            exit_code_name: "FAILURE".to_owned(),
            exit_code: 1,
            finish_time: time,
            failure_detail: Some("Build failed".to_owned()),
        }
    };
    bazel_event(
        Some(time),
        BuildEvent { id: BuildEventId::BuildFinished, children, last_message: true, payload },
    )
}

/// The end of the stream and of the lifecycle.
fn closing_events(time: Option<Timestamp>, status: BuildStatus) -> (out: Vec<BesTransportEvent>)
    ensures
        bep::views(out@) == reporting::closing_events(time, status),
{
    let out = vec![
        stream_event(time, ServiceEvent::ComponentStreamFinished(FinishType::Finished)),
        lifecycle_event(time, ServiceEvent::InvocationAttemptFinished(status)),
        lifecycle_event(time, ServiceEvent::BuildFinished(status)),
    ];
    assert(bep::views(out@) =~= reporting::closing_events(time, status));
    out
}

/// What two lists of events stand for, one after the other.
proof fn lemma_views_add(a: Seq<BesTransportEvent>, b: Seq<BesTransportEvent>)
    ensures
        bep::views(a + b) == bep::views(a) + bep::views(b),
{
    assert(bep::views(a + b) =~= bep::views(a) + bep::views(b));
}

/// Adds events to the end of a list.
fn extend(out: &mut Vec<BesTransportEvent>, more: Vec<BesTransportEvent>)
    ensures
        bep::views(final(out)@) == bep::views(old(out)@) + bep::views(more@),
{
    let mut more = more;
    proof {
        lemma_views_add(out@, more@);
    }
    out.append(&mut more);
}

/// Turns the events of one command, taken one by one, into the events that report it.
pub struct Converter {
    server_pid: i64,
    targets: Vec<TargetName>,
    configurations: StringHashSet,
    patterns: Vec<String>,
    actions: Vec<Record>,
    tests: Vec<Record>,
    progress_count: i32,
    started: bool,
    finished: bool,
}

impl View for Converter {
    type V = Report;

    closed spec fn view(&self) -> Report {
        Report {
            server_pid: self.server_pid as int,
            targets: keys(self.targets@),
            configurations: self.configurations@,
            patterns: bep::texts(self.patterns@),
            actions: outcomes(self.actions@),
            tests: outcomes(self.tests@),
            progress_count: self.progress_count as int,
            started: self.started,
            finished: self.finished,
        }
    }
}

impl Converter {
    /// The numbers that have been reported fit their fields.
    pub open spec fn wf(&self) -> bool {
        &&& 0 <= self@.progress_count <= i32::MAX
        &&& forall|key: TargetKey|
            (#[trigger] reporting::outcomes_of(self@.tests, key)).len() <= i32::MAX
    }

    /// A converter for a command that has not started. `server_pid` is the process
    /// identifier of the build tool's server.
    pub fn new(server_pid: i64) -> (c: Converter)
        ensures
            c@ == reporting::new_report(server_pid as int),
            c.wf(),
    {
        let c = Converter {
            server_pid,
            targets: Vec::new(),
            configurations: StringHashSet::new(),
            patterns: Vec::new(),
            actions: Vec::new(),
            tests: Vec::new(),
            progress_count: 0,
            started: false,
            finished: false,
        };
        proof {
            reveal(Seq::filter);
            assert(c@.targets =~= Seq::empty());
            assert(c@.patterns =~= Seq::empty());
            assert(c@.actions =~= Seq::empty());
            assert(c@.tests =~= Seq::empty());
        }
        c
    }

    /// Whether the command has ended. Events that follow are not reported.
    pub fn is_finished(&self) -> (b: bool)
        ensures
            b == self@.finished,
    {
        self.finished
    }

    /// The patterns that are expanded.
    fn expanded_patterns(&self) -> (patterns: Vec<String>)
        ensures
            bep::texts(patterns@) == reporting::expanded_patterns(self@),
    {
        if self.patterns.len() > 0 {
            copy_strings(&self.patterns)
        } else {
            let mut labels: Vec<String> = Vec::new();
            for i in 0..self.targets.len()
                invariant
                    labels@.len() == i,
                    forall|j: int| 0 <= j < i ==> (#[trigger] labels@[j])@ == self.targets@[j].label@,
            {
                labels.push(self.targets[i].label.clone());
            }
            assert(bep::texts(labels@) =~= reporting::expanded_patterns(self@));
            labels
        }
    }

    /// The expansions of the patterns.
    fn pattern_events(&self, time: Timestamp, patterns: &Vec<String>) -> (out: Vec<
        BesTransportEvent,
    >)
        requires
            bep::texts(patterns@) == reporting::expanded_patterns(self@),
        ensures
            bep::views(out@) == reporting::pattern_events(self@, time),
    {
        let mut out: Vec<BesTransportEvent> = Vec::new();
        let given = self.patterns.len() > 0;
        proof {
            assert(bep::texts(patterns@).len() == patterns@.len());
            assert(bep::texts(self.patterns@).len() == self.patterns@.len());
            assert(!given ==> patterns@.len() == self.targets@.len());
        }
        for i in 0..patterns.len()
            invariant
                given == (self@.patterns.len() > 0),
                !given ==> patterns@.len() == self.targets@.len(),
                bep::texts(patterns@) == reporting::expanded_patterns(self@),
                out@.len() == i,
                forall|j: int|
                    0 <= j < i ==> (#[trigger] out@[j])@ == reporting::pattern_events(
                        self@,
                        time,
                    )[j],
        {
            let children = if given {
                configured_ids(&self.targets)
            } else {
                let ids = vec![self.targets[i].configured_id()];
                assert(bep::id_views(ids@) =~= seq![
                    reporting::configured_id(self@.targets[i as int]),
                ]);
                ids
            };
            assert(bep::texts(patterns@)[i as int] == patterns@[i as int]@);
            out.push(pattern_event(time, &patterns[i], children));
        }
        assert(bep::views(out@) =~= reporting::pattern_events(self@, time));
        out
    }

    /// The test results and the summary that the completion of a target announces.
    fn test_children(&self, target: &TargetName, children: &mut Vec<BuildEventId>)
        requires
            self.wf(),
        ensures
            bep::id_views(final(children)@) == bep::id_views(old(children)@)
                + reporting::test_children(self@.tests, target.key()),
    {
        let (count, _all) = tally(&self.tests, target);
        let ghost start = children@;
        let ghost expected = reporting::test_children(self@.tests, target.key());
        if count > 0 {
            for i in 0..count
                invariant
                    count <= i32::MAX,
                    count > 0,
                    count == reporting::outcomes_of(self@.tests, target.key()).len(),
                    expected == reporting::test_children(self@.tests, target.key()),
                    children@.len() == start.len() + i,
                    forall|j: int| 0 <= j < start.len() ==> children@[j] == start[j],
                    forall|j: int|
                        start.len() <= j < children@.len() ==> (#[trigger] children@[j])@
                            == expected[j - start.len()],
            {
                children.push(target.test_result_id((i + 1) as i32));
            }
            children.push(target.test_summary_id());
        }
        assert(bep::id_views(children@) =~= bep::id_views(start) + expected);
    }

    /// The completion of the `i`-th target.
    fn completed_event(&self, time: Timestamp, i: usize) -> (e: BesTransportEvent)
        requires
            self.wf(),
            i < self.targets@.len(),
        ensures
            e@ == reporting::completed_event(self@, time, i as int),
    {
        let target = &self.targets[i];
        let repeated = stands_before(&self.targets, i, target);
        assert(repeated == reporting::is_repeated(self@.targets, i as int));
        let (count, success) = if repeated {
            (0usize, true)
        } else {
            tally(&self.actions, target)
        };
        let ghost actions = reporting::completed_actions(self@, i as int);
        let mut children: Vec<BuildEventId> = Vec::new();
        for k in 0..count
            invariant
                children@.len() == k,
                forall|j: int|
                    0 <= j < k ==> (#[trigger] children@[j])@ == reporting::target_action_id(
                        target.key(),
                    ),
        {
            children.push(target.action_id());
        }
        proof {
            reporting::lemma_outcomes(self@.actions, target.key());
            assert(actions.len() == count);
            assert(bep::id_views(children@) =~= actions.map_values(
                |o: Outcome| reporting::target_action_id(o.key),
            ));
        }
        self.test_children(target, &mut children);
        report_event(time, target.completed_id(), children, Payload::Completed { success })
    }

    /// The completions of the targets.
    fn completed_events(&self, time: Timestamp) -> (out: Vec<BesTransportEvent>)
        requires
            self.wf(),
        ensures
            bep::views(out@) == reporting::completed_events(self@, time),
    {
        let mut out: Vec<BesTransportEvent> = Vec::new();
        for i in 0..self.targets.len()
            invariant
                self.wf(),
                out@.len() == i,
                forall|j: int|
                    0 <= j < i ==> (#[trigger] out@[j])@ == reporting::completed_event(
                        self@,
                        time,
                        j,
                    ),
        {
            out.push(self.completed_event(time, i));
        }
        assert(bep::views(out@) =~= reporting::completed_events(self@, time));
        out
    }

    /// The summaries of the tests.
    fn summary_events(&self, time: Timestamp) -> (out: Vec<BesTransportEvent>)
        requires
            self.wf(),
        ensures
            bep::views(out@) == reporting::summary_events(self@, time),
    {
        let targets = recorded_targets(&self.tests);
        let mut out: Vec<BesTransportEvent> = Vec::new();
        for i in 0..targets.len()
            invariant
                self.wf(),
                keys(targets@) == reporting::keys_of(self@.tests),
                out@.len() == i,
                forall|j: int|
                    0 <= j < i ==> (#[trigger] out@[j])@ == reporting::summary_event(
                        time,
                        self@.tests,
                        targets@[j].key(),
                    ),
        {
            out.push(summary_event(time, &self.tests, &targets[i]));
        }
        assert(bep::views(out@) =~= reporting::summary_events(self@, time)) by {
            assert(keys(targets@).len() == targets@.len());
            assert forall|j: int| 0 <= j < targets@.len() implies keys(targets@)[j]
                == targets@[j].key() by {}
        }
        out
    }

    /// What the end of a reported command sends.
    fn end_events(&self, time: Timestamp, is_success: bool) -> (out: Vec<BesTransportEvent>)
        requires
            self.wf(),
        ensures
            bep::views(out@) == reporting::end_events(self@, time, is_success),
    {
        let patterns = self.expanded_patterns();
        let mut out = one(final_progress(time, self.progress_count, &patterns));
        extend(&mut out, self.pattern_events(time, &patterns));
        extend(&mut out, self.completed_events(time));
        extend(&mut out, self.summary_events(time));
        extend(&mut out, one(finished_event(time, is_success)));
        let status = if is_success {
            BuildStatus::CommandSucceeded
        } else {
            BuildStatus::CommandFailed
        };
        extend(&mut out, closing_events(Some(time), status));
        out
    }

    /// Takes the start of the analysis of a target.
    fn on_analysis(&mut self, time: Timestamp, analysis: &AnalysisStart) -> (out: Vec<
        BesTransportEvent,
    >)
        requires
            old(self).wf(),
        ensures
            final(self).wf(),
            match reporting::analyzed(*analysis) {
                Some(key) => {
                    &&& final(self)@ == (Report {
                        targets: old(self)@.targets.push(key),
                        configurations: old(self)@.configurations.insert(key.config),
                        ..old(self)@
                    })
                    &&& bep::views(out@) == reporting::analysis_events(
                        time,
                        key,
                        analysis.rule@,
                        !old(self)@.configurations.contains(key.config),
                    )
                },
                None => final(self)@ == old(self)@ && bep::views(out@) == Seq::<
                    bep::TransportView,
                >::empty(),
            },
    {
        match analyzed(analysis) {
            Some(target) => {
                let new_config = self.configurations.insert(target.config.clone());
                let out = analysis_events(time, &target, &analysis.rule, new_config);
                self.targets.push(target);
                assert(self@.targets =~= old(self)@.targets.push(target.key()));
                out
            },
            None => none(),
        }
    }

    /// Takes the end of an action.
    fn on_action(&mut self, time: Timestamp, action: &ActionExecutionEnd) -> (out: Vec<
        BesTransportEvent,
    >)
        requires
            old(self).wf(),
            reporting::end_time_fits(reporting::last_details(*action)),
        ensures
            final(self).wf(),
            final(self)@ == (match reporting::owner_key(action.owner) {
                Some(key) => Report {
                    actions: old(self)@.actions.push(Outcome { key, success: !action.failed }),
                    ..old(self)@
                },
                None => old(self)@,
            }),
            bep::views(out@) == seq![reporting::action_event(time, *action)],
    {
        let (label, configuration) = owner_parts(&action.owner);
        let id = action_id(optional_copy(&label), optional_copy(&configuration));
        let out = one(leaf_event(time, id, Payload::Action(action_executed(action))));
        if let (Some(label), Some(config)) = (label, configuration) {
            let record = Record { target: TargetName { label, config }, success: !action.failed };
            self.actions.push(record);
            assert(self@.actions =~= old(self)@.actions.push(record.outcome()));
        }
        out
    }

    /// Takes a message, which is reported as progress.
    fn on_message(&mut self, time: Timestamp, stdout: String, stderr: String) -> (out: Vec<
        BesTransportEvent,
    >)
        requires
            old(self).wf(),
            old(self)@.progress_count < i32::MAX,
        ensures
            final(self).wf(),
            final(self)@ == (Report {
                progress_count: old(self)@.progress_count + 1,
                ..old(self)@
            }),
            bep::views(out@) == seq![
                reporting::progress_event(time, old(self)@.progress_count, stdout@, stderr@),
            ],
    {
        let out = one(progress_event(time, self.progress_count, stdout, stderr));
        self.progress_count = self.progress_count + 1;
        out
    }

    /// Takes the result of a test.
    fn on_test_result(&mut self, time: Timestamp, result: &TestResult) -> (out: Vec<
        BesTransportEvent,
    >)
        requires
            old(self).wf(),
            reporting::tested(*result) matches Some(key) ==> reporting::outcomes_of(
                old(self)@.tests,
                key,
            ).len() < i32::MAX,
        ensures
            final(self).wf(),
            match reporting::tested(*result) {
                Some(key) => {
                    &&& final(self)@ == (Report {
                        tests: old(self)@.tests.push(
                            Outcome { key, success: result.status == TEST_STATUS_PASS },
                        ),
                        ..old(self)@
                    })
                    &&& bep::views(out@) == seq![
                        reporting::test_result_event(
                            time,
                            key,
                            (reporting::outcomes_of(old(self)@.tests, key).len() + 1) as int,
                            *result,
                        ),
                    ]
                },
                None => final(self)@ == old(self)@ && bep::views(out@) == Seq::<
                    bep::TransportView,
                >::empty(),
            },
    {
        let target = match &result.target_label {
            Some(label) => target_name(label),
            None => None,
        };
        match target {
            Some(target) => {
                let passed = result.status == TEST_STATUS_PASS;
                let (count, _all) = tally(&self.tests, &target);
                let out = one(
                    leaf_event(
                        time,
                        target.test_result_id((count + 1) as i32),
                        Payload::TestResult {
                            status: test_status(passed),
                            status_details: result.name.clone(),
                            test_attempt_duration: result.duration,
                        },
                    ),
                );
                let record = Record { target, success: passed };
                self.tests.push(record);
                proof {
                    assert(self@.tests =~= old(self)@.tests.push(record.outcome()));
                    assert forall|key: TargetKey|
                        (#[trigger] reporting::outcomes_of(self@.tests, key)).len() <= i32::MAX by {
                        reporting::lemma_outcomes_push(old(self)@.tests, record.outcome(), key);
                    }
                }
                out
            },
            None => none(),
        }
    }

    /// Whether the numbers that an event brings into the report fit their fields.
    pub fn accepts(&self, event: &BuckEvent) -> (b: bool)
        requires
            self.wf(),
        ensures
            b == reporting::fits(self@, *event),
    {
        if self.finished {
            return true;
        }
        match &event.data {
            EventData::SpanEnd(Some(SpanEnd::ActionExecution(action))) => {
                end_fits(last_details(action))
            },
            EventData::Instant(Some(Instant::ConsoleMessage(_)))
            | EventData::Instant(Some(Instant::ConsoleWarning(_)))
            | EventData::Instant(Some(Instant::StreamingOutput(_))) => {
                self.progress_count < i32::MAX
            },
            EventData::Instant(Some(Instant::TestResult(result))) => {
                let target = match &result.target_label {
                    Some(label) => target_name(label),
                    None => None,
                };
                match target {
                    Some(target) => {
                        let (count, _all) = tally(&self.tests, &target);
                        count < i32::MAX as usize
                    },
                    None => true,
                }
            },
            _ => true,
        }
    }

    /// Takes the next event of the command, and returns what it sends.
    pub fn on_event(&mut self, event: &BuckEvent) -> (out: Vec<BesTransportEvent>)
        requires
            old(self).wf(),
            reporting::fits(old(self)@, *event),
        ensures
            final(self).wf(),
            final(self)@ == reporting::step(old(self)@, *event).0,
            bep::views(out@) == reporting::step(old(self)@, *event).1,
    {
        let time = event.timestamp;
        if self.finished {
            return none();
        }
        match &event.data {
            EventData::SpanStart(Some(SpanStart::Command(command))) => {
                if is_reported(command.kind) {
                    self.started = true;
                    assert(self@.tests == old(self)@.tests);
                    start_events(self.server_pid, time, &event.trace_id, command)
                } else {
                    none()
                }
            },
            EventData::SpanStart(Some(SpanStart::Analysis(analysis))) => {
                self.on_analysis(time, analysis)
            },
            EventData::SpanEnd(Some(SpanEnd::Command(command))) => {
                if is_reported(command.kind) {
                    let out = self.end_events(time, command.is_success);
                    self.finished = true;
                    assert(self@.tests == old(self)@.tests);
                    out
                } else {
                    none()
                }
            },
            EventData::SpanEnd(Some(SpanEnd::ActionExecution(action))) => {
                self.on_action(time, action)
            },
            EventData::Instant(Some(Instant::TargetPatterns(patterns))) => {
                self.patterns = copy_strings(patterns);
                assert(self@.tests == old(self)@.tests);
                none()
            },
            EventData::Instant(Some(Instant::ConsoleMessage(message)))
            | EventData::Instant(Some(Instant::ConsoleWarning(message))) => {
                let stdout = String::new();
                assert(stdout@ =~= seq![]);
                self.on_message(time, stdout, message.clone())
            },
            EventData::Instant(Some(Instant::StreamingOutput(message))) => {
                let stderr = String::new();
                assert(stderr@ =~= seq![]);
                self.on_message(time, message.clone(), stderr)
            },
            EventData::Instant(Some(Instant::TestResult(result))) => {
                self.on_test_result(time, result)
            },
            _ => none(),
        }
    }

    /// Takes the end of the events. A command that has started and not ended was
    /// interrupted, which is reported so that the service can close the invocation.
    pub fn on_end(&self) -> (out: Vec<BesTransportEvent>)
        ensures
            bep::views(out@) == reporting::interruption(self@),
    {
        if self.started && !self.finished {
            let children: Vec<BuildEventId> = vec![];
            assert(bep::id_views(children@) =~= seq![]);
            let mut out = one(
                bazel_event(
                    None,
                    BuildEvent {
                        id: BuildEventId::BuildFinished,
                        children,
                        last_message: true,
                        payload: Payload::Aborted {
                            reason: AbortReason::UserInterrupted,
                            description: "Build interrupted".to_owned(),
                        },
                    },
                ),
            );
            extend(&mut out, closing_events(None, BuildStatus::CommandFailed));
            out
        } else {
            none()
        }
    }
}

/// Whether a command is one that is reported.
fn is_reported(kind: Option<CommandKind>) -> (b: bool)
    ensures
        b == reporting::is_reported(kind),
{
    match kind {
        Some(CommandKind::Build) => true,
        Some(CommandKind::Test) => true,
        Some(CommandKind::Other) => false,
        None => false,
    }
}

/// Turns all the events of a command into the events that report it.
pub fn buck_to_bazel_events(events: &Vec<BuckEvent>, server_pid: i64) -> (out: Vec<
    BesTransportEvent,
>)
    requires
        reporting::all_fit(reporting::new_report(server_pid as int), events@),
    ensures
        bep::views(out@) == reporting::converted(server_pid as int, events@),
{
    let mut converter = Converter::new(server_pid);
    let ghost report = converter@;
    let mut out = none();
    assert(events@.subrange(0, 0) =~= Seq::empty());
    for i in 0..events.len()
        invariant
            reporting::all_fit(report, events@),
            report == reporting::new_report(server_pid as int),
            converter.wf(),
            converter@ == reporting::report_after(report, events@.subrange(0, i as int)),
            bep::views(out@) == reporting::sent(report, events@.subrange(0, i as int)),
    {
        proof {
            let now = events@.subrange(0, i + 1);
            assert(now.drop_last() =~= events@.subrange(0, i as int));
            assert(now.last() == events@[i as int]);
            lemma_prefix_fits(report, events@, i + 1);
        }
        let more = converter.on_event(&events[i]);
        extend(&mut out, more);
    }
    assert(events@.subrange(0, events@.len() as int) =~= events@);
    extend(&mut out, converter.on_end());
    out
}

/// Turns all the events of a command into the events that report it, if the numbers that
/// they bring into the report fit their fields.
pub fn checked_buck_to_bazel_events(events: &Vec<BuckEvent>, server_pid: i64) -> (r: Option<
    Vec<BesTransportEvent>,
>)
    ensures
        match r {
            Some(out) => {
                &&& reporting::all_fit(reporting::new_report(server_pid as int), events@)
                &&& bep::views(out@) == reporting::converted(server_pid as int, events@)
            },
            None => !reporting::all_fit(reporting::new_report(server_pid as int), events@),
        },
{
    let mut converter = Converter::new(server_pid);
    let ghost report = converter@;
    let mut out = none();
    assert(events@.subrange(0, 0) =~= Seq::empty());
    for i in 0..events.len()
        invariant
            report == reporting::new_report(server_pid as int),
            reporting::all_fit(report, events@.subrange(0, i as int)),
            converter.wf(),
            converter@ == reporting::report_after(report, events@.subrange(0, i as int)),
            bep::views(out@) == reporting::sent(report, events@.subrange(0, i as int)),
    {
        proof {
            let now = events@.subrange(0, i + 1);
            assert(now.drop_last() =~= events@.subrange(0, i as int));
            assert(now.last() == events@[i as int]);
        }
        if !converter.accepts(&events[i]) {
            proof {
                if reporting::all_fit(report, events@) {
                    lemma_prefix_fits(report, events@, i + 1);
                }
            }
            return None;
        }
        let more = converter.on_event(&events[i]);
        extend(&mut out, more);
    }
    assert(events@.subrange(0, events@.len() as int) =~= events@);
    extend(&mut out, converter.on_end());
    Some(out)
}

/// Where the numbers of all events fit, so do those of the first `n`.
proof fn lemma_prefix_fits(report: Report, events: Seq<BuckEvent>, n: int)
    requires
        reporting::all_fit(report, events),
        0 <= n <= events.len(),
    ensures
        reporting::all_fit(report, events.subrange(0, n)),
    decreases events.len(),
{
    if n < events.len() {
        lemma_prefix_fits(report, events.drop_last(), n);
        assert(events.drop_last().subrange(0, n) =~= events.subrange(0, n));
    } else {
        assert(events.subrange(0, n) =~= events);
    }
}

} // verus!
