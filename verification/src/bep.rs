//! The messages of the Build Event Protocol and of the Build Event Service that
//! reports are made of.
//!
//! A field that every report leaves at its protocol default is not represented.
use vstd::prelude::*;
use vstd::utf8;

use crate::buck_event::{TimeSpan, Timestamp};

verus! {

/// The type that a Build Event Protocol message declares inside an event.
pub const BAZEL_EVENT_TYPE_URL: &'static str = "type.googleapis.com/build_event_stream.BuildEvent";

/// The identifier of a Build Event Protocol event.
#[allow(inconsistent_fields)]
#[derive(Debug)]
pub enum BuildEventId {
    Started,
    UnstructuredCommandLine,
    Progress { opaque_count: i32 },
    Pattern { pattern: String },
    TargetConfigured { label: String },
    TargetCompleted { label: String, configuration: String },
    Configuration { id: String },
    ActionCompleted { configuration: Option<String>, label: String, primary_output: String },
    TestResult { label: String, configuration: String, run: i32, shard: i32, attempt: i32 },
    TestSummary { label: String, configuration: String },
    BuildFinished,
}

/// What a [`BuildEventId`] stands for.
#[allow(inconsistent_fields)]
pub enum BuildEventIdView {
    Started,
    UnstructuredCommandLine,
    Progress { opaque_count: int },
    Pattern { pattern: Seq<char> },
    TargetConfigured { label: Seq<char> },
    TargetCompleted { label: Seq<char>, configuration: Seq<char> },
    Configuration { id: Seq<char> },
    ActionCompleted { configuration: Option<Seq<char>>, label: Seq<char>, primary_output: Seq<char> },
    TestResult { label: Seq<char>, configuration: Seq<char>, run: int, shard: int, attempt: int },
    TestSummary { label: Seq<char>, configuration: Seq<char> },
    BuildFinished,
}

/// The text of an optional string.
pub open spec fn text_of(s: Option<String>) -> Option<Seq<char>> {
    match s {
        Some(s) => Some(s@),
        None => None,
    }
}

/// The texts of a sequence of strings.
pub open spec fn texts(s: Seq<String>) -> Seq<Seq<char>> {
    s.map_values(|t: String| t@)
}

impl View for BuildEventId {
    type V = BuildEventIdView;

    open spec fn view(&self) -> BuildEventIdView {
        match *self {
            BuildEventId::Started => BuildEventIdView::Started,
            BuildEventId::UnstructuredCommandLine => BuildEventIdView::UnstructuredCommandLine,
            BuildEventId::Progress { opaque_count } => BuildEventIdView::Progress {
                opaque_count: opaque_count as int,
            },
            BuildEventId::Pattern { pattern } => BuildEventIdView::Pattern { pattern: pattern@ },
            BuildEventId::TargetConfigured { label } => BuildEventIdView::TargetConfigured {
                label: label@,
            },
            BuildEventId::TargetCompleted { label, configuration } => {
                BuildEventIdView::TargetCompleted { label: label@, configuration: configuration@ }
            },
            BuildEventId::Configuration { id } => BuildEventIdView::Configuration { id: id@ },
            BuildEventId::ActionCompleted { configuration, label, primary_output } => {
                BuildEventIdView::ActionCompleted {
                    configuration: text_of(configuration),
                    label: label@,
                    primary_output: primary_output@,
                }
            },
            BuildEventId::TestResult { label, configuration, run, shard, attempt } => {
                BuildEventIdView::TestResult {
                    label: label@,
                    configuration: configuration@,
                    run: run as int,
                    shard: shard as int,
                    attempt: attempt as int,
                }
            },
            BuildEventId::TestSummary { label, configuration } => BuildEventIdView::TestSummary {
                label: label@,
                configuration: configuration@,
            },
            BuildEventId::BuildFinished => BuildEventIdView::BuildFinished,
        }
    }
}

/// The outcome of tests.
#[derive(Clone, Copy, Debug, PartialEq, Eq, Structural)]
pub enum TestStatus {
    Passed,
    Failed,
}

/// Why an event that was announced never came.
#[derive(Clone, Copy, Debug, PartialEq, Eq, Structural)]
pub enum AbortReason {
    UserInterrupted,
}

/// A file whose contents travel with the event.
#[derive(Debug)]
pub struct File {
    pub name: String,
    pub length: i64,
    pub contents: String,
}

/// What a [`File`] stands for.
pub struct FileView {
    pub name: Seq<char>,
    pub length: int,
    pub contents: Seq<char>,
}

impl View for File {
    type V = FileView;

    open spec fn view(&self) -> FileView {
        FileView { name: self.name@, length: self.length as int, contents: self.contents@ }
    }
}

/// The contents of an optional file.
pub open spec fn file_of(f: Option<File>) -> Option<FileView> {
    match f {
        Some(f) => Some(f@),
        None => None,
    }
}

/// The number of bytes that a text takes, as a file length.
pub open spec fn file_length(text: Seq<char>) -> i64 {
    (utf8::encode_utf8(text).len() as usize) as i64
}

/// The report of an executed action.
#[derive(Debug)]
pub struct ActionExecuted {
    pub success: bool,
    pub mnemonic: String,
    pub exit_code: i32,
    pub stdout: Option<File>,
    pub stderr: Option<File>,
    pub command_line: Vec<String>,
    pub failure_detail: Option<String>,
    pub start_time: Option<Timestamp>,
    pub end_time: Option<Timestamp>,
}

/// What an [`ActionExecuted`] stands for.
pub struct ActionExecutedView {
    pub success: bool,
    pub mnemonic: Seq<char>,
    pub exit_code: int,
    pub stdout: Option<FileView>,
    pub stderr: Option<FileView>,
    pub command_line: Seq<Seq<char>>,
    pub failure_detail: Option<Seq<char>>,
    pub start_time: Option<Timestamp>,
    pub end_time: Option<Timestamp>,
}

impl View for ActionExecuted {
    type V = ActionExecutedView;

    open spec fn view(&self) -> ActionExecutedView {
        ActionExecutedView {
            success: self.success,
            mnemonic: self.mnemonic@,
            exit_code: self.exit_code as int,
            stdout: file_of(self.stdout),
            stderr: file_of(self.stderr),
            command_line: texts(self.command_line@),
            failure_detail: text_of(self.failure_detail),
            start_time: self.start_time,
            end_time: self.end_time,
        }
    }
}

/// The report of the start of a build.
#[derive(Debug)]
pub struct BuildStarted {
    pub uuid: String,
    pub start_time: Timestamp,
    pub build_tool_version: String,
    pub options_description: String,
    pub command: String,
    pub working_directory: String,
    pub workspace_directory: String,
    pub server_pid: i64,
}

/// What a [`BuildStarted`] stands for.
pub struct BuildStartedView {
    pub uuid: Seq<char>,
    pub start_time: Timestamp,
    pub build_tool_version: Seq<char>,
    pub options_description: Seq<char>,
    pub command: Seq<char>,
    pub working_directory: Seq<char>,
    pub workspace_directory: Seq<char>,
    pub server_pid: int,
}

impl View for BuildStarted {
    type V = BuildStartedView;

    open spec fn view(&self) -> BuildStartedView {
        BuildStartedView {
            uuid: self.uuid@,
            start_time: self.start_time,
            build_tool_version: self.build_tool_version@,
            options_description: self.options_description@,
            command: self.command@,
            working_directory: self.working_directory@,
            workspace_directory: self.workspace_directory@,
            server_pid: self.server_pid as int,
        }
    }
}

/// What a Build Event Protocol event reports.
#[derive(Debug)]
pub enum Payload {
    Started(BuildStarted),
    UnstructuredCommandLine { args: Vec<String> },
    Progress { stdout: String, stderr: String },
    Expanded,
    Configured { target_kind: String },
    Configuration,
    Action(ActionExecuted),
    Completed { success: bool },
    TestResult {
        status: TestStatus,
        status_details: String,
        test_attempt_duration: Option<TimeSpan>,
    },
    TestSummary {
        overall_status: TestStatus,
        total_run_count: i32,
        run_count: i32,
        attempt_count: i32,
        shard_count: i32,
    },
    Finished {
        exit_code_name: String,
        exit_code: i32,
        finish_time: Timestamp,
        failure_detail: Option<String>,
    },
    Aborted { reason: AbortReason, description: String },
}

/// What a [`Payload`] stands for.
pub enum PayloadView {
    Started(BuildStartedView),
    UnstructuredCommandLine { args: Seq<Seq<char>> },
    Progress { stdout: Seq<char>, stderr: Seq<char> },
    Expanded,
    Configured { target_kind: Seq<char> },
    Configuration,
    Action(ActionExecutedView),
    Completed { success: bool },
    TestResult {
        status: TestStatus,
        status_details: Seq<char>,
        test_attempt_duration: Option<TimeSpan>,
    },
    TestSummary {
        overall_status: TestStatus,
        total_run_count: int,
        run_count: int,
        attempt_count: int,
        shard_count: int,
    },
    Finished {
        exit_code_name: Seq<char>,
        exit_code: int,
        finish_time: Timestamp,
        failure_detail: Option<Seq<char>>,
    },
    Aborted { reason: AbortReason, description: Seq<char> },
}

impl View for Payload {
    type V = PayloadView;

    open spec fn view(&self) -> PayloadView {
        match *self {
            Payload::Started(s) => PayloadView::Started(s@),
            Payload::UnstructuredCommandLine { args } => PayloadView::UnstructuredCommandLine {
                args: texts(args@),
            },
            Payload::Progress { stdout, stderr } => PayloadView::Progress {
                stdout: stdout@,
                stderr: stderr@,
            },
            Payload::Expanded => PayloadView::Expanded,
            Payload::Configured { target_kind } => PayloadView::Configured {
                target_kind: target_kind@,
            },
            Payload::Configuration => PayloadView::Configuration,
            Payload::Action(a) => PayloadView::Action(a@),
            Payload::Completed { success } => PayloadView::Completed { success },
            Payload::TestResult { status, status_details, test_attempt_duration } => {
                PayloadView::TestResult {
                    status,
                    status_details: status_details@,
                    test_attempt_duration,
                }
            },
            Payload::TestSummary {
                overall_status,
                total_run_count,
                run_count,
                attempt_count,
                shard_count,
            } => PayloadView::TestSummary {
                overall_status,
                total_run_count: total_run_count as int,
                run_count: run_count as int,
                attempt_count: attempt_count as int,
                shard_count: shard_count as int,
            },
            Payload::Finished { exit_code_name, exit_code, finish_time, failure_detail } => {
                PayloadView::Finished {
                    exit_code_name: exit_code_name@,
                    exit_code: exit_code as int,
                    finish_time,
                    failure_detail: text_of(failure_detail),
                }
            },
            Payload::Aborted { reason, description } => PayloadView::Aborted {
                reason,
                description: description@,
            },
        }
    }
}

/// A Build Event Protocol event. The events of a build form a graph: each event
/// announces the events that it is the parent of.
#[derive(Debug)]
pub struct BuildEvent {
    pub id: BuildEventId,
    pub children: Vec<BuildEventId>,
    pub last_message: bool,
    pub payload: Payload,
}

/// What a [`BuildEvent`] stands for.
pub struct BuildEventView {
    pub id: BuildEventIdView,
    pub children: Seq<BuildEventIdView>,
    pub last_message: bool,
    pub payload: PayloadView,
}

/// What a sequence of identifiers stands for.
pub open spec fn id_views(s: Seq<BuildEventId>) -> Seq<BuildEventIdView> {
    s.map_values(|id: BuildEventId| id@)
}

impl View for BuildEvent {
    type V = BuildEventView;

    open spec fn view(&self) -> BuildEventView {
        BuildEventView {
            id: self.id@,
            children: id_views(self.children@),
            last_message: self.last_message,
            payload: self.payload@,
        }
    }
}

/// How an invocation of the build tool ended.
#[derive(Clone, Copy, Debug, PartialEq, Eq, Structural)]
pub enum BuildStatus {
    CommandSucceeded,
    CommandFailed,
}

/// How a stream of events ended.
#[derive(Clone, Copy, Debug, PartialEq, Eq, Structural)]
pub enum FinishType {
    Finished,
}

/// What happened, as a Build Event Service is told.
#[derive(Debug)]
pub enum ServiceEvent {
    BuildEnqueued,
    InvocationAttemptStarted { attempt_number: i64 },
    BazelEvent { type_url: String, event: BuildEvent },
    ComponentStreamFinished(FinishType),
    InvocationAttemptFinished(BuildStatus),
    BuildFinished(BuildStatus),
}

/// What a [`ServiceEvent`] stands for.
pub enum ServiceEventView {
    BuildEnqueued,
    InvocationAttemptStarted { attempt_number: int },
    BazelEvent { type_url: Seq<char>, event: BuildEventView },
    ComponentStreamFinished(FinishType),
    InvocationAttemptFinished(BuildStatus),
    BuildFinished(BuildStatus),
}

impl View for ServiceEvent {
    type V = ServiceEventView;

    open spec fn view(&self) -> ServiceEventView {
        match *self {
            ServiceEvent::BuildEnqueued => ServiceEventView::BuildEnqueued,
            ServiceEvent::InvocationAttemptStarted { attempt_number } => {
                ServiceEventView::InvocationAttemptStarted { attempt_number: attempt_number as int }
            },
            ServiceEvent::BazelEvent { type_url, event } => ServiceEventView::BazelEvent {
                type_url: type_url@,
                event: event@,
            },
            ServiceEvent::ComponentStreamFinished(t) => {
                ServiceEventView::ComponentStreamFinished(t)
            },
            ServiceEvent::InvocationAttemptFinished(s) => {
                ServiceEventView::InvocationAttemptFinished(s)
            },
            ServiceEvent::BuildFinished(s) => ServiceEventView::BuildFinished(s),
        }
    }
}

/// An event with the time at which it happened, if that is known.
#[derive(Debug)]
pub struct TimedEvent {
    pub event_time: Option<Timestamp>,
    pub event: ServiceEvent,
}

/// What a [`TimedEvent`] stands for.
pub struct TimedEventView {
    pub event_time: Option<Timestamp>,
    pub event: ServiceEventView,
}

impl View for TimedEvent {
    type V = TimedEventView;

    open spec fn view(&self) -> TimedEventView {
        TimedEventView { event_time: self.event_time, event: self.event@ }
    }
}

/// An event tagged with the call by which it is sent.
#[derive(Debug)]
pub enum BesTransportEvent {
    /// Sent by a call of its own, which publishes one lifecycle event.
    Lifecycle(TimedEvent),
    /// Sent over the stream of the build tool.
    Stream(TimedEvent),
}

/// What a [`BesTransportEvent`] stands for.
pub enum TransportView {
    Lifecycle(TimedEventView),
    Stream(TimedEventView),
}

impl View for BesTransportEvent {
    type V = TransportView;

    open spec fn view(&self) -> TransportView {
        match *self {
            BesTransportEvent::Lifecycle(e) => TransportView::Lifecycle(e@),
            BesTransportEvent::Stream(e) => TransportView::Stream(e@),
        }
    }
}

/// What a sequence of transport events stands for.
pub open spec fn views(s: Seq<BesTransportEvent>) -> Seq<TransportView> {
    s.map_values(|e: BesTransportEvent| e@)
}

// What values stand for

/// What an identifier stands for keeps all of it.
pub proof fn law_identifiers_are_seen_whole(id: BuildEventId)
    ensures
        match id {
            BuildEventId::Started => id@ == BuildEventIdView::Started,
            BuildEventId::UnstructuredCommandLine => id@
                == BuildEventIdView::UnstructuredCommandLine,
            BuildEventId::Progress { opaque_count: n } => id@ matches BuildEventIdView::Progress {
                opaque_count,
            } && opaque_count == n,
            BuildEventId::Pattern { pattern: p } => id@ matches BuildEventIdView::Pattern {
                pattern,
            } && pattern == p@,
            BuildEventId::TargetConfigured { label: l } => id@
                matches BuildEventIdView::TargetConfigured { label } && label == l@,
            BuildEventId::TargetCompleted { label: l, configuration: c } => id@
                matches BuildEventIdView::TargetCompleted { label, configuration } && label == l@
                && configuration == c@,
            BuildEventId::Configuration { id: i } => id@ matches BuildEventIdView::Configuration {
                id: text,
            } && text == i@,
            BuildEventId::ActionCompleted { configuration: c, label: l, primary_output: o } => id@
                matches BuildEventIdView::ActionCompleted { configuration, label, primary_output }
                && (c matches Some(c) ==> configuration == Some(c@)) && (c is None
                ==> configuration is None) && label == l@ && primary_output == o@,
            BuildEventId::TestResult { label: l, configuration: c, run: r, shard: s, attempt: a } =>
            id@ matches BuildEventIdView::TestResult {
                label,
                configuration,
                run,
                shard,
                attempt,
            } && label == l@ && configuration == c@ && run == r && shard == s && attempt == a,
            BuildEventId::TestSummary { label: l, configuration: c } => id@
                matches BuildEventIdView::TestSummary { label, configuration } && label == l@
                && configuration == c@,
            BuildEventId::BuildFinished => id@ == BuildEventIdView::BuildFinished,
        },
{
}

/// What the report of an action stands for keeps all of it.
pub proof fn law_action_reports_are_seen_whole(a: ActionExecuted)
    ensures
        a@.success == a.success,
        a@.mnemonic == a.mnemonic@,
        a@.exit_code == a.exit_code,
        a@.stdout is Some == a.stdout is Some,
        a.stdout matches Some(f) ==> a@.stdout matches Some(v) && v.name == f.name@ && v.length
            == f.length && v.contents == f.contents@,
        a@.stderr is Some == a.stderr is Some,
        a.stderr matches Some(f) ==> a@.stderr matches Some(v) && v.name == f.name@ && v.length
            == f.length && v.contents == f.contents@,
        a@.command_line.len() == a.command_line@.len(),
        forall|i: int|
            0 <= i < a.command_line@.len() ==> #[trigger] a@.command_line[i]
                == a.command_line@[i]@,
        a.failure_detail matches Some(text) ==> a@.failure_detail == Some(text@),
        a.failure_detail is None ==> a@.failure_detail is None,
        a@.start_time == a.start_time,
        a@.end_time == a.end_time,
{
}

/// What the report of a start stands for keeps all of it.
pub proof fn law_start_reports_are_seen_whole(s: BuildStarted)
    ensures
        s@.uuid == s.uuid@,
        s@.start_time == s.start_time,
        s@.build_tool_version == s.build_tool_version@,
        s@.options_description == s.options_description@,
        s@.command == s.command@,
        s@.working_directory == s.working_directory@,
        s@.workspace_directory == s.workspace_directory@,
        s@.server_pid == s.server_pid,
{
}

/// What a payload stands for keeps all of it.
pub proof fn law_payloads_are_seen_whole(p: Payload)
    ensures
        match p {
            Payload::Started(started) => p@ == PayloadView::Started(started@),
            Payload::UnstructuredCommandLine { args: a } => p@
                matches PayloadView::UnstructuredCommandLine { args } && args.len() == a@.len()
                && (forall|i: int| 0 <= i < args.len() ==> #[trigger] args[i] == a@[i]@),
            Payload::Progress { stdout: o, stderr: e } => p@ matches PayloadView::Progress {
                stdout,
                stderr,
            } && stdout == o@ && stderr == e@,
            Payload::Expanded => p@ == PayloadView::Expanded,
            Payload::Configured { target_kind: k } => p@ matches PayloadView::Configured {
                target_kind,
            } && target_kind == k@,
            Payload::Configuration => p@ == PayloadView::Configuration,
            Payload::Action(action) => p@ == PayloadView::Action(action@),
            Payload::Completed { success: s } => p@ matches PayloadView::Completed { success }
                && success == s,
            Payload::TestResult {
                status: s,
                status_details: d,
                test_attempt_duration: t,
            } => p@ matches PayloadView::TestResult {
                status,
                status_details,
                test_attempt_duration,
            } && status == s && status_details == d@ && test_attempt_duration == t,
            Payload::TestSummary {
                overall_status: o,
                total_run_count: t,
                run_count: r,
                attempt_count: a,
                shard_count: s,
            } => p@ matches PayloadView::TestSummary {
                overall_status,
                total_run_count,
                run_count,
                attempt_count,
                shard_count,
            } && overall_status == o && total_run_count == t && run_count == r && attempt_count
                == a && shard_count == s,
            Payload::Finished {
                exit_code_name: n,
                exit_code: c,
                finish_time: t,
                failure_detail: d,
            } => p@ matches PayloadView::Finished {
                exit_code_name,
                exit_code,
                finish_time,
                failure_detail,
            } && exit_code_name == n@ && exit_code == c && finish_time == t && (d matches Some(text)
                ==> failure_detail == Some(text@)) && (d is None ==> failure_detail is None),
            Payload::Aborted { reason: r, description: d } => p@ matches PayloadView::Aborted {
                reason,
                description,
            } && reason == r && description == d@,
        },
{
}

/// What an event stands for keeps all of it.
pub proof fn law_build_events_are_seen_whole(e: BuildEvent)
    ensures
        e@.id == e.id@,
        e@.children.len() == e.children@.len(),
        forall|i: int| 0 <= i < e.children@.len() ==> #[trigger] e@.children[i] == e.children@[i]@,
        e@.last_message == e.last_message,
        e@.payload == e.payload@,
{
}

/// What a service is told keeps all of the event.
pub proof fn law_service_events_are_seen_whole(e: ServiceEvent)
    ensures
        match e {
            ServiceEvent::BuildEnqueued => e@ == ServiceEventView::BuildEnqueued,
            ServiceEvent::InvocationAttemptStarted { attempt_number: n } => e@
                matches ServiceEventView::InvocationAttemptStarted { attempt_number }
                && attempt_number == n,
            ServiceEvent::BazelEvent { type_url: t, event: b } => e@
                matches ServiceEventView::BazelEvent { type_url, event } && type_url == t@ && event
                == b@,
            ServiceEvent::ComponentStreamFinished(t) => e@
                == ServiceEventView::ComponentStreamFinished(t),
            ServiceEvent::InvocationAttemptFinished(s) => e@
                == ServiceEventView::InvocationAttemptFinished(s),
            ServiceEvent::BuildFinished(s) => e@ == ServiceEventView::BuildFinished(s),
        },
{
}

/// What a list of transport events stands for keeps each event with its time and with the
/// call by which it is sent.
pub proof fn law_transport_events_are_seen_whole(s: Seq<BesTransportEvent>)
    ensures
        views(s).len() == s.len(),
        forall|i: int|
            0 <= i < s.len() ==> match s[i] {
                BesTransportEvent::Lifecycle(t) => #[trigger] views(s)[i]
                    matches TransportView::Lifecycle(v) && v.event_time == t.event_time && v.event
                    == t.event@,
                BesTransportEvent::Stream(t) => views(s)[i] matches TransportView::Stream(v)
                    && v.event_time == t.event_time && v.event == t.event@,
            },
{
}

} // verus!
