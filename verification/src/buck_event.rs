//! The events that a build command produces, as far as they are reported.
//!
//! Parts of an event that no report depends on are not represented: the variants
//! named `Other` stand for all the kinds of a message that are passed over.
use vstd::prelude::*;

verus! {

/// A point in time: seconds and nanoseconds since the Unix epoch.
#[derive(Clone, Copy, Debug, PartialEq, Eq, Structural)]
pub struct Timestamp {
    pub seconds: i64,
    pub nanos: i32,
}

/// A span of time in seconds and nanoseconds.
#[derive(Clone, Copy, Debug, PartialEq, Eq, Structural)]
pub struct TimeSpan {
    pub seconds: i64,
    pub nanos: i32,
}

/// A target by its package and its name within the package.
#[derive(Debug)]
pub struct TargetLabel {
    pub package: String,
    pub name: String,
}

/// A target label together with the full name of its configuration.
#[derive(Debug)]
pub struct ConfiguredTargetLabel {
    pub label: Option<TargetLabel>,
    pub configuration: Option<String>,
}

/// Which command a command span belongs to.
#[derive(Clone, Copy, Debug, PartialEq, Eq, Structural)]
pub enum CommandKind {
    Build,
    Test,
    Other,
}

/// The start of a command.
#[derive(Debug)]
pub struct CommandStart {
    pub kind: Option<CommandKind>,
    pub cli_args: Vec<String>,
}

/// The end of a command.
#[derive(Clone, Copy, Debug)]
pub struct CommandEnd {
    pub kind: Option<CommandKind>,
    pub is_success: bool,
}

/// What an analysis is of.
#[derive(Debug)]
pub enum AnalysisTarget {
    Standard(ConfiguredTargetLabel),
    Other,
}

/// The start of the analysis of a target.
#[derive(Debug)]
pub struct AnalysisStart {
    pub target: Option<AnalysisTarget>,
    pub rule: String,
}

/// What an action was executed for.
#[derive(Debug)]
pub enum ActionOwner {
    Target(ConfiguredTargetLabel),
    TestTarget(ConfiguredTargetLabel),
    LocalResourceSetup(ConfiguredTargetLabel),
    /// An anonymous target has a label and no configuration.
    AnonTarget(Option<TargetLabel>),
    Bxl,
}

/// How a command was run, and with which arguments or as which action.
#[derive(Debug)]
pub enum Command {
    Local(Vec<String>),
    Remote { action_digest: String },
    Worker(Vec<String>),
    WorkerInit(Vec<String>),
    OmittedLocal { action_digest: String },
}

/// When a command ran and for how long.
#[derive(Clone, Copy, Debug)]
pub struct ExecutionMetadata {
    pub start_time: Option<Timestamp>,
    pub wall_time: Option<TimeSpan>,
}

/// The particulars of one execution of a command.
#[derive(Debug)]
pub struct CommandDetails {
    pub signed_exit_code: Option<i32>,
    pub cmd_stdout: String,
    pub cmd_stderr: String,
    pub command: Option<Command>,
    pub metadata: Option<ExecutionMetadata>,
}

/// The end of the execution of an action.
#[derive(Debug)]
pub struct ActionExecutionEnd {
    pub owner: Option<ActionOwner>,
    /// The category of the action, where the action has a name.
    pub category: Option<String>,
    pub failed: bool,
    /// One entry for each command that the action ran, with its details if known.
    pub commands: Vec<Option<CommandDetails>>,
}

/// The status number of a test that passed.
pub const TEST_STATUS_PASS: i32 = 0;

/// The result of one test.
#[derive(Debug)]
pub struct TestResult {
    pub name: String,
    pub status: i32,
    pub duration: Option<TimeSpan>,
    pub target_label: Option<ConfiguredTargetLabel>,
}

/// The data of the start of a span.
#[derive(Debug)]
pub enum SpanStart {
    Command(CommandStart),
    Analysis(AnalysisStart),
    Other,
}

/// The data of the end of a span.
#[derive(Debug)]
pub enum SpanEnd {
    Command(CommandEnd),
    ActionExecution(ActionExecutionEnd),
    Other,
}

/// The data of an instant event.
#[derive(Debug)]
pub enum Instant {
    TargetPatterns(Vec<String>),
    ConsoleMessage(String),
    ConsoleWarning(String),
    StreamingOutput(String),
    TestResult(TestResult),
    Other,
}

/// The data of an event.
#[derive(Debug)]
pub enum EventData {
    SpanStart(Option<SpanStart>),
    SpanEnd(Option<SpanEnd>),
    Instant(Option<Instant>),
    Record,
}

/// An event of a command, which is known by its trace identifier.
#[derive(Debug)]
pub struct BuckEvent {
    pub timestamp: Timestamp,
    pub trace_id: String,
    pub data: EventData,
}

} // verus!
