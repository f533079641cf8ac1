//! Deciding whether the outputs of an action that is in the local action cache can be
//! used again, so that the action need not be executed.
//!
//! The outputs are read back from disk one by one, then what was read is extracted for
//! each, and the outputs that are build artifacts are declared, which tells whether they
//! are still valid. Anything that fails or is missing on the way means that the action
//! is executed after all.
use vstd::prelude::*;

use crate::action_cache;
use crate::cache_table::TableError;

verus! {

/// An output of an action.
#[derive(Clone, Copy, Debug, PartialEq, Eq, Structural)]
pub struct Output {
    /// The same for outputs that are equal.
    pub key: u64,
    /// Whether the output is a build artifact.
    pub is_build_artifact: bool,
    /// Whether the path of the output can be resolved.
    pub resolves: bool,
}

/// An output that can be used again: which one it is, and which one its value was
/// extracted for. They differ only where outputs are equal.
#[derive(Clone, Copy, Debug, PartialEq, Eq, Structural)]
pub struct Entry {
    pub output: usize,
    pub value: usize,
}

/// Why an action is executed.
#[derive(Clone, Copy, Debug, PartialEq, Eq, Structural)]
pub enum Reason {
    /// The cache could not be read.
    LookupFailed,
    /// The action is not in the cache.
    NotCached,
    /// The action is in the cache without outputs.
    NoPaths,
    /// The directory of the inputs could not be built.
    InputsFailed,
    /// The path of an output could not be resolved.
    Unresolved,
    /// An output could not be read from disk.
    ReadFailed,
    /// An output is missing from disk.
    OutputMissing,
    /// What was read could not be extracted.
    ExtractFailed,
    /// The outputs have changed on disk.
    OutputsChanged,
    /// The outputs could not be declared.
    DeclareFailed,
}

/// What the cache holds for an action.
#[derive(Clone, Copy, Debug, PartialEq, Eq, Structural)]
pub enum Lookup {
    Failed,
    NotCached,
    NoPaths,
    Paths,
}

/// What became of reading an output from disk.
#[derive(Clone, Copy, Debug, PartialEq, Eq, Structural)]
pub enum Read {
    Failed,
    Missing,
    Present,
}

/// What became of extracting the value of an output.
#[derive(Clone, Copy, Debug, PartialEq, Eq, Structural)]
pub enum Extraction {
    Failed,
    Nothing,
    Value,
}

/// What became of declaring outputs.
#[derive(Clone, Copy, Debug, PartialEq, Eq, Structural)]
pub enum Declaration {
    Failed,
    NotMatch,
    Match,
}

/// What was done.
#[derive(Clone, Copy, Debug, PartialEq, Eq, Structural)]
pub enum Event {
    Lookup(Lookup),
    Inputs { is_ok: bool },
    Read(Read),
    Extracted(Extraction),
    Declared(Declaration),
}

/// How far a check has come.
#[derive(Clone, Copy, Debug, PartialEq, Eq, Structural)]
pub enum Phase {
    Lookup,
    Inputs,
    /// An output is to be read from disk.
    Reading(usize),
    /// The value of an output is to be extracted.
    Extracting(usize),
    Declaring,
    Executing(Reason),
    Reusing,
}

/// The state of a check.
pub struct CheckState {
    pub outputs: Seq<Output>,
    pub phase: Phase,
    /// The outputs that have a value so far.
    pub entries: Seq<Entry>,
}

/// What the cache holds, by what a lookup gave.
pub open spec fn lookup_of(answer: Result<Option<String>, TableError>) -> Lookup {
    match answer {
        Err(_) => Lookup::Failed,
        Ok(None) => Lookup::NotCached,
        Ok(Some(data)) => {
            if action_cache::lines(data@).len() == 0 {
                Lookup::NoPaths
            } else {
                Lookup::Paths
            }
        },
    }
}

/// What the cache holds, by what a lookup gave.
pub fn read_lookup(answer: &Result<Option<String>, TableError>) -> (lookup: Lookup)
    ensures
        lookup == lookup_of(*answer),
{
    match answer {
        Err(_) => Lookup::Failed,
        Ok(None) => Lookup::NotCached,
        Ok(Some(data)) => {
            let paths = action_cache::cached_paths(data.as_str());
            assert(crate::bep::texts(paths@).len() == paths@.len());
            if paths.len() == 0 {
                Lookup::NoPaths
            } else {
                Lookup::Paths
            }
        },
    }
}

/// The first entry from `p` on whose output has the key `key`, or the number of entries.
pub open spec fn slot_from(
    outputs: Seq<Output>,
    entries: Seq<Entry>,
    key: u64,
    p: int,
) -> int
    decreases entries.len() - p,
{
    if p < 0 || p >= entries.len() {
        entries.len() as int
    } else if outputs[entries[p].output as int].key == key {
        p
    } else {
        slot_from(outputs, entries, key, p + 1)
    }
}

/// The entries with the value of output `i`: it replaces the value of an equal output,
/// if there is one.
pub open spec fn with_value(outputs: Seq<Output>, entries: Seq<Entry>, i: int) -> Seq<Entry> {
    let p = slot_from(outputs, entries, outputs[i].key, 0);
    if p < entries.len() {
        entries.update(p, Entry { output: entries[p].output, value: i as usize })
    } else {
        entries.push(Entry { output: i as usize, value: i as usize })
    }
}

/// What follows once the values of the first `i` outputs have been extracted.
pub open spec fn extract_next(outputs: Seq<Output>, i: int) -> Phase {
    if i < outputs.len() {
        Phase::Extracting(i as usize)
    } else {
        Phase::Declaring
    }
}

/// What follows once the first `i` outputs have been read.
pub open spec fn read_next(outputs: Seq<Output>, i: int) -> Phase {
    if i >= outputs.len() {
        extract_next(outputs, 0)
    } else if outputs[i].resolves {
        Phase::Reading(i as usize)
    } else {
        Phase::Executing(Reason::Unresolved)
    }
}

/// The state before anything has been done.
pub open spec fn start(outputs: Seq<Output>) -> CheckState {
    CheckState { outputs, phase: Phase::Lookup, entries: Seq::empty() }
}

/// What is made of a state by what was done. What was not to be done changes nothing.
pub open spec fn step(c: CheckState, event: Event) -> CheckState {
    match (c.phase, event) {
        (Phase::Lookup, Event::Lookup(lookup)) => CheckState {
            phase: match lookup {
                Lookup::Failed => Phase::Executing(Reason::LookupFailed),
                Lookup::NotCached => Phase::Executing(Reason::NotCached),
                Lookup::NoPaths => Phase::Executing(Reason::NoPaths),
                Lookup::Paths => Phase::Inputs,
            },
            ..c
        },
        (Phase::Inputs, Event::Inputs { is_ok }) => CheckState {
            phase: if is_ok {
                read_next(c.outputs, 0)
            } else {
                Phase::Executing(Reason::InputsFailed)
            },
            ..c
        },
        (Phase::Reading(i), Event::Read(read)) => CheckState {
            phase: match read {
                Read::Failed => Phase::Executing(Reason::ReadFailed),
                Read::Missing => Phase::Executing(Reason::OutputMissing),
                Read::Present => read_next(c.outputs, i + 1),
            },
            ..c
        },
        (Phase::Extracting(i), Event::Extracted(extraction)) => match extraction {
            Extraction::Failed => CheckState {
                phase: Phase::Executing(Reason::ExtractFailed),
                ..c
            },
            Extraction::Nothing => CheckState { phase: extract_next(c.outputs, i + 1), ..c },
            Extraction::Value => CheckState {
                phase: extract_next(c.outputs, i + 1),
                entries: with_value(c.outputs, c.entries, i as int),
                ..c
            },
        },
        (Phase::Declaring, Event::Declared(declaration)) => CheckState {
            phase: match declaration {
                Declaration::Failed => Phase::Executing(Reason::DeclareFailed),
                Declaration::NotMatch => Phase::Executing(Reason::OutputsChanged),
                Declaration::Match => Phase::Reusing,
            },
            ..c
        },
        _ => c,
    }
}

/// The entries whose outputs are build artifacts.
pub open spec fn artifacts(outputs: Seq<Output>, entries: Seq<Entry>) -> Seq<Entry>
    decreases entries.len(),
{
    if entries.len() == 0 {
        Seq::empty()
    } else if outputs[entries.last().output as int].is_build_artifact {
        artifacts(outputs, entries.drop_last()).push(entries.last())
    } else {
        artifacts(outputs, entries.drop_last())
    }
}

/// What is to be done.
#[derive(Debug)]
pub enum Action {
    /// Look the action up in the cache.
    LookUp,
    /// Build the directory of the inputs.
    PrepareInputs,
    /// Read an output from disk, and add it to the directory.
    ReadOutput(usize),
    /// Extract the value of an output from the directory.
    ExtractValue(usize),
    /// Declare outputs with their values, to learn whether they are still valid.
    DeclareMatch(Vec<Entry>),
    /// Execute the action.
    Execute(Reason),
    /// Do not execute the action, and use these outputs with their values.
    Reuse(Vec<Entry>),
}

/// What an [`Action`] stands for.
pub enum ActionView {
    LookUp,
    PrepareInputs,
    ReadOutput(usize),
    ExtractValue(usize),
    DeclareMatch(Seq<Entry>),
    Execute(Reason),
    Reuse(Seq<Entry>),
}

impl View for Action {
    type V = ActionView;

    open spec fn view(&self) -> ActionView {
        match *self {
            Action::LookUp => ActionView::LookUp,
            Action::PrepareInputs => ActionView::PrepareInputs,
            Action::ReadOutput(i) => ActionView::ReadOutput(i),
            Action::ExtractValue(i) => ActionView::ExtractValue(i),
            Action::DeclareMatch(entries) => ActionView::DeclareMatch(entries@),
            Action::Execute(reason) => ActionView::Execute(reason),
            Action::Reuse(entries) => ActionView::Reuse(entries@),
        }
    }
}

/// What is to be done in a state.
pub open spec fn action_of(c: CheckState) -> ActionView {
    match c.phase {
        Phase::Lookup => ActionView::LookUp,
        Phase::Inputs => ActionView::PrepareInputs,
        Phase::Reading(i) => ActionView::ReadOutput(i),
        Phase::Extracting(i) => ActionView::ExtractValue(i),
        Phase::Declaring => ActionView::DeclareMatch(artifacts(c.outputs, c.entries)),
        Phase::Executing(reason) => ActionView::Execute(reason),
        Phase::Reusing => ActionView::Reuse(c.entries),
    }
}

/// A check whether an action need not be executed.
#[derive(Debug)]
pub struct Check {
    outputs: Vec<Output>,
    phase: Phase,
    entries: Vec<Entry>,
}

impl View for Check {
    type V = CheckState;

    closed spec fn view(&self) -> CheckState {
        CheckState { outputs: self.outputs@, phase: self.phase, entries: self.entries@ }
    }
}

/// Whether a state speaks only of outputs that there are.
pub open spec fn is_valid(c: CheckState) -> bool {
    &&& c.outputs.len() <= usize::MAX
    &&& forall|p: int|
        0 <= p < c.entries.len() ==> (#[trigger] c.entries[p]).output < c.outputs.len()
            && c.entries[p].value < c.outputs.len()
    &&& match c.phase {
        Phase::Reading(i) => i < c.outputs.len(),
        Phase::Extracting(i) => i < c.outputs.len(),
        _ => true,
    }
}

/// A slot is an entry or the end.
proof fn lemma_slot(outputs: Seq<Output>, entries: Seq<Entry>, key: u64, p: int)
    requires
        0 <= p <= entries.len(),
    ensures
        p <= slot_from(outputs, entries, key, p) <= entries.len(),
        slot_from(outputs, entries, key, p) < entries.len() ==> outputs[entries[slot_from(
            outputs,
            entries,
            key,
            p,
        )].output as int].key == key,
        forall|q: int|
            p <= q < slot_from(outputs, entries, key, p) ==> outputs[(
            #[trigger] entries[q]).output as int].key != key,
    decreases entries.len() - p,
{
    if p < entries.len() && outputs[entries[p].output as int].key != key {
        lemma_slot(outputs, entries, key, p + 1);
    }
}

/// A value that is kept is that of an output that there is.
proof fn lemma_with_value(outputs: Seq<Output>, entries: Seq<Entry>, i: int)
    requires
        0 <= i < outputs.len() <= usize::MAX,
        forall|p: int|
            0 <= p < entries.len() ==> (#[trigger] entries[p]).output < outputs.len()
                && entries[p].value < outputs.len(),
    ensures
        forall|p: int|
            0 <= p < with_value(outputs, entries, i).len() ==> (#[trigger] with_value(
                outputs,
                entries,
                i,
            )[p]).output < outputs.len() && with_value(outputs, entries, i)[p].value
                < outputs.len(),
{
    let slot = slot_from(outputs, entries, outputs[i].key, 0);
    let all = with_value(outputs, entries, i);
    lemma_slot(outputs, entries, outputs[i].key, 0);
    assert forall|p: int| 0 <= p < all.len() implies (#[trigger] all[p]).output < outputs.len()
        && all[p].value < outputs.len() by {
        if p < entries.len() {
            assert(entries[p].output < outputs.len());
        }
    }
}

/// What is done never makes a check speak of an output that there is not.
pub proof fn law_checks_stay_valid(c: CheckState, event: Event)
    requires
        is_valid(c),
    ensures
        is_valid(step(c, event)),
{
    if let Phase::Extracting(i) = c.phase {
        lemma_with_value(c.outputs, c.entries, i as int);
    }
}

/// The phase that follows once the first `i` outputs have been read.
fn after_read(outputs: &Vec<Output>, i: usize) -> (phase: Phase)
    ensures
        phase == read_next(outputs@, i as int),
{
    if i >= outputs.len() {
        after_extraction(outputs, 0)
    } else if outputs[i].resolves {
        Phase::Reading(i)
    } else {
        Phase::Executing(Reason::Unresolved)
    }
}

/// The phase that follows once the values of the first `i` outputs have been extracted.
fn after_extraction(outputs: &Vec<Output>, i: usize) -> (phase: Phase)
    ensures
        phase == extract_next(outputs@, i as int),
{
    if i < outputs.len() {
        Phase::Extracting(i)
    } else {
        Phase::Declaring
    }
}

impl Check {
    /// The check speaks only of outputs that there are.
    pub open spec fn wf(&self) -> bool {
        is_valid(self@)
    }

    /// A check of an action with these outputs.
    pub fn new(outputs: Vec<Output>) -> (c: Check)
        ensures
            c@ == start(outputs@),
            c.wf(),
    {
        let c = Check { outputs, phase: Phase::Lookup, entries: Vec::new() };
        assert(c.outputs.len() <= usize::MAX);
        assert(c@.entries =~= Seq::empty());
        c
    }

    /// The entries whose outputs are build artifacts.
    fn declared(&self) -> (declared: Vec<Entry>)
        requires
            self.wf(),
        ensures
            declared@ == artifacts(self@.outputs, self@.entries),
    {
        let mut declared: Vec<Entry> = Vec::new();
        assert(self.entries@.subrange(0, 0) =~= Seq::empty());
        for p in 0..self.entries.len()
            invariant
                self.wf(),
                declared@ == artifacts(self.outputs@, self.entries@.subrange(0, p as int)),
        {
            let entry = self.entries[p];
            assert(self@.entries[p as int] == entry);
            let ghost now = self.entries@.subrange(0, p + 1);
            assert(now.drop_last() =~= self.entries@.subrange(0, p as int));
            if self.outputs[entry.output].is_build_artifact {
                declared.push(entry);
            }
        }
        assert(self.entries@.subrange(0, self.entries@.len() as int) =~= self.entries@);
        declared
    }

    /// The outputs that have a value so far.
    fn kept(&self) -> (kept: Vec<Entry>)
        ensures
            kept@ == self@.entries,
    {
        let mut kept: Vec<Entry> = Vec::new();
        for p in 0..self.entries.len()
            invariant
                kept@ == self.entries@.subrange(0, p as int),
        {
            kept.push(self.entries[p]);
            assert(kept@ =~= self.entries@.subrange(0, p + 1));
        }
        assert(self.entries@.subrange(0, self.entries@.len() as int) =~= self.entries@);
        kept
    }

    /// What is to be done next.
    pub fn action(&self) -> (action: Action)
        requires
            self.wf(),
        ensures
            action@ == action_of(self@),
    {
        match self.phase {
            Phase::Lookup => Action::LookUp,
            Phase::Inputs => Action::PrepareInputs,
            Phase::Reading(i) => Action::ReadOutput(i),
            Phase::Extracting(i) => Action::ExtractValue(i),
            Phase::Declaring => Action::DeclareMatch(self.declared()),
            Phase::Executing(reason) => Action::Execute(reason),
            Phase::Reusing => Action::Reuse(self.kept()),
        }
    }

    /// Keeps the value of output `i`.
    fn keep_value(&mut self, i: usize)
        requires
            old(self).wf(),
            i < old(self)@.outputs.len(),
        ensures
            final(self).wf(),
            final(self)@ == (CheckState {
                entries: with_value(old(self)@.outputs, old(self)@.entries, i as int),
                ..old(self)@
            }),
    {
        let key = self.outputs[i].key;
        let mut p: usize = 0;
        while p < self.entries.len() && self.outputs[self.entries[p].output].key != key
            invariant
                *self == *old(self),
                old(self).wf(),
                key == self@.outputs[i as int].key,
                0 <= p <= self@.entries.len(),
                slot_from(self@.outputs, self@.entries, key, 0) == slot_from(
                    self@.outputs,
                    self@.entries,
                    key,
                    p as int,
                ),
            decreases self@.entries.len() - p,
        {
            p = p + 1;
        }
        if p < self.entries.len() {
            let output = self.entries[p].output;
            self.entries.set(p, Entry { output, value: i });
        } else {
            self.entries.push(Entry { output: i, value: i });
        }
    }

    /// Takes what was done.
    pub fn on_event(&mut self, event: Event)
        requires
            old(self).wf(),
        ensures
            final(self).wf(),
            final(self)@ == step(old(self)@, event),
    {
        match (self.phase, event) {
            (Phase::Lookup, Event::Lookup(lookup)) => {
                self.phase = match lookup {
                    Lookup::Failed => Phase::Executing(Reason::LookupFailed),
                    Lookup::NotCached => Phase::Executing(Reason::NotCached),
                    Lookup::NoPaths => Phase::Executing(Reason::NoPaths),
                    Lookup::Paths => Phase::Inputs,
                };
            },
            (Phase::Inputs, Event::Inputs { is_ok }) => {
                self.phase = if is_ok {
                    after_read(&self.outputs, 0)
                } else {
                    Phase::Executing(Reason::InputsFailed)
                };
            },
            (Phase::Reading(i), Event::Read(read)) => {
                self.phase = match read {
                    Read::Failed => Phase::Executing(Reason::ReadFailed),
                    Read::Missing => Phase::Executing(Reason::OutputMissing),
                    Read::Present => after_read(&self.outputs, i + 1),
                };
            },
            (Phase::Extracting(i), Event::Extracted(extraction)) => {
                match extraction {
                    Extraction::Failed => {
                        self.phase = Phase::Executing(Reason::ExtractFailed);
                    },
                    Extraction::Nothing => {
                        self.phase = after_extraction(&self.outputs, i + 1);
                    },
                    Extraction::Value => {
                        self.keep_value(i);
                        self.phase = after_extraction(&self.outputs, i + 1);
                    },
                }
            },
            (Phase::Declaring, Event::Declared(declaration)) => {
                self.phase = match declaration {
                    Declaration::Failed => Phase::Executing(Reason::DeclareFailed),
                    Declaration::NotMatch => Phase::Executing(Reason::OutputsChanged),
                    Declaration::Match => Phase::Reusing,
                };
            },
            _ => {},
        }
        proof {
            law_checks_stay_valid(old(self)@, event);
        }
    }
}

// The course of a check

/// What becomes of what is done.
pub struct World {
    pub lookup: Lookup,
    pub inputs: bool,
    pub reads: Seq<Read>,
    pub extractions: Seq<Extraction>,
    pub declaration: Declaration,
}

/// What becomes of what is done in a phase.
pub open spec fn answer(w: World, phase: Phase) -> Event {
    match phase {
        Phase::Lookup => Event::Lookup(w.lookup),
        Phase::Inputs => Event::Inputs { is_ok: w.inputs },
        Phase::Reading(i) => Event::Read(w.reads[i as int]),
        Phase::Extracting(i) => Event::Extracted(w.extractions[i as int]),
        _ => Event::Declared(w.declaration),
    }
}

/// A check after `n` things have been done.
pub open spec fn run(c: CheckState, w: World, n: nat) -> CheckState
    decreases n,
{
    if n == 0 {
        c
    } else {
        run(step(c, answer(w, c.phase)), w, (n - 1) as nat)
    }
}

/// Whether a check has come to its end.
pub open spec fn is_over(phase: Phase) -> bool {
    match phase {
        Phase::Executing(_) => true,
        Phase::Reusing => true,
        _ => false,
    }
}

/// The entries once the values of the first `n` outputs have been extracted.
pub open spec fn kept_after(
    outputs: Seq<Output>,
    extractions: Seq<Extraction>,
    n: int,
) -> Seq<Entry>
    decreases n,
{
    if n <= 0 {
        Seq::empty()
    } else if extractions[n - 1] == Extraction::Value {
        with_value(outputs, kept_after(outputs, extractions, n - 1), n - 1)
    } else {
        kept_after(outputs, extractions, n - 1)
    }
}

/// Whether an output is on disk and can be read.
pub open spec fn is_readable(outputs: Seq<Output>, w: World, j: int) -> bool {
    outputs[j].resolves && w.reads[j] == Read::Present
}

/// Whether the outputs from `i` on can be read.
pub open spec fn can_be_read(outputs: Seq<Output>, w: World, i: int) -> bool {
    forall|j: int| i <= j < outputs.len() ==> #[trigger] is_readable(outputs, w, j)
}

/// Whether the values of the outputs from `i` on can be extracted.
pub open spec fn can_be_extracted(outputs: Seq<Output>, w: World, i: int) -> bool {
    forall|j: int|
        i <= j < outputs.len() ==> #[trigger] w.extractions[j] != Extraction::Failed
}

/// A check that is over stays as it is.
proof fn lemma_over(c: CheckState, w: World, n: nat)
    requires
        is_over(c.phase),
    ensures
        run(c, w, n) == c,
    decreases n,
{
    if n > 0 {
        lemma_over(c, w, (n - 1) as nat);
    }
}

/// The course of a check from the extraction of the value of output `i` on.
proof fn lemma_extracting(outputs: Seq<Output>, w: World, i: int, n: nat)
    requires
        0 <= i <= outputs.len() <= usize::MAX,
        n >= outputs.len() - i + 1,
    ensures
        ({
            let c = CheckState {
                outputs,
                phase: extract_next(outputs, i),
                entries: kept_after(outputs, w.extractions, i),
            };
            let end = run(c, w, n);
            &&& is_over(end.phase)
            &&& end.phase == Phase::Reusing <==> can_be_extracted(outputs, w, i) && w.declaration
                == Declaration::Match
            &&& end.phase == Phase::Reusing ==> end.entries == kept_after(
                outputs,
                w.extractions,
                outputs.len() as int,
            )
        }),
    decreases outputs.len() - i,
{
    let c = CheckState {
        outputs,
        phase: extract_next(outputs, i),
        entries: kept_after(outputs, w.extractions, i),
    };
    let next = step(c, answer(w, c.phase));
    if i < outputs.len() {
        if w.extractions[i] == Extraction::Failed {
            lemma_over(next, w, (n - 1) as nat);
        } else {
            lemma_extracting(outputs, w, i + 1, (n - 1) as nat);
            assert(next.entries == kept_after(outputs, w.extractions, i + 1));
        }
    } else {
        lemma_over(next, w, (n - 1) as nat);
    }
}

/// The course of a check from the reading of output `i` on.
proof fn lemma_reading(outputs: Seq<Output>, w: World, i: int, n: nat)
    requires
        0 <= i <= outputs.len() <= usize::MAX,
        n >= outputs.len() - i + outputs.len() + 1,
    ensures
        ({
            let c = CheckState {
                outputs,
                phase: read_next(outputs, i),
                entries: Seq::empty(),
            };
            let end = run(c, w, n);
            &&& is_over(end.phase)
            &&& end.phase == Phase::Reusing <==> can_be_read(outputs, w, i) && can_be_extracted(
                outputs,
                w,
                0,
            ) && w.declaration == Declaration::Match
            &&& end.phase == Phase::Reusing ==> end.entries == kept_after(
                outputs,
                w.extractions,
                outputs.len() as int,
            )
        }),
    decreases outputs.len() - i,
{
    let c = CheckState { outputs, phase: read_next(outputs, i), entries: Seq::empty() };
    let next = step(c, answer(w, c.phase));
    if i < outputs.len() {
        assert(can_be_read(outputs, w, i) ==> is_readable(outputs, w, i));
        if !outputs[i].resolves {
            lemma_over(c, w, n);
        } else if w.reads[i] != Read::Present {
            lemma_over(next, w, (n - 1) as nat);
        } else {
            lemma_reading(outputs, w, i + 1, (n - 1) as nat);
            assert(can_be_read(outputs, w, i) == can_be_read(outputs, w, i + 1)) by {
                assert(is_readable(outputs, w, i));
            }
        }
    } else {
        lemma_extracting(outputs, w, 0, n);
        assert(kept_after(outputs, w.extractions, 0) =~= Seq::empty());
    }
}

/// An action is not executed exactly if the cache holds paths for it, all its outputs
/// are on disk and can be read back, and they are still valid. The outputs that are used
/// are those with a value.
pub proof fn law_outputs_are_reused_only_if_verified(outputs: Seq<Output>, w: World)
    requires
        outputs.len() <= usize::MAX,
    ensures
        ({
            let end = run(start(outputs), w, (2 * outputs.len() + 3) as nat);
            &&& is_over(end.phase)
            &&& end.phase == Phase::Reusing <==> {
                &&& w.lookup == Lookup::Paths
                &&& w.inputs
                &&& can_be_read(outputs, w, 0)
                &&& can_be_extracted(outputs, w, 0)
                &&& w.declaration == Declaration::Match
            }
            &&& end.phase == Phase::Reusing ==> end.entries == kept_after(
                outputs,
                w.extractions,
                outputs.len() as int,
            )
        }),
{
    let c = start(outputs);
    let n = (2 * outputs.len() + 3) as nat;
    let looked_up = step(c, answer(w, c.phase));
    if w.lookup != Lookup::Paths {
        lemma_over(looked_up, w, (n - 1) as nat);
    } else {
        let prepared = step(looked_up, answer(w, looked_up.phase));
        if w.inputs {
            lemma_reading(outputs, w, 0, (n - 2) as nat);
            assert(run(looked_up, w, (n - 1) as nat) == run(prepared, w, (n - 2) as nat));
        } else {
            assert(run(looked_up, w, (n - 1) as nat) == run(prepared, w, (n - 2) as nat));
            lemma_over(prepared, w, (n - 2) as nat);
        }
    }
}

/// An action that is in the cache without outputs is executed.
pub proof fn law_empty_records_are_not_reused(outputs: Seq<Output>, data: String, w: World)
    requires
        outputs.len() <= usize::MAX,
        w.lookup == lookup_of(Ok(Some(data))),
        data@.len() == 0,
    ensures
        run(start(outputs), w, (2 * outputs.len() + 3) as nat).phase == Phase::Executing(
            Reason::NoPaths,
        ),
{
    action_cache::law_only_empty_data_has_no_paths(data@);
    let c = start(outputs);
    lemma_over(step(c, answer(w, c.phase)), w, (2 * outputs.len() + 2) as nat);
}

/// Whether there is an entry for an output with the key `key`.
pub open spec fn has_entry(outputs: Seq<Output>, entries: Seq<Entry>, key: u64) -> bool {
    exists|p: int|
        0 <= p < entries.len() && outputs[(#[trigger] entries[p]).output as int].key == key
}

/// Whether entries stand for the outputs among the first `n` that have a value: one for
/// each that differs, with the value of an equal output.
pub open spec fn stand_for(
    outputs: Seq<Output>,
    extractions: Seq<Extraction>,
    entries: Seq<Entry>,
    n: int,
) -> bool {
    &&& forall|p: int|
        0 <= p < entries.len() ==> {
            &&& (#[trigger] entries[p]).output <= entries[p].value < n
            &&& extractions[entries[p].output as int] == Extraction::Value
            &&& extractions[entries[p].value as int] == Extraction::Value
            &&& outputs[entries[p].output as int].key == outputs[entries[p].value as int].key
        }
    &&& forall|p: int, q: int|
        0 <= p < q < entries.len() ==> outputs[(#[trigger] entries[p]).output as int].key
            != outputs[(#[trigger] entries[q]).output as int].key
    &&& forall|i: int|
        0 <= i < n && #[trigger] extractions[i] == Extraction::Value ==> has_entry(
            outputs,
            entries,
            outputs[i].key,
        )
}

/// The outputs that are used are those with a value, each once.
pub proof fn law_reused_outputs_have_values(
    outputs: Seq<Output>,
    extractions: Seq<Extraction>,
    n: int,
)
    requires
        0 <= n <= outputs.len() <= usize::MAX,
    ensures
        stand_for(outputs, extractions, kept_after(outputs, extractions, n), n),
    decreases n,
{
    if n > 0 {
        law_reused_outputs_have_values(outputs, extractions, n - 1);
        let before = kept_after(outputs, extractions, n - 1);
        let after = kept_after(outputs, extractions, n);
        if extractions[n - 1] == Extraction::Value {
            let key = outputs[n - 1].key;
            let slot = slot_from(outputs, before, key, 0);
            lemma_slot(outputs, before, key, 0);
            assert forall|p: int| 0 <= p < before.len() implies after[p].output == (
            #[trigger] before[p]).output by {}
            assert forall|i: int|
                0 <= i < n && #[trigger] extractions[i] == Extraction::Value implies has_entry(
                outputs,
                after,
                outputs[i].key,
            ) by {
                if i < n - 1 {
                    assert(has_entry(outputs, before, outputs[i].key));
                    let p = choose|p: int|
                        0 <= p < before.len() && outputs[(#[trigger] before[p]).output as int].key
                            == outputs[i].key;
                    assert(outputs[after[p].output as int].key == outputs[i].key);
                } else {
                    assert(outputs[after[slot].output as int].key == outputs[i].key);
                }
            }
            assert forall|p: int, q: int| 0 <= p < q < after.len() implies outputs[(
            #[trigger] after[p]).output as int].key != outputs[(
            #[trigger] after[q]).output as int].key by {
                if q < before.len() {
                    assert(before[p].output == after[p].output);
                    assert(before[q].output == after[q].output);
                } else {
                    assert(before[p].output == after[p].output);
                }
            }
            assert forall|p: int| 0 <= p < after.len() implies {
                &&& (#[trigger] after[p]).output <= after[p].value < n
                &&& extractions[after[p].output as int] == Extraction::Value
                &&& extractions[after[p].value as int] == Extraction::Value
                &&& outputs[after[p].output as int].key == outputs[after[p].value as int].key
            } by {
                if p < before.len() {
                    assert(before[p].output == after[p].output);
                    assert(before[p].output <= before[p].value);
                }
            }
        }
    }
}

// What is to be done, and when

/// The entries whose outputs are build artifacts are those that the test for it keeps.
proof fn lemma_artifacts(outputs: Seq<Output>, entries: Seq<Entry>)
    ensures
        artifacts(outputs, entries) == entries.filter(
            |e: Entry| outputs[e.output as int].is_build_artifact,
        ),
        forall|e: Entry| #[trigger]
            artifacts(outputs, entries).contains(e) <==> entries.contains(e)
                && outputs[e.output as int].is_build_artifact,
    decreases entries.len(),
{
    reveal(Seq::filter);
    if entries.len() > 0 {
        let rest = entries.drop_last();
        let last = entries.last();
        let before = artifacts(outputs, rest);
        let after = artifacts(outputs, entries);
        lemma_artifacts(outputs, rest);
        assert forall|e: Entry| #[trigger] after.contains(e) <==> entries.contains(e)
            && outputs[e.output as int].is_build_artifact by {
            assert(before.contains(e) <==> rest.contains(e)
                && outputs[e.output as int].is_build_artifact);
            assert(entries.contains(e) <==> rest.contains(e) || e == last) by {
                if entries.contains(e) && e != last {
                    let i = choose|i: int| 0 <= i < entries.len() && entries[i] == e;
                    assert(rest[i] == e);
                }
                if rest.contains(e) {
                    let i = choose|i: int| 0 <= i < rest.len() && rest[i] == e;
                    assert(entries[i] == e);
                }
                assert(entries[entries.len() - 1] == last);
            }
            if outputs[last.output as int].is_build_artifact {
                if after.contains(e) && e != last {
                    let i = choose|i: int| 0 <= i < after.len() && after[i] == e;
                    assert(before[i] == e);
                }
                if before.contains(e) {
                    let i = choose|i: int| 0 <= i < before.len() && before[i] == e;
                    assert(after[i] == e);
                }
                assert(after[after.len() - 1] == last);
            }
        }
    }
}

/// When a check declares outputs, an entry is among those that are declared exactly if it
/// is among the entries that have been kept and its output is a build artifact, and they
/// keep their order. If what was declared still matches, the entries that have been kept
/// are used: so every build artifact that is used has been declared.
pub proof fn law_reused_artifacts_are_declared(c: CheckState)
    requires
        c.phase == Phase::Declaring,
    ensures
        ({
            let next = step(c, Event::Declared(Declaration::Match));
            &&& action_of(c) matches ActionView::DeclareMatch(declared) && {
                &&& declared == c.entries.filter(
                    |e: Entry| c.outputs[e.output as int].is_build_artifact,
                )
                &&& forall|e: Entry| #[trigger]
                    declared.contains(e) <==> c.entries.contains(e)
                        && c.outputs[e.output as int].is_build_artifact
                &&& action_of(next) matches ActionView::Reuse(used) && {
                    &&& used == c.entries
                    &&& forall|e: Entry| #[trigger]
                        used.contains(e) && c.outputs[e.output as int].is_build_artifact
                            ==> declared.contains(e)
                }
            }
        }),
{
    lemma_artifacts(c.outputs, c.entries);
}

/// Outputs are used only where they have just been declared and still match.
pub proof fn law_outputs_are_declared_before_reuse(c: CheckState, event: Event)
    requires
        action_of(step(c, event)) is Reuse,
        !(action_of(c) is Reuse),
    ensures
        action_of(c) is DeclareMatch,
        event == Event::Declared(Declaration::Match),
        action_of(step(c, event)) == ActionView::Reuse(c.entries),
{
}

/// A check begins with looking the action up, for the outputs it was given and with none
/// kept.
pub proof fn law_checks_begin_with_a_lookup(outputs: Seq<Output>)
    ensures
        action_of(start(outputs)) == ActionView::LookUp,
        start(outputs).outputs == outputs,
        start(outputs).entries == Seq::<Entry>::empty(),
{
}

/// Whatever is done, a check stays with its outputs. What was not asked for changes
/// nothing, and nothing changes a check that has come to its end.
pub proof fn law_only_what_was_asked_for_counts(c: CheckState, event: Event)
    ensures
        step(c, event).outputs == c.outputs,
        !(match event {
            Event::Lookup(_) => action_of(c) is LookUp,
            Event::Inputs { .. } => action_of(c) is PrepareInputs,
            Event::Read(_) => action_of(c) is ReadOutput,
            Event::Extracted(_) => action_of(c) is ExtractValue,
            Event::Declared(_) => action_of(c) is DeclareMatch,
        }) ==> step(c, event) == c,
{
}

/// An action whose lookup fails, that is not in the cache or that has no paths there is
/// executed, each for its own reason; with paths its inputs are prepared.
pub proof fn law_lookup_decides(c: CheckState)
    requires
        action_of(c) is LookUp,
    ensures
        action_of(step(c, Event::Lookup(Lookup::Failed))) == ActionView::Execute(
            Reason::LookupFailed,
        ),
        action_of(step(c, Event::Lookup(Lookup::NotCached))) == ActionView::Execute(
            Reason::NotCached,
        ),
        action_of(step(c, Event::Lookup(Lookup::NoPaths))) == ActionView::Execute(
            Reason::NoPaths,
        ),
        action_of(step(c, Event::Lookup(Lookup::Paths))) == ActionView::PrepareInputs,
        forall|lookup: Lookup|
            (#[trigger] step(c, Event::Lookup(lookup))).entries == c.entries,
{
}

/// Where the inputs cannot be prepared the action is executed. Otherwise the first output
/// is read, unless its path cannot be resolved; an action without outputs goes on to the
/// declaration.
pub proof fn law_inputs_come_before_outputs(c: CheckState)
    requires
        action_of(c) is PrepareInputs,
    ensures
        action_of(step(c, Event::Inputs { is_ok: false })) == ActionView::Execute(
            Reason::InputsFailed,
        ),
        c.outputs.len() > 0 && c.outputs[0].resolves ==> action_of(
            step(c, Event::Inputs { is_ok: true }),
        ) == ActionView::ReadOutput(0),
        c.outputs.len() > 0 && !c.outputs[0].resolves ==> action_of(
            step(c, Event::Inputs { is_ok: true }),
        ) == ActionView::Execute(Reason::Unresolved),
        c.outputs.len() == 0 ==> action_of(
            step(c, Event::Inputs { is_ok: true }),
        ) is DeclareMatch,
        step(c, Event::Inputs { is_ok: true }).entries == c.entries,
{
}

/// The outputs are read one after another. One that cannot be read, that is missing or
/// whose path cannot be resolved has the action executed, each for its own reason. Once
/// all have been read, their values are extracted from the first on.
pub proof fn law_outputs_are_read_in_order(c: CheckState, i: usize)
    requires
        action_of(c) == ActionView::ReadOutput(i),
        i < c.outputs.len() <= usize::MAX,
    ensures
        action_of(step(c, Event::Read(Read::Failed))) == ActionView::Execute(Reason::ReadFailed),
        action_of(step(c, Event::Read(Read::Missing))) == ActionView::Execute(
            Reason::OutputMissing,
        ),
        i + 1 < c.outputs.len() && c.outputs[i + 1].resolves ==> action_of(
            step(c, Event::Read(Read::Present)),
        ) == ActionView::ReadOutput((i + 1) as usize),
        i + 1 < c.outputs.len() && !c.outputs[i + 1].resolves ==> action_of(
            step(c, Event::Read(Read::Present)),
        ) == ActionView::Execute(Reason::Unresolved),
        i + 1 == c.outputs.len() ==> action_of(
            step(c, Event::Read(Read::Present)),
        ) == ActionView::ExtractValue(0),
        step(c, Event::Read(Read::Present)).entries == c.entries,
{
}

/// The values of the outputs are extracted one after another, whether there is one or not,
/// and the outputs are declared after the last. An extraction that fails has the action
/// executed. Only an extraction with a value keeps something.
pub proof fn law_values_are_extracted_in_order(c: CheckState, i: usize)
    requires
        action_of(c) == ActionView::ExtractValue(i),
        i < c.outputs.len() <= usize::MAX,
    ensures
        action_of(step(c, Event::Extracted(Extraction::Failed))) == ActionView::Execute(
            Reason::ExtractFailed,
        ),
        i + 1 < c.outputs.len() ==> action_of(
            step(c, Event::Extracted(Extraction::Nothing)),
        ) == ActionView::ExtractValue((i + 1) as usize) && action_of(
            step(c, Event::Extracted(Extraction::Value)),
        ) == ActionView::ExtractValue((i + 1) as usize),
        i + 1 == c.outputs.len() ==> action_of(
            step(c, Event::Extracted(Extraction::Nothing)),
        ) is DeclareMatch && action_of(
            step(c, Event::Extracted(Extraction::Value)),
        ) is DeclareMatch,
        step(c, Event::Extracted(Extraction::Nothing)).entries == c.entries,
{
}

/// A value is kept for its output. Where an equal output has been kept before, the value
/// takes the place of the earlier one there, and nothing else changes.
pub proof fn law_values_are_kept_for_their_outputs(c: CheckState, i: usize)
    requires
        action_of(c) == ActionView::ExtractValue(i),
        i < c.outputs.len(),
    ensures
        ({
            let after = step(c, Event::Extracted(Extraction::Value)).entries;
            let is_equal = |p: int|
                c.outputs[c.entries[p].output as int].key == c.outputs[i as int].key;
            &&& (forall|p: int| 0 <= p < c.entries.len() ==> !#[trigger] is_equal(p))
                ==> after == c.entries.push(Entry { output: i, value: i })
            &&& forall|p: int|
                0 <= p < c.entries.len() && #[trigger] is_equal(p) && (forall|q: int|
                    0 <= q < p ==> !#[trigger] is_equal(q)) ==> {
                    &&& after.len() == c.entries.len()
                    &&& after[p].output == c.entries[p].output
                    &&& after[p].value == i
                    &&& forall|q: int|
                        0 <= q < after.len() && q != p ==> #[trigger] after[q] == c.entries[q]
                }
        }),
{
    let slot = slot_from(c.outputs, c.entries, c.outputs[i as int].key, 0);
    lemma_slot(c.outputs, c.entries, c.outputs[i as int].key, 0);
    let is_equal = |p: int| c.outputs[c.entries[p].output as int].key == c.outputs[i as int].key;
    if slot < c.entries.len() {
        assert(is_equal(slot));
    }
    assert forall|p: int|
        0 <= p < c.entries.len() && #[trigger] is_equal(p) && (forall|q: int|
            0 <= q < p ==> !#[trigger] is_equal(q)) implies p == slot by {
        if p < slot {
            assert(c.outputs[c.entries[p].output as int].key != c.outputs[i as int].key);
        } else if slot < p {
            assert(is_equal(slot));
        }
    }
}

/// Outputs that have changed, or that cannot be declared, have the action executed.
pub proof fn law_declaration_decides(c: CheckState)
    requires
        action_of(c) is DeclareMatch,
    ensures
        action_of(step(c, Event::Declared(Declaration::Failed))) == ActionView::Execute(
            Reason::DeclareFailed,
        ),
        action_of(step(c, Event::Declared(Declaration::NotMatch))) == ActionView::Execute(
            Reason::OutputsChanged,
        ),
        action_of(step(c, Event::Declared(Declaration::Match))) == ActionView::Reuse(c.entries),
{
}

/// Whether entries are those of the first of equal outputs, each with the value of the
/// last, and in the order of the outputs.
pub open spec fn are_first_and_last(
    outputs: Seq<Output>,
    extractions: Seq<Extraction>,
    entries: Seq<Entry>,
    n: int,
) -> bool {
    &&& forall|p: int, i: int|
        0 <= p < entries.len() && 0 <= i < n && extractions[i] == Extraction::Value && (
        #[trigger] outputs[i]).key == outputs[(#[trigger] entries[p]).output as int].key
            ==> entries[p].output <= i <= entries[p].value
    &&& forall|p: int, q: int|
        0 <= p < q < entries.len() ==> (#[trigger] entries[p]).output < (
        #[trigger] entries[q]).output
}

/// The outputs that are used stand in their order. Of outputs that are equal the first is
/// used, with the value of the last that has one.
pub proof fn law_last_value_of_equal_outputs_is_used(
    outputs: Seq<Output>,
    extractions: Seq<Extraction>,
    n: int,
)
    requires
        0 <= n <= outputs.len() <= usize::MAX,
    ensures
        are_first_and_last(outputs, extractions, kept_after(outputs, extractions, n), n),
    decreases n,
{
    if n > 0 {
        law_last_value_of_equal_outputs_is_used(outputs, extractions, n - 1);
        law_reused_outputs_have_values(outputs, extractions, n - 1);
        let before = kept_after(outputs, extractions, n - 1);
        let after = kept_after(outputs, extractions, n);
        if extractions[n - 1] == Extraction::Value {
            let key = outputs[n - 1].key;
            let slot = slot_from(outputs, before, key, 0);
            lemma_slot(outputs, before, key, 0);
            assert forall|p: int, i: int|
                0 <= p < after.len() && 0 <= i < n && extractions[i] == Extraction::Value && (
                #[trigger] outputs[i]).key == outputs[(
                #[trigger] after[p]).output as int].key implies after[p].output <= i
                <= after[p].value by {
                if p < before.len() {
                    assert(before[p].output == after[p].output);
                    if i < n - 1 {
                        assert(before[p].output <= i <= before[p].value);
                    } else {
                        assert(before[p].output <= before[p].value < n - 1);
                        assert(p == slot) by {
                            assert(slot <= p);
                            if slot < p {
                                assert(outputs[before[slot].output as int].key
                                    != outputs[before[p].output as int].key);
                            }
                        }
                    }
                } else if i < n - 1 {
                    assert(has_entry(outputs, before, outputs[i].key));
                    let q = choose|q: int|
                        0 <= q < before.len() && outputs[(#[trigger] before[q]).output as int].key
                            == outputs[i].key;
                    assert(outputs[before[q].output as int].key == key);
                }
            }
            assert forall|p: int, q: int| 0 <= p < q < after.len() implies (
            #[trigger] after[p]).output < (#[trigger] after[q]).output by {
                assert(before[p].output == after[p].output);
                if q < before.len() {
                    assert(before[q].output == after[q].output);
                } else {
                    assert(before[p].output <= before[p].value < n - 1);
                }
            }
        } else {
            assert forall|p: int, i: int|
                0 <= p < after.len() && 0 <= i < n && extractions[i] == Extraction::Value && (
                #[trigger] outputs[i]).key == outputs[(
                #[trigger] after[p]).output as int].key implies after[p].output <= i
                <= after[p].value by {
                assert(i < n - 1);
            }
        }
    }
}

/// What a lookup gave tells what the cache holds: an error is a failure, and what was found
/// has paths unless it is empty.
pub proof fn law_lookups_are_told_apart(answer: Result<Option<String>, TableError>)
    ensures
        answer is Err ==> lookup_of(answer) == Lookup::Failed,
        answer matches Ok(None) ==> lookup_of(answer) == Lookup::NotCached,
        answer matches Ok(Some(data)) ==> lookup_of(answer) == if data@.len() == 0 {
            Lookup::NoPaths
        } else {
            Lookup::Paths
        },
{
    if let Ok(Some(data)) = answer {
        action_cache::law_only_empty_data_has_no_paths(data@);
    }
}

/// What is to be done is told apart, with all that belongs to it.
pub proof fn law_actions_are_seen_whole(action: Action)
    ensures
        match action {
            Action::LookUp => action@ == ActionView::LookUp,
            Action::PrepareInputs => action@ == ActionView::PrepareInputs,
            Action::ReadOutput(i) => action@ == ActionView::ReadOutput(i),
            Action::ExtractValue(i) => action@ == ActionView::ExtractValue(i),
            Action::DeclareMatch(entries) => action@ == ActionView::DeclareMatch(entries@),
            Action::Execute(reason) => action@ == ActionView::Execute(reason),
            Action::Reuse(entries) => action@ == ActionView::Reuse(entries@),
        },
{
}

} // verus!
