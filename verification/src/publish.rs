//! Publishing the events of a build: which of the service's streams an event belongs
//! to, its number there, and when it may be sent.
//!
//! The service keeps three streams for a build. The build stream holds the enqueueing
//! and the end of the build, the invocation stream the start and the end of the
//! invocation, and the tool stream everything else. The ends may only be sent once the
//! tool stream is closed and acknowledged; until then they are held.
use vstd::hash_set::StringHashSet;
use vstd::prelude::*;

use crate::bep::{
    BesTransportEvent, BuildStatus, ServiceEvent, ServiceEventView, TimedEvent, TimedEventView,
    TransportView,
};
use crate::buck_event::{BuckEvent, EventData, SpanEnd, Timestamp};
use crate::order;
use crate::reporting;

verus! {

/// What a stream of events comes from.
#[derive(Clone, Copy, Debug, PartialEq, Eq, Structural)]
pub enum BuildComponent {
    Unknown,
    Tool,
}

/// The identifier of a stream of events.
#[derive(Debug)]
pub struct StreamId {
    pub build_id: String,
    pub invocation_id: String,
    pub component: BuildComponent,
}

/// What a [`StreamId`] stands for.
pub struct StreamIdView {
    pub build_id: Seq<char>,
    pub invocation_id: Seq<char>,
    pub component: BuildComponent,
}

impl View for StreamId {
    type V = StreamIdView;

    open spec fn view(&self) -> StreamIdView {
        StreamIdView {
            build_id: self.build_id@,
            invocation_id: self.invocation_id@,
            component: self.component,
        }
    }
}

/// An event with its place in a stream, as a request carries it.
#[derive(Debug)]
pub struct OrderedEvent {
    pub stream_id: StreamId,
    pub sequence_number: i64,
    pub event: TimedEvent,
    pub project_id: String,
}

/// What an [`OrderedEvent`] stands for.
pub struct OrderedEventView {
    pub stream_id: StreamIdView,
    pub sequence_number: int,
    pub event: TimedEventView,
    pub project_id: Seq<char>,
}

impl View for OrderedEvent {
    type V = OrderedEventView;

    open spec fn view(&self) -> OrderedEventView {
        OrderedEventView {
            stream_id: self.stream_id@,
            sequence_number: self.sequence_number as int,
            event: self.event@,
            project_id: self.project_id@,
        }
    }
}

/// What is to be done with an event.
#[derive(Debug)]
pub enum Publication {
    /// Send it by a lifecycle call.
    Lifecycle(OrderedEvent),
    /// Send it over the tool stream.
    Stream(OrderedEvent),
    /// Send nothing yet.
    Held,
}

/// What a [`Publication`] stands for.
pub enum PublicationView {
    Lifecycle(OrderedEventView),
    Stream(OrderedEventView),
    Held,
}

impl View for Publication {
    type V = PublicationView;

    open spec fn view(&self) -> PublicationView {
        match *self {
            Publication::Lifecycle(e) => PublicationView::Lifecycle(e@),
            Publication::Stream(e) => PublicationView::Stream(e@),
            Publication::Held => PublicationView::Held,
        }
    }
}

/// The progress of a publication.
pub struct Progress {
    pub trace_id: Seq<char>,
    pub project_id: Seq<char>,
    /// The number of the last event of the build stream.
    pub build: int,
    /// The number of the last event of the invocation stream.
    pub invocation: int,
    /// The number of the last event of the tool stream.
    pub tool: int,
    /// The events that are held.
    pub held: Seq<TimedEventView>,
}

/// The progress before any event.
pub open spec fn no_progress(trace_id: Seq<char>, project_id: Seq<char>) -> Progress {
    Progress { trace_id, project_id, build: 0, invocation: 0, tool: 0, held: Seq::empty() }
}

/// The build stream of a build.
pub open spec fn build_stream(trace_id: Seq<char>) -> StreamIdView {
    StreamIdView {
        build_id: trace_id,
        invocation_id: Seq::empty(),
        component: BuildComponent::Unknown,
    }
}

/// The invocation stream of a build.
pub open spec fn invocation_stream(trace_id: Seq<char>) -> StreamIdView {
    StreamIdView {
        build_id: trace_id,
        invocation_id: trace_id,
        component: BuildComponent::Unknown,
    }
}

/// The tool stream of a build.
pub open spec fn tool_stream(trace_id: Seq<char>) -> StreamIdView {
    StreamIdView { build_id: trace_id, invocation_id: trace_id, component: BuildComponent::Tool }
}

/// Whether an event is held until the tool stream is closed.
pub open spec fn is_final(event: ServiceEventView) -> bool {
    match event {
        ServiceEventView::InvocationAttemptFinished(_) => true,
        ServiceEventView::BuildFinished(_) => true,
        _ => false,
    }
}

/// Whether a lifecycle event belongs to the build stream.
pub open spec fn is_of_build(event: ServiceEventView) -> bool {
    match event {
        ServiceEventView::BuildEnqueued => true,
        ServiceEventView::BuildFinished(_) => true,
        _ => false,
    }
}

/// What a lifecycle event makes of the progress, and the place it gets.
pub open spec fn place(p: Progress, event: TimedEventView) -> (Progress, OrderedEventView) {
    if is_of_build(event.event) {
        (
            Progress { build: p.build + 1, ..p },
            OrderedEventView {
                stream_id: build_stream(p.trace_id),
                sequence_number: p.build + 1,
                event,
                project_id: p.project_id,
            },
        )
    } else {
        (
            Progress { invocation: p.invocation + 1, ..p },
            OrderedEventView {
                stream_id: invocation_stream(p.trace_id),
                sequence_number: p.invocation + 1,
                event,
                project_id: p.project_id,
            },
        )
    }
}

/// What an event makes of the progress, and what is to be done with it.
pub open spec fn publish(p: Progress, e: TransportView) -> (Progress, PublicationView) {
    match e {
        TransportView::Lifecycle(event) => {
            if is_final(event.event) {
                (Progress { held: p.held.push(event), ..p }, PublicationView::Held)
            } else {
                let (q, placed) = place(p, event);
                (q, PublicationView::Lifecycle(placed))
            }
        },
        TransportView::Stream(event) => (
            Progress { tool: p.tool + 1, ..p },
            PublicationView::Stream(
                OrderedEventView {
                    stream_id: tool_stream(p.trace_id),
                    sequence_number: p.tool + 1,
                    event,
                    project_id: p.project_id,
                },
            ),
        ),
    }
}

/// The progress after placing `events`.
pub open spec fn placed_after(p: Progress, events: Seq<TimedEventView>) -> Progress
    decreases events.len(),
{
    if events.len() == 0 {
        p
    } else {
        place(placed_after(p, events.drop_last()), events.last()).0
    }
}

/// The places that `events` get.
pub open spec fn places(p: Progress, events: Seq<TimedEventView>) -> Seq<OrderedEventView>
    decreases events.len(),
{
    if events.len() == 0 {
        Seq::empty()
    } else {
        places(p, events.drop_last()).push(
            place(placed_after(p, events.drop_last()), events.last()).1,
        )
    }
}

/// What the closing of the tool stream makes of the progress.
pub open spec fn closed(p: Progress) -> Progress {
    Progress { held: Seq::empty(), ..placed_after(p, p.held) }
}

/// What a list of ordered events stands for.
pub open spec fn ordered_views(s: Seq<OrderedEvent>) -> Seq<OrderedEventView> {
    s.map_values(|e: OrderedEvent| e@)
}

/// What a list of events stands for.
pub open spec fn timed_views(s: Seq<TimedEvent>) -> Seq<TimedEventView> {
    s.map_values(|e: TimedEvent| e@)
}

/// Publishes the events of one build.
pub struct Publisher {
    trace_id: String,
    project_id: String,
    build_seq: i64,
    invocation_seq: i64,
    stream_seq: i64,
    final_events: Vec<TimedEvent>,
}

impl View for Publisher {
    type V = Progress;

    closed spec fn view(&self) -> Progress {
        Progress {
            trace_id: self.trace_id@,
            project_id: self.project_id@,
            build: self.build_seq as int,
            invocation: self.invocation_seq as int,
            tool: self.stream_seq as int,
            held: timed_views(self.final_events@),
        }
    }
}

/// Whether numbers of 64 bits are left for the events that are held and for `more`
/// others.
pub open spec fn has_numbers(p: Progress, more: int) -> bool {
    &&& 0 <= p.build && p.build + p.held.len() + more <= i64::MAX
    &&& 0 <= p.invocation && p.invocation + p.held.len() + more <= i64::MAX
    &&& 0 <= p.tool && p.tool + more <= i64::MAX
}

impl Publisher {
    /// Numbers are left for the events that are held.
    pub open spec fn wf(&self) -> bool {
        has_numbers(self@, 0)
    }

    /// A publisher for the build `trace_id`.
    pub fn new(trace_id: String, project_id: String) -> (p: Publisher)
        ensures
            p@ == no_progress(trace_id@, project_id@),
            p.wf(),
    {
        let p = Publisher {
            trace_id,
            project_id,
            build_seq: 0,
            invocation_seq: 0,
            stream_seq: 0,
            final_events: Vec::new(),
        };
        assert(p@.held =~= Seq::empty());
        p
    }

    /// Whether a number is left for one more event.
    pub fn has_room(&self) -> (b: bool)
        requires
            self.wf(),
        ensures
            b == has_numbers(self@, 1),
    {
        let held: usize = self.final_events.len();
        assert(self@.held.len() == held);
        self.stream_seq < i64::MAX && (held as u128) < (i64::MAX - self.build_seq) as u128 && (
        held as u128) < (i64::MAX - self.invocation_seq) as u128
    }

    /// How many events have been given a number: of the build stream, of the invocation
    /// stream and of the tool stream.
    pub fn counts(&self) -> (counts: (i64, i64, i64))
        ensures
            counts.0 == self@.build,
            counts.1 == self@.invocation,
            counts.2 == self@.tool,
    {
        (self.build_seq, self.invocation_seq, self.stream_seq)
    }

    /// The place of a lifecycle event, which takes the next number of its stream.
    fn place(&mut self, event: TimedEvent) -> (placed: OrderedEvent)
        requires
            0 <= old(self)@.build < i64::MAX,
            0 <= old(self)@.invocation < i64::MAX,
        ensures
            final(self)@ == place(old(self)@, event@).0,
            placed@ == place(old(self)@, event@).1,
            final(self).final_events == old(self).final_events,
    {
        let of_build = match &event.event {
            ServiceEvent::BuildEnqueued => true,
            ServiceEvent::BuildFinished(_) => true,
            _ => false,
        };
        if of_build {
            self.build_seq = self.build_seq + 1;
            let invocation_id = String::new();
            assert(invocation_id@ =~= Seq::empty());
            OrderedEvent {
                stream_id: StreamId {
                    build_id: self.trace_id.clone(),
                    invocation_id,
                    component: BuildComponent::Unknown,
                },
                sequence_number: self.build_seq,
                event,
                project_id: self.project_id.clone(),
            }
        } else {
            self.invocation_seq = self.invocation_seq + 1;
            OrderedEvent {
                stream_id: StreamId {
                    build_id: self.trace_id.clone(),
                    invocation_id: self.trace_id.clone(),
                    component: BuildComponent::Unknown,
                },
                sequence_number: self.invocation_seq,
                event,
                project_id: self.project_id.clone(),
            }
        }
    }

    /// Takes the next event of the build.
    pub fn publish(&mut self, event: BesTransportEvent) -> (publication: Publication)
        requires
            old(self).wf(),
            has_numbers(old(self)@, 1),
        ensures
            final(self).wf(),
            final(self)@ == publish(old(self)@, event@).0,
            publication@ == publish(old(self)@, event@).1,
    {
        match event {
            BesTransportEvent::Lifecycle(event) => {
                let is_final = match &event.event {
                    ServiceEvent::InvocationAttemptFinished(_) => true,
                    ServiceEvent::BuildFinished(_) => true,
                    _ => false,
                };
                if is_final {
                    self.final_events.push(event);
                    assert(self@.held =~= old(self)@.held.push(event@));
                    Publication::Held
                } else {
                    Publication::Lifecycle(self.place(event))
                }
            },
            BesTransportEvent::Stream(event) => {
                self.stream_seq = self.stream_seq + 1;
                Publication::Stream(
                    OrderedEvent {
                        stream_id: StreamId {
                            build_id: self.trace_id.clone(),
                            invocation_id: self.trace_id.clone(),
                            component: BuildComponent::Tool,
                        },
                        sequence_number: self.stream_seq,
                        event,
                        project_id: self.project_id.clone(),
                    },
                )
            },
        }
    }

    /// Takes the closing of the tool stream, after which the events that were held are
    /// to be sent by lifecycle calls, in order.
    pub fn close(&mut self) -> (out: Vec<OrderedEvent>)
        requires
            old(self).wf(),
        ensures
            final(self).wf(),
            final(self)@ == closed(old(self)@),
            ordered_views(out@) == places(old(self)@, old(self)@.held),
    {
        let mut events: Vec<TimedEvent> = Vec::new();
        std::mem::swap(&mut events, &mut self.final_events);
        let ghost held = timed_views(events@);
        let ghost start = Progress { held: Seq::empty(), ..old(self)@ };
        let mut out: Vec<OrderedEvent> = Vec::new();
        assert(self@.held =~= Seq::empty());
        assert(self@ == start);
        assert(ordered_views(out@) =~= Seq::empty());
        assert(held.subrange(0, 0) =~= Seq::empty());
        let total = events.len();
        let mut rest = events;
        let ghost all = rest@;
        let mut i: usize = 0;
        while i < total
            invariant
                i <= total,
                held == timed_views(all),
                all.len() == total,
                rest@ == all.subrange(i as int, total as int),
                self.final_events@.len() == 0,
                self@ == placed_after(start, held.subrange(0, i as int)),
                ordered_views(out@) == places(start, held.subrange(0, i as int)),
                0 <= self@.build && self@.build + (total - i) <= i64::MAX,
                0 <= self@.invocation && self@.invocation + (total - i) <= i64::MAX,
            decreases total - i,
        {
            let event = rest.remove(0);
            assert(rest@ =~= all.subrange(i + 1, total as int));
            assert(event == all[i as int]);
            let ghost before = out@;
            proof {
                let now = held.subrange(0, i + 1);
                assert(now.drop_last() =~= held.subrange(0, i as int));
                assert(now.last() == event@);
            }
            let placed = self.place(event);
            out.push(placed);
            assert(ordered_views(out@) =~= ordered_views(before).push(placed@));
            i = i + 1;
        }
        proof {
            assert(held.subrange(0, total as int) =~= held);
            lemma_held_does_not_matter(old(self)@, held);
            assert(self@.held =~= Seq::empty());
        }
        out
    }
}

/// Placing events does not depend on what is held.
proof fn lemma_held_does_not_matter(p: Progress, events: Seq<TimedEventView>)
    ensures
        ({
            let q = Progress { held: Seq::empty(), ..p };
            &&& placed_after(q, events) == (Progress {
                held: Seq::empty(),
                ..placed_after(p, events)
            })
            &&& places(q, events) == places(p, events)
            &&& placed_after(p, events).held == p.held
            &&& placed_after(p, events).tool == p.tool
            &&& placed_after(p, events).trace_id == p.trace_id
        }),
    decreases events.len(),
{
    if events.len() > 0 {
        lemma_held_does_not_matter(p, events.drop_last());
    }
}

// The publication of a whole build

/// The progress after all of `events`.
pub open spec fn progress_after(p: Progress, events: Seq<TransportView>) -> Progress
    decreases events.len(),
{
    if events.len() == 0 {
        p
    } else {
        publish(progress_after(p, events.drop_last()), events.last()).0
    }
}

/// What is sent for `events` while the tool stream is open.
pub open spec fn sent_while_open(p: Progress, events: Seq<TransportView>) -> Seq<OrderedEventView>
    decreases events.len(),
{
    if events.len() == 0 {
        Seq::empty()
    } else {
        let before = sent_while_open(p, events.drop_last());
        match publish(progress_after(p, events.drop_last()), events.last()).1 {
            PublicationView::Lifecycle(e) => before.push(e),
            PublicationView::Stream(e) => before.push(e),
            PublicationView::Held => before,
        }
    }
}

/// What is sent for `events` in all, in order.
pub open spec fn published(
    trace_id: Seq<char>,
    project_id: Seq<char>,
    events: Seq<TransportView>,
) -> Seq<OrderedEventView> {
    let p = no_progress(trace_id, project_id);
    let q = progress_after(p, events);
    sent_while_open(p, events) + places(q, q.held)
}

/// The numbers that events get in a stream, in order.
pub open spec fn numbers(s: Seq<OrderedEventView>, stream: StreamIdView) -> Seq<int>
    decreases s.len(),
{
    if s.len() == 0 {
        Seq::empty()
    } else if s.last().stream_id == stream {
        numbers(s.drop_last(), stream).push(s.last().sequence_number)
    } else {
        numbers(s.drop_last(), stream)
    }
}

/// The numbers from one to `n`.
pub open spec fn from_one(n: int) -> Seq<int> {
    Seq::new(n as nat, |i: int| i + 1)
}

/// One more event has one more number in its stream.
proof fn lemma_numbers_push(s: Seq<OrderedEventView>, e: OrderedEventView, stream: StreamIdView)
    ensures
        numbers(s.push(e), stream) == if e.stream_id == stream {
            numbers(s, stream).push(e.sequence_number)
        } else {
            numbers(s, stream)
        },
{
    assert(s.push(e).drop_last() =~= s);
}

/// Whether the events of each stream have been numbered from one up to the progress.
spec fn numbered(p: Progress, s: Seq<OrderedEventView>) -> bool {
    &&& p.build >= 0 && numbers(s, build_stream(p.trace_id)) == from_one(p.build)
    &&& p.invocation >= 0 && numbers(s, invocation_stream(p.trace_id)) == from_one(p.invocation)
    &&& p.tool >= 0 && numbers(s, tool_stream(p.trace_id)) == from_one(p.tool)
    &&& forall|stream: StreamIdView|
        stream != build_stream(p.trace_id) && stream != invocation_stream(p.trace_id) && stream
            != tool_stream(p.trace_id) ==> #[trigger] numbers(s, stream) == Seq::<int>::empty()
}

/// Placing an event keeps the numbering.
proof fn lemma_place_numbers(p: Progress, s: Seq<OrderedEventView>, event: TimedEventView)
    requires
        p.trace_id.len() > 0,
        numbered(p, s),
    ensures
        numbered(place(p, event).0, s.push(place(p, event).1)),
{
    let (q, e) = place(p, event);
    assert(build_stream(p.trace_id).invocation_id.len() == 0);
    lemma_numbers_push(s, e, build_stream(p.trace_id));
    lemma_numbers_push(s, e, invocation_stream(p.trace_id));
    lemma_numbers_push(s, e, tool_stream(p.trace_id));
    assert(from_one(p.build).push(p.build + 1) =~= from_one(p.build + 1));
    assert(from_one(p.invocation).push(p.invocation + 1) =~= from_one(p.invocation + 1));
    assert forall|stream: StreamIdView|
        stream != build_stream(q.trace_id) && stream != invocation_stream(q.trace_id) && stream
            != tool_stream(q.trace_id) implies #[trigger] numbers(s.push(e), stream) == Seq::<
        int,
    >::empty() by {
        lemma_numbers_push(s, e, stream);
    }
}

/// Placing events keeps the numbering.
proof fn lemma_places_numbers(
    p: Progress,
    s: Seq<OrderedEventView>,
    events: Seq<TimedEventView>,
)
    requires
        p.trace_id.len() > 0,
        numbered(p, s),
    ensures
        numbered(placed_after(p, events), s + places(p, events)),
        placed_after(p, events).trace_id == p.trace_id,
    decreases events.len(),
{
    if events.len() == 0 {
        assert(s + places(p, events) =~= s);
    } else {
        lemma_places_numbers(p, s, events.drop_last());
        let q = placed_after(p, events.drop_last());
        lemma_place_numbers(q, s + places(p, events.drop_last()), events.last());
        assert(s + places(p, events) =~= (s + places(p, events.drop_last())).push(
            place(q, events.last()).1,
        ));
    }
}

/// Publishing events numbers them.
proof fn lemma_publish_numbers(p: Progress, events: Seq<TransportView>)
    requires
        p.trace_id.len() > 0,
        numbered(p, Seq::empty()),
    ensures
        numbered(progress_after(p, events), sent_while_open(p, events)),
        progress_after(p, events).trace_id == p.trace_id,
    decreases events.len(),
{
    if events.len() > 0 {
        lemma_publish_numbers(p, events.drop_last());
        let q = progress_after(p, events.drop_last());
        let s = sent_while_open(p, events.drop_last());
        match events.last() {
            TransportView::Lifecycle(event) => {
                lemma_place_numbers(q, s, event);
            },
            TransportView::Stream(event) => {
                let e = OrderedEventView {
                    stream_id: tool_stream(q.trace_id),
                    sequence_number: q.tool + 1,
                    event,
                    project_id: q.project_id,
                };
                lemma_numbers_push(s, e, build_stream(p.trace_id));
                lemma_numbers_push(s, e, invocation_stream(p.trace_id));
                lemma_numbers_push(s, e, tool_stream(p.trace_id));
                assert(from_one(q.tool).push(q.tool + 1) =~= from_one(q.tool + 1));
                assert forall|stream: StreamIdView|
                    stream != build_stream(q.trace_id) && stream != invocation_stream(q.trace_id)
                        && stream != tool_stream(q.trace_id) implies #[trigger] numbers(
                    s.push(e),
                    stream,
                ) == Seq::<int>::empty() by {
                    lemma_numbers_push(s, e, stream);
                }
            },
        }
    }
}

/// The events of each stream of a build are numbered from one without a gap, in the
/// order in which they are sent.
pub proof fn law_streams_are_numbered(
    trace_id: Seq<char>,
    project_id: Seq<char>,
    events: Seq<TransportView>,
    stream: StreamIdView,
)
    requires
        trace_id.len() > 0,
    ensures
        ({
            let found = numbers(published(trace_id, project_id, events), stream);
            found == from_one(found.len() as int)
        }),
{
    let p = no_progress(trace_id, project_id);
    assert(from_one(0) =~= Seq::empty());
    lemma_publish_numbers(p, events);
    let q = progress_after(p, events);
    lemma_places_numbers(q, sent_while_open(p, events), q.held);
    let found = numbers(published(trace_id, project_id, events), stream);
    if stream == build_stream(trace_id) || stream == invocation_stream(trace_id) || stream
        == tool_stream(trace_id) {
    } else {
        assert(found == Seq::<int>::empty());
    }
    assert(found =~= from_one(found.len() as int));
}

/// The events that are carried by a list.
pub open spec fn carried(s: Seq<OrderedEventView>) -> Seq<TimedEventView> {
    s.map_values(|e: OrderedEventView| e.event)
}

/// The event of a transport event.
pub open spec fn timed(e: TransportView) -> TimedEventView {
    match e {
        TransportView::Lifecycle(event) => event,
        TransportView::Stream(event) => event,
    }
}

/// Whether an event is held until the tool stream is closed.
pub open spec fn is_held(e: TransportView) -> bool {
    match e {
        TransportView::Lifecycle(event) => is_final(event.event),
        TransportView::Stream(_) => false,
    }
}

/// The events that are held, or those that are not.
pub open spec fn selected(events: Seq<TransportView>, held: bool) -> Seq<TimedEventView>
    decreases events.len(),
{
    if events.len() == 0 {
        Seq::empty()
    } else if is_held(events.last()) == held {
        selected(events.drop_last(), held).push(timed(events.last()))
    } else {
        selected(events.drop_last(), held)
    }
}

/// Placing events carries them all.
proof fn lemma_places_carry(p: Progress, events: Seq<TimedEventView>)
    ensures
        carried(places(p, events)) == events,
    decreases events.len(),
{
    if events.len() > 0 {
        lemma_places_carry(p, events.drop_last());
        let q = placed_after(p, events.drop_last());
        assert(carried(places(p, events)) =~= carried(places(p, events.drop_last())).push(
            events.last(),
        ));
        assert(events.drop_last().push(events.last()) =~= events);
    } else {
        assert(carried(places(p, events)) =~= events);
    }
}

/// What has been sent and what is held.
proof fn lemma_sent_or_held(p: Progress, events: Seq<TransportView>)
    requires
        p.held.len() == 0,
    ensures
        carried(sent_while_open(p, events)) == selected(events, false),
        progress_after(p, events).held == selected(events, true),
    decreases events.len(),
{
    if events.len() > 0 {
        lemma_sent_or_held(p, events.drop_last());
        let s = sent_while_open(p, events.drop_last());
        let now = sent_while_open(p, events);
        if !is_held(events.last()) {
            assert(carried(now) =~= carried(s).push(timed(events.last())));
        }
    } else {
        assert(carried(sent_while_open(p, events)) =~= Seq::empty());
        assert(p.held =~= Seq::empty());
    }
}

/// Every event of a build is sent exactly once, in order: first those that are not
/// held, then, after the tool stream is closed, the ends of the invocation and of the
/// build.
pub proof fn law_events_are_sent_once(
    trace_id: Seq<char>,
    project_id: Seq<char>,
    events: Seq<TransportView>,
)
    ensures
        carried(published(trace_id, project_id, events)) == selected(events, false) + selected(
            events,
            true,
        ),
{
    let p = no_progress(trace_id, project_id);
    let q = progress_after(p, events);
    lemma_sent_or_held(p, events);
    lemma_places_carry(q, q.held);
    assert(carried(published(trace_id, project_id, events)) =~= carried(sent_while_open(p, events))
        + carried(places(q, q.held)));
}

/// All the events of a list.
pub open spec fn all_timed(events: Seq<TransportView>) -> Seq<TimedEventView> {
    events.map_values(|e: TransportView| timed(e))
}

/// Where no event is held, all are sent at once.
proof fn lemma_none_held(events: Seq<TransportView>)
    requires
        forall|i: int| 0 <= i < events.len() ==> !is_held(#[trigger] events[i]),
    ensures
        selected(events, false) == all_timed(events),
        selected(events, true) == Seq::<TimedEventView>::empty(),
    decreases events.len(),
{
    if events.len() > 0 {
        let rest = events.drop_last();
        assert forall|i: int| 0 <= i < rest.len() implies !is_held(#[trigger] rest[i]) by {
            assert(!is_held(events[i]));
        }
        lemma_none_held(rest);
        assert(!is_held(events[events.len() - 1]));
        assert(all_timed(events) =~= all_timed(rest).push(timed(events.last())));
    } else {
        assert(all_timed(events) =~= Seq::empty());
    }
}

/// The report of a command is sent in its order: the events that are held are its last.
pub proof fn law_reports_are_sent_in_order(
    trace_id: Seq<char>,
    project_id: Seq<char>,
    server_pid: int,
    events: Seq<BuckEvent>,
)
    ensures
        carried(published(trace_id, project_id, reporting::converted(server_pid, events)))
            == all_timed(reporting::converted(server_pid, events)),
{
    let out = reporting::converted(server_pid, events);
    let n = out.len() as int;
    order::law_report_is_closed(server_pid, events);
    law_events_are_sent_once(trace_id, project_id, out);
    if order::is_closed(out) {
        let (time, status) = choose|time: Option<Timestamp>, status: BuildStatus|
            out.subrange(n - 3, n) == #[trigger] reporting::closing_events(time, status);
        let closing = reporting::closing_events(time, status);
        let body = out.subrange(0, n - 2);
        assert forall|i: int| 0 <= i < body.len() implies !is_held(#[trigger] body[i]) by {
            if i < n - 4 {
                assert(order::goes_on(out.subrange(0, n - 4)[i]));
            } else if i == n - 3 {
                assert(out[i] == out.subrange(n - 3, n)[0]);
            }
        }
        lemma_none_held(body);
        let longer = out.subrange(0, n - 1);
        assert(out.drop_last() =~= longer);
        assert(longer.drop_last() =~= body);
        assert(out.last() == out.subrange(n - 3, n)[2]);
        assert(longer.last() == out.subrange(n - 3, n)[1]);
        assert(selected(longer, true) =~= seq![timed(longer.last())]);
        assert(selected(longer, false) == all_timed(body));
        assert(selected(out, true) =~= seq![timed(longer.last()), timed(out.last())]);
        assert(selected(out, false) == all_timed(body));
        assert(all_timed(out) =~= all_timed(body) + seq![
            timed(longer.last()),
            timed(out.last()),
        ]);
    } else {
        assert forall|i: int| 0 <= i < out.len() implies !is_held(#[trigger] out[i]) by {
            assert(order::goes_on(out[i]));
        }
        lemma_none_held(out);
        assert(all_timed(out) + Seq::<TimedEventView>::empty() =~= all_timed(out));
    }
}

// The builds that are being published

/// What is to be done with an event of a build.
#[derive(Clone, Copy, Debug, PartialEq, Eq, Structural)]
pub enum Route {
    /// Hand it to the handler of the build.
    Forward,
    /// Start a handler for the build and hand it the event.
    Start,
    /// Take down the handler of the build, which has ended, and start another one.
    Restart,
}

/// What is to be done with an event of a build, by whether the build has a handler and
/// whether that has ended.
pub open spec fn route_of(known: bool, has_ended: bool) -> Route {
    if !known {
        Route::Start
    } else if has_ended {
        Route::Restart
    } else {
        Route::Forward
    }
}

/// The builds that have a handler, by their trace identifiers.
pub struct Sessions {
    open: StringHashSet,
}

impl View for Sessions {
    type V = Set<Seq<char>>;

    closed spec fn view(&self) -> Set<Seq<char>> {
        self.open@
    }
}

impl Sessions {
    /// No builds.
    pub fn new() -> (s: Sessions)
        ensures
            s@ == Set::<Seq<char>>::empty(),
    {
        Sessions { open: StringHashSet::new() }
    }

    /// Whether a build has a handler.
    pub fn is_known(&self, trace_id: &str) -> (b: bool)
        ensures
            b == self@.contains(trace_id@),
    {
        self.open.contains(trace_id)
    }

    /// Takes an event of a build, with whether the build's handler has ended. The build
    /// has a handler afterwards.
    pub fn route(&mut self, trace_id: &str, has_ended: bool) -> (r: Route)
        ensures
            r == route_of(old(self)@.contains(trace_id@), has_ended),
            final(self)@ == old(self)@.insert(trace_id@),
    {
        let is_new = self.open.insert(trace_id.to_owned());
        if is_new {
            Route::Start
        } else if has_ended {
            Route::Restart
        } else {
            Route::Forward
        }
    }
}

// The publication of several builds

/// The handlers of builds: the builds that have one, and for each build the events that
/// were handed to its handlers, from the first handler to the last.
pub struct Hub {
    pub known: Set<Seq<char>>,
    pub handlers: Map<Seq<char>, Seq<Seq<BuckEvent>>>,
}

/// No handlers.
pub open spec fn no_handlers() -> Hub {
    Hub { known: Set::empty(), handlers: Map::empty() }
}

/// What was handed to the handlers of a build.
pub open spec fn handed(hub: Hub, trace_id: Seq<char>) -> Seq<Seq<BuckEvent>> {
    if hub.handlers.contains_key(trace_id) {
        hub.handlers[trace_id]
    } else {
        Seq::empty()
    }
}

/// What an event makes of the handlers, by whether the handler of its build has ended.
pub open spec fn dispatched(hub: Hub, event: BuckEvent, has_ended: bool) -> Hub {
    let trace_id = event.trace_id@;
    let before = handed(hub, trace_id);
    let after = match route_of(hub.known.contains(trace_id), has_ended) {
        Route::Forward => before.drop_last().push(before.last().push(event)),
        Route::Start => before.push(seq![event]),
        Route::Restart => before.push(seq![event]),
    };
    Hub {
        known: hub.known.insert(trace_id),
        handlers: hub.handlers.insert(trace_id, after),
    }
}

/// The handlers after all of `events`, where `ended` tells for each event whether the
/// handler of its build has ended by then.
pub open spec fn hub_after(events: Seq<BuckEvent>, ended: Seq<bool>) -> Hub
    decreases events.len(),
{
    if events.len() == 0 {
        no_handlers()
    } else {
        dispatched(
            hub_after(events.drop_last(), ended),
            events.last(),
            ended[events.len() - 1],
        )
    }
}

/// Whether the last handler of a build has been handed the end of its command. It goes
/// on until then, as long as what it sends arrives.
pub open spec fn may_have_ended(server_pid: int, hub: Hub, trace_id: Seq<char>) -> bool {
    &&& handed(hub, trace_id).len() > 0
    &&& reporting::report_after(
        reporting::new_report(server_pid),
        handed(hub, trace_id).last(),
    ).finished
}

/// Whether handlers end only when they may.
pub open spec fn is_possible(server_pid: int, events: Seq<BuckEvent>, ended: Seq<bool>) -> bool
    decreases events.len(),
{
    events.len() > 0 ==> {
        &&& is_possible(server_pid, events.drop_last(), ended)
        &&& ended[events.len() - 1] ==> may_have_ended(
            server_pid,
            hub_after(events.drop_last(), ended),
            events.last().trace_id@,
        )
    }
}

/// What the handlers of a build send, from the first handler to the last.
pub open spec fn sent_by(
    server_pid: int,
    project_id: Seq<char>,
    trace_id: Seq<char>,
    handlers: Seq<Seq<BuckEvent>>,
) -> Seq<OrderedEventView>
    decreases handlers.len(),
{
    if handlers.len() == 0 {
        Seq::empty()
    } else {
        sent_by(server_pid, project_id, trace_id, handlers.drop_last()) + published(
            trace_id,
            project_id,
            reporting::converted(server_pid, handlers.last()),
        )
    }
}

/// What is sent for a build where the events come in batches, of any builds.
pub open spec fn requests(
    server_pid: int,
    project_id: Seq<char>,
    batches: Seq<Seq<BuckEvent>>,
    ended: Seq<bool>,
    trace_id: Seq<char>,
) -> Seq<OrderedEventView> {
    sent_by(server_pid, project_id, trace_id, handed(hub_after(batches.flatten(), ended), trace_id))
}

/// The events of one build.
pub open spec fn of_build(events: Seq<BuckEvent>, trace_id: Seq<char>) -> Seq<BuckEvent> {
    events.filter(|e: BuckEvent| e.trace_id@ == trace_id)
}

/// Whether an event is the end of a command that is reported.
pub open spec fn is_end(event: BuckEvent) -> bool {
    event.data matches EventData::SpanEnd(Some(SpanEnd::Command(command)))
        && reporting::is_reported(command.kind)
}

/// Whether no event of a build follows the end of its command.
pub open spec fn ends_last(events: Seq<BuckEvent>, trace_id: Seq<char>) -> bool {
    forall|i: int, j: int|
        0 <= i < j < events.len() && (#[trigger] events[i]).trace_id@ == trace_id && (
        #[trigger] events[j]).trace_id@ == trace_id ==> !is_end(events[i])
}

/// Without an end the events of a build do not end its report, nor is an end among them.
proof fn lemma_not_ended(server_pid: int, events: Seq<BuckEvent>, trace_id: Seq<char>)
    requires
        forall|i: int|
            0 <= i < events.len() && (#[trigger] events[i]).trace_id@ == trace_id ==> !is_end(
                events[i],
            ),
    ensures
        !reporting::report_after(
            reporting::new_report(server_pid),
            of_build(events, trace_id),
        ).finished,
        forall|k: int|
            0 <= k < of_build(events, trace_id).len() ==> !is_end(
                #[trigger] of_build(events, trace_id)[k],
            ),
    decreases events.len(),
{
    reveal(Seq::filter);
    if events.len() > 0 {
        let rest = events.drop_last();
        assert forall|i: int|
            0 <= i < rest.len() && (#[trigger] rest[i]).trace_id@ == trace_id implies !is_end(
            rest[i],
        ) by {
            assert(rest[i] == events[i]);
        }
        lemma_not_ended(server_pid, rest, trace_id);
        let before = of_build(rest, trace_id);
        let after = of_build(events, trace_id);
        if events.last().trace_id@ == trace_id {
            assert(after == before.push(events.last()));
            assert(after.drop_last() =~= before);
            assert(!is_end(events[events.len() - 1]));
        }
    }
}

/// The events of a build, taken alone, are those of that build and end as they did.
proof fn lemma_alone(events: Seq<BuckEvent>, trace_id: Seq<char>)
    requires
        ends_last(events, trace_id),
    ensures
        of_build(of_build(events, trace_id), trace_id) == of_build(events, trace_id),
        ends_last(of_build(events, trace_id), trace_id),
    decreases events.len(),
{
    reveal(Seq::filter);
    if events.len() > 0 {
        let rest = events.drop_last();
        assert(ends_last(rest, trace_id)) by {
            assert forall|i: int, j: int|
                0 <= i < j < rest.len() && (#[trigger] rest[i]).trace_id@ == trace_id && (
                #[trigger] rest[j]).trace_id@ == trace_id implies !is_end(rest[i]) by {
                assert(rest[i] == events[i] && rest[j] == events[j]);
            }
        }
        lemma_alone(rest, trace_id);
        let before = of_build(rest, trace_id);
        let after = of_build(events, trace_id);
        if events.last().trace_id@ == trace_id {
            assert(after == before.push(events.last()));
            assert(after.drop_last() =~= before);
            lemma_rest_has_no_end(events, trace_id);
            lemma_not_ended(0, rest, trace_id);
            assert forall|i: int, j: int|
                0 <= i < j < after.len() && (#[trigger] after[i]).trace_id@ == trace_id && (
                #[trigger] after[j]).trace_id@ == trace_id implies !is_end(after[i]) by {
                assert(after[i] == before[i]);
            }
        }
    }
}

/// What comes before an event of a build is no end of that build's command.
proof fn lemma_rest_has_no_end(events: Seq<BuckEvent>, trace_id: Seq<char>)
    requires
        events.len() > 0,
        events.last().trace_id@ == trace_id,
        ends_last(events, trace_id),
    ensures
        forall|i: int|
            0 <= i < events.drop_last().len() && (
            #[trigger] events.drop_last()[i]).trace_id@ == trace_id ==> !is_end(
                events.drop_last()[i],
            ),
{
    let rest = events.drop_last();
    assert forall|i: int|
        0 <= i < rest.len() && (#[trigger] rest[i]).trace_id@ == trace_id implies !is_end(
        rest[i],
    ) by {
        assert(rest[i] == events[i]);
        assert(events[events.len() - 1].trace_id@ == trace_id);
    }
}

/// A build whose events end with its command has one handler, which is handed the events
/// of that build.
proof fn lemma_one_handler(
    server_pid: int,
    events: Seq<BuckEvent>,
    ended: Seq<bool>,
    trace_id: Seq<char>,
)
    requires
        is_possible(server_pid, events, ended),
        ends_last(events, trace_id),
    ensures
        ({
            let hub = hub_after(events, ended);
            let own = of_build(events, trace_id);
            &&& hub.known.contains(trace_id) == (own.len() > 0)
            &&& handed(hub, trace_id) == if own.len() > 0 {
                seq![own]
            } else {
                Seq::empty()
            }
        }),
    decreases events.len(),
{
    reveal(Seq::filter);
    if events.len() > 0 {
        let rest = events.drop_last();
        let event = events.last();
        assert(ends_last(rest, trace_id)) by {
            assert forall|i: int, j: int|
                0 <= i < j < rest.len() && (#[trigger] rest[i]).trace_id@ == trace_id && (
                #[trigger] rest[j]).trace_id@ == trace_id implies !is_end(rest[i]) by {
                assert(rest[i] == events[i] && rest[j] == events[j]);
            }
        }
        lemma_one_handler(server_pid, rest, ended, trace_id);
        let before = hub_after(rest, ended);
        let hub = hub_after(events, ended);
        let own = of_build(rest, trace_id);
        if event.trace_id@ == trace_id {
            lemma_rest_has_no_end(events, trace_id);
            lemma_not_ended(server_pid, rest, trace_id);
            assert(of_build(events, trace_id) == own.push(event));
            if own.len() > 0 {
                assert(handed(before, trace_id).last() == own);
                assert(!ended[events.len() - 1]);
                assert(seq![own].drop_last().push(own.push(event)) =~= seq![own.push(event)]);
            } else {
                assert(own.push(event) =~= seq![event]);
                assert(Seq::<Seq<BuckEvent>>::empty().push(seq![event]) =~= seq![seq![event]]);
            }
        } else {
            assert(handed(hub, trace_id) == handed(before, trace_id));
        }
    }
}

/// Nothing is sent for a build without events.
proof fn lemma_nothing_published(server_pid: int, trace_id: Seq<char>, project_id: Seq<char>)
    ensures
        published(
            trace_id,
            project_id,
            reporting::converted(server_pid, Seq::empty()),
        ) == Seq::<OrderedEventView>::empty(),
{
    let out = reporting::converted(server_pid, Seq::empty());
    assert(out =~= Seq::empty());
    assert(published(trace_id, project_id, out) =~= Seq::empty());
}

/// What is sent for a build whose events end with its command.
proof fn lemma_requests(
    server_pid: int,
    project_id: Seq<char>,
    batches: Seq<Seq<BuckEvent>>,
    ended: Seq<bool>,
    trace_id: Seq<char>,
)
    requires
        is_possible(server_pid, batches.flatten(), ended),
        ends_last(batches.flatten(), trace_id),
    ensures
        requests(server_pid, project_id, batches, ended, trace_id) == published(
            trace_id,
            project_id,
            reporting::converted(server_pid, of_build(batches.flatten(), trace_id)),
        ),
{
    let own = of_build(batches.flatten(), trace_id);
    let all = published(trace_id, project_id, reporting::converted(server_pid, own));
    lemma_one_handler(server_pid, batches.flatten(), ended, trace_id);
    if own.len() > 0 {
        assert(seq![own].drop_last() =~= Seq::empty());
        reveal_with_fuel(sent_by, 2);
        assert(Seq::empty() + all =~= all);
    } else {
        assert(own =~= Seq::empty());
        lemma_nothing_published(server_pid, trace_id, project_id);
    }
}

/// What is sent for a build is what its own events make of it: whatever events of other
/// builds come between them, in whatever batches, and whenever the handlers of other
/// builds end, the same is sent as where the events of the build come alone. So long as
/// no event of the build follows the end of its command.
pub proof fn law_builds_are_independent(
    server_pid: int,
    project_id: Seq<char>,
    batches: Seq<Seq<BuckEvent>>,
    ended: Seq<bool>,
    alone: Seq<Seq<BuckEvent>>,
    alone_ended: Seq<bool>,
    trace_id: Seq<char>,
)
    requires
        is_possible(server_pid, batches.flatten(), ended),
        is_possible(server_pid, alone.flatten(), alone_ended),
        alone.flatten() == of_build(batches.flatten(), trace_id),
        ends_last(batches.flatten(), trace_id),
    ensures
        requests(server_pid, project_id, batches, ended, trace_id) == requests(
            server_pid,
            project_id,
            alone,
            alone_ended,
            trace_id,
        ),
        requests(server_pid, project_id, batches, ended, trace_id) == published(
            trace_id,
            project_id,
            reporting::converted(server_pid, of_build(batches.flatten(), trace_id)),
        ),
{
    lemma_alone(batches.flatten(), trace_id);
    lemma_requests(server_pid, project_id, batches, ended, trace_id);
    lemma_requests(server_pid, project_id, alone, alone_ended, trace_id);
}

/// Placing events leaves the build they are sent for as it is.
proof fn lemma_places_name_the_build(p: Progress, events: Seq<TimedEventView>)
    ensures
        placed_after(p, events).trace_id == p.trace_id,
        forall|i: int|
            0 <= i < places(p, events).len() ==> (#[trigger] places(
                p,
                events,
            )[i]).stream_id.build_id == p.trace_id,
    decreases events.len(),
{
    if events.len() > 0 {
        lemma_places_name_the_build(p, events.drop_last());
    }
}

/// Publishing events leaves the build they are sent for as it is.
proof fn lemma_sent_names_the_build(p: Progress, events: Seq<TransportView>)
    ensures
        progress_after(p, events).trace_id == p.trace_id,
        forall|i: int|
            0 <= i < sent_while_open(p, events).len() ==> (#[trigger] sent_while_open(
                p,
                events,
            )[i]).stream_id.build_id == p.trace_id,
    decreases events.len(),
{
    if events.len() > 0 {
        lemma_sent_names_the_build(p, events.drop_last());
    }
}

/// All that the handlers of a build send names that build.
pub proof fn law_requests_name_their_build(
    server_pid: int,
    project_id: Seq<char>,
    trace_id: Seq<char>,
    handlers: Seq<Seq<BuckEvent>>,
)
    ensures
        forall|i: int|
            0 <= i < sent_by(server_pid, project_id, trace_id, handlers).len() ==> (
            #[trigger] sent_by(
                server_pid,
                project_id,
                trace_id,
                handlers,
            )[i]).stream_id.build_id == trace_id,
    decreases handlers.len(),
{
    if handlers.len() > 0 {
        let before = sent_by(server_pid, project_id, trace_id, handlers.drop_last());
        let events = reporting::converted(server_pid, handlers.last());
        let p = no_progress(trace_id, project_id);
        let q = progress_after(p, events);
        let open = sent_while_open(p, events);
        law_requests_name_their_build(server_pid, project_id, trace_id, handlers.drop_last());
        lemma_sent_names_the_build(p, events);
        lemma_places_name_the_build(q, q.held);
        let all = sent_by(server_pid, project_id, trace_id, handlers);
        assert forall|i: int| 0 <= i < all.len() implies (#[trigger] all[i]).stream_id.build_id
            == trace_id by {
            if i < before.len() {
                assert(all[i] == before[i]);
            } else if i < before.len() + open.len() {
                assert(all[i] == open[i - before.len()]);
            } else {
                assert(all[i] == places(q, q.held)[i - before.len() - open.len()]);
            }
        }
    }
}

// Single events

/// An event of the stream is sent over the tool stream with its next number. It is sent as
/// it is, and nothing else changes.
pub proof fn law_stream_events_go_to_the_tool_stream(p: Progress, event: TimedEventView)
    ensures
        ({
            let (after, done) = publish(p, TransportView::Stream(event));
            &&& after == (Progress { tool: p.tool + 1, ..p })
            &&& done == PublicationView::Stream(
                OrderedEventView {
                    stream_id: StreamIdView {
                        build_id: p.trace_id,
                        invocation_id: p.trace_id,
                        component: BuildComponent::Tool,
                    },
                    sequence_number: p.tool + 1,
                    event,
                    project_id: p.project_id,
                },
            )
        }),
{
}

/// The end of the invocation and the end of the build are held, in order, and nothing is
/// sent for them yet. Any other lifecycle event is sent at once: the enqueueing of the
/// build in the build stream, which names no invocation, and what remains in the invocation
/// stream, each with the next number of its stream.
pub proof fn law_only_ends_are_held(p: Progress, event: TimedEventView)
    ensures
        ({
            let (after, done) = publish(p, TransportView::Lifecycle(event));
            match event.event {
                ServiceEventView::InvocationAttemptFinished(_)
                | ServiceEventView::BuildFinished(_) => {
                    &&& after == (Progress { held: p.held.push(event), ..p })
                    &&& done == PublicationView::Held
                },
                ServiceEventView::BuildEnqueued => {
                    &&& after == (Progress { build: p.build + 1, ..p })
                    &&& done == PublicationView::Lifecycle(
                        OrderedEventView {
                            stream_id: StreamIdView {
                                build_id: p.trace_id,
                                invocation_id: Seq::empty(),
                                component: BuildComponent::Unknown,
                            },
                            sequence_number: p.build + 1,
                            event,
                            project_id: p.project_id,
                        },
                    )
                },
                _ => {
                    &&& after == (Progress { invocation: p.invocation + 1, ..p })
                    &&& done == PublicationView::Lifecycle(
                        OrderedEventView {
                            stream_id: StreamIdView {
                                build_id: p.trace_id,
                                invocation_id: p.trace_id,
                                component: BuildComponent::Unknown,
                            },
                            sequence_number: p.invocation + 1,
                            event,
                            project_id: p.project_id,
                        },
                    )
                },
            }
        }),
{
}

/// Once the tool stream is closed nothing is held any more, and each event that was held
/// has been sent, in order: the end of the build in the build stream, which names no
/// invocation, and the end of the invocation in the invocation stream.
pub proof fn law_closing_sends_what_was_held(p: Progress, i: int)
    requires
        0 <= i < p.held.len(),
    ensures
        ({
            let out = places(p, p.held);
            &&& closed(p).held == Seq::<TimedEventView>::empty()
            &&& closed(p).tool == p.tool
            &&& out.len() == p.held.len()
            &&& out[i].event == p.held[i]
            &&& out[i].project_id == p.project_id
            &&& out[i].stream_id == (StreamIdView {
                build_id: p.trace_id,
                invocation_id: match p.held[i].event {
                    ServiceEventView::BuildEnqueued => Seq::empty(),
                    ServiceEventView::BuildFinished(_) => Seq::empty(),
                    _ => p.trace_id,
                },
                component: BuildComponent::Unknown,
            })
        }),
{
    lemma_held_does_not_matter(p, p.held);
    lemma_places(p, p.held, i);
}

/// The place that one of several events gets.
proof fn lemma_places(p: Progress, events: Seq<TimedEventView>, i: int)
    requires
        0 <= i < events.len(),
    ensures
        places(p, events).len() == events.len(),
        ({
            let e = places(p, events)[i];
            &&& e.event == events[i]
            &&& e.project_id == p.project_id
            &&& e.stream_id == if is_of_build(events[i].event) {
                build_stream(p.trace_id)
            } else {
                invocation_stream(p.trace_id)
            }
        }),
        placed_after(p, events).project_id == p.project_id,
        placed_after(p, events).trace_id == p.trace_id,
    decreases events.len(),
{
    let rest = events.drop_last();
    lemma_places_carry(p, events);
    assert(carried(places(p, events)).len() == events.len());
    if i < rest.len() {
        lemma_places(p, rest, i);
        assert(rest[i] == events[i]);
        assert(places(p, events)[i] == places(p, rest)[i]);
    } else {
        if rest.len() > 0 {
            lemma_places(p, rest, 0);
        } else {
            assert(placed_after(p, rest) == p);
        }
        lemma_places_carry(p, rest);
        assert(carried(places(p, rest)).len() == rest.len());
    }
}

/// Of the events that were held, an end of the build takes the next number of the build
/// stream and an end of the invocation the next of the invocation stream.
pub proof fn law_held_events_take_the_next_number(
    p: Progress,
    events: Seq<TimedEventView>,
    event: TimedEventView,
)
    ensures
        ({
            let q = placed_after(p, events);
            let after = placed_after(p, events.push(event));
            let out = places(p, events.push(event));
            &&& placed_after(p, Seq::empty()) == p
            &&& out.drop_last() == places(p, events)
            &&& match event.event {
                ServiceEventView::BuildEnqueued | ServiceEventView::BuildFinished(_) => {
                    &&& after == (Progress { build: q.build + 1, ..q })
                    &&& out.last().sequence_number == q.build + 1
                },
                _ => {
                    &&& after == (Progress { invocation: q.invocation + 1, ..q })
                    &&& out.last().sequence_number == q.invocation + 1
                },
            }
        }),
{
    assert(events.push(event).drop_last() =~= events);
    assert(places(p, events.push(event)).drop_last() =~= places(p, events));
}

/// Closing the tool stream gives numbers to what was held and changes nothing else.
pub proof fn law_closing_only_gives_numbers(p: Progress)
    ensures
        ({
            let q = placed_after(p, p.held);
            &&& closed(p).build == q.build
            &&& closed(p).invocation == q.invocation
            &&& closed(p).tool == p.tool
            &&& closed(p).trace_id == p.trace_id
            &&& closed(p).project_id == p.project_id
            &&& closed(p).held == Seq::<TimedEventView>::empty()
            &&& p.held.len() == 0 ==> q == p && places(p, p.held) == Seq::<
                OrderedEventView,
            >::empty()
        }),
{
    lemma_held_does_not_matter(p, p.held);
    if p.held.len() > 0 {
        lemma_places(p, p.held, 0);
    }
}

/// The publication of a build starts with no event in any stream and none held.
pub proof fn law_streams_start_empty(trace_id: Seq<char>, project_id: Seq<char>)
    ensures
        ({
            let p = no_progress(trace_id, project_id);
            &&& p.trace_id == trace_id
            &&& p.project_id == project_id
            &&& p.build == 0 && p.invocation == 0 && p.tool == 0
            &&& p.held == Seq::<TimedEventView>::empty()
        }),
{
}

/// There is room for one more event as long as each stream has a number of 64 bits left
/// for it, beyond those that the events that are held will take.
pub proof fn law_there_is_room_up_to_the_last_number(p: Progress)
    requires
        0 <= p.build && 0 <= p.invocation && 0 <= p.tool,
    ensures
        has_numbers(p, 1) <==> {
            &&& p.build + p.held.len() < i64::MAX
            &&& p.invocation + p.held.len() < i64::MAX
            &&& p.tool < i64::MAX
        },
{
}

/// An event is handed to the handler of its build where there is one that goes on. A build
/// without a handler gets one, and one whose handler has ended gets another.
pub proof fn law_events_are_handed_to_running_handlers(known: bool, has_ended: bool)
    ensures
        route_of(known, has_ended) == Route::Forward <==> known && !has_ended,
        route_of(known, has_ended) == Route::Start <==> !known,
        route_of(known, has_ended) == Route::Restart <==> known && has_ended,
{
}

// What values stand for

/// What an ordered event stands for keeps all of it.
pub proof fn law_ordered_events_are_seen_whole(e: OrderedEvent)
    ensures
        e@.stream_id.build_id == e.stream_id.build_id@,
        e@.stream_id.invocation_id == e.stream_id.invocation_id@,
        e@.stream_id.component == e.stream_id.component,
        e@.sequence_number == e.sequence_number,
        e@.event == e.event@,
        e@.project_id == e.project_id@,
{
}

/// What is to be done is told apart, with the event that it is done with.
pub proof fn law_publications_are_told_apart(p: Publication)
    ensures
        match p {
            Publication::Lifecycle(e) => p@ == PublicationView::Lifecycle(e@),
            Publication::Stream(e) => p@ == PublicationView::Stream(e@),
            Publication::Held => p@ == PublicationView::Held,
        },
{
}

/// Lists of events are seen one by one.
pub proof fn law_lists_of_requests_are_seen_whole(s: Seq<OrderedEvent>)
    ensures
        ordered_views(s).len() == s.len(),
        forall|i: int| 0 <= i < s.len() ==> #[trigger] ordered_views(s)[i] == s[i]@,
{
}

} // verus!
