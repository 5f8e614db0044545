//! The render driver: what the real-time callback does at the start of each
//! buffer, short of the signal processing itself.

use vstd::prelude::*;
use std::collections::VecDeque;
use crate::queue::ChangeQueue;
use crate::schedule::{ParameterChange, ParameterScheduler};
use crate::store::{resolve_input, GraphSnapshot};
use crate::topology::{spec_input_index, NodeState, Topology};

verus! {

/// A parameter change as it travels through the change queue: the change,
/// and the buffer boundary of the render clock at which it was enqueued.
#[derive(Clone, Debug)]
pub struct Scheduled {
    pub change: ParameterChange,
    pub anchor: u64,
}

/// A parameter change resolved for one buffer: on frame `frame` of the
/// buffer, input `input` of the node that lives in `slot` under
/// `generation` takes `value`.
#[derive(Clone, Copy, Debug, PartialEq, Eq, Structural)]
pub struct Event {
    pub frame: u64,
    pub slot: usize,
    pub generation: u64,
    pub input: usize,
    pub value: u32,
}

/// The change lies beyond the buffer that starts at `start` and waits.
pub open spec fn spec_waits(sched: ParameterScheduler, s: Scheduled, start: u64) -> bool {
    sched.spec_resolve(s.change, s.anchor, start) is None
}

/// The event that a change gives in the buffer that starts at `start`. A
/// change that waits gives none. A change that is resolved but names a node
/// that is not live in the snapshot, or an input that the node lacks, gives
/// none either: it is skipped, and discarded.
pub open spec fn spec_event_of(sched: ParameterScheduler, snap: Topology, s: Scheduled, start: u64)
    -> Option<Event> {
    match sched.spec_resolve(s.change, s.anchor, start) {
        None => None,
        Some((frame, value)) => if snap.live(s.change.target) {
            match spec_input_index(snap.nodes[s.change.target.slot as int].inputs, s.change.input) {
                Some(input) => Some(
                    Event {
                        frame,
                        slot: s.change.target.slot,
                        generation: s.change.target.generation,
                        input,
                        value,
                    },
                ),
                None => None,
            }
        } else {
            None
        },
    }
}

/// Where an event for `frame` goes into a list of events: behind the last
/// event whose frame is not later.
pub open spec fn spec_insert_at(events: Seq<Event>, frame: u64) -> int
    decreases events.len(),
{
    if events.len() == 0 {
        0
    } else if events.last().frame <= frame {
        events.len() as int
    } else {
        spec_insert_at(events.drop_last(), frame)
    }
}

/// The list of events with one more event, placed by its frame.
pub open spec fn spec_insert(events: Seq<Event>, ev: Event) -> Seq<Event> {
    events.insert(spec_insert_at(events, ev.frame), ev)
}

/// The events of a buffer: each change that gives an event, taken in the
/// order of submission and placed by its frame.
pub open spec fn spec_plan(sched: ParameterScheduler, snap: Topology, all: Seq<Scheduled>, start: u64)
    -> Seq<Event>
    decreases all.len(),
{
    if all.len() == 0 {
        Seq::empty()
    } else {
        let before = spec_plan(sched, snap, all.drop_last(), start);
        match spec_event_of(sched, snap, all.last(), start) {
            Some(ev) => spec_insert(before, ev),
            None => before,
        }
    }
}

/// The changes that wait for a later buffer, in the order of submission.
pub open spec fn spec_waiting(sched: ParameterScheduler, all: Seq<Scheduled>, start: u64) -> Seq<
    Scheduled,
>
    decreases all.len(),
{
    if all.len() == 0 {
        Seq::empty()
    } else {
        let before = spec_waiting(sched, all.drop_last(), start);
        if spec_waits(sched, all.last(), start) {
            before.push(all.last())
        } else {
            before
        }
    }
}

/// The events are in the order of their frames.
pub open spec fn spec_sorted(events: Seq<Event>) -> bool {
    forall|i: int, j: int| 0 <= i <= j < events.len() ==> events[i].frame <= events[j].frame
}

/// The place of a new event lies behind every event of the same or an
/// earlier frame and before every event of a later frame. So among events of
/// one frame the one submitted last is applied last, and its value stands.
pub proof fn lemma_insert_place(events: Seq<Event>, frame: u64)
    requires
        spec_sorted(events),
    ensures
        0 <= spec_insert_at(events, frame) <= events.len(),
        forall|i: int| 0 <= i < spec_insert_at(events, frame) ==> events[i].frame <= frame,
        forall|i: int| spec_insert_at(events, frame) <= i < events.len() ==> events[i].frame > frame,
    decreases events.len(),
{
    if events.len() > 0 {
        let rest = events.drop_last();
        let last = events.len() - 1;
        if events.last().frame > frame {
            assert forall|i: int, j: int| 0 <= i <= j < rest.len() implies rest[i].frame
                <= rest[j].frame by {
                assert(rest[i] == events[i] && rest[j] == events[j]);
            }
            lemma_insert_place(rest, frame);
            let p = spec_insert_at(rest, frame);
            assert forall|i: int| 0 <= i < p implies events[i].frame <= frame by {
                assert(rest[i] == events[i]);
            }
            assert forall|i: int| p <= i < events.len() implies events[i].frame > frame by {
                if i < last {
                    assert(rest[i] == events[i]);
                }
            }
        } else {
            assert forall|i: int| 0 <= i < events.len() implies events[i].frame <= frame by {
                assert(events[i].frame <= events[last].frame);
            }
        }
    }
}

/// Placing an event by its frame keeps the events in the order of their
/// frames, keeps every event that was there, and adds the new one.
pub proof fn lemma_insert_sorted(events: Seq<Event>, ev: Event)
    requires
        spec_sorted(events),
    ensures
        spec_sorted(spec_insert(events, ev)),
        spec_insert(events, ev).len() == events.len() + 1,
        spec_insert(events, ev).contains(ev),
        forall|x: Event| events.contains(x) ==> spec_insert(events, ev).contains(x),
{
    lemma_insert_place(events, ev.frame);
    let p = spec_insert_at(events, ev.frame);
    let r = spec_insert(events, ev);
    assert(r[p] == ev);
    assert forall|x: Event| events.contains(x) implies r.contains(x) by {
        let i = choose|i: int| 0 <= i < events.len() && events[i] == x;
        if i < p {
            assert(r[i] == x);
        } else {
            assert(r[i + 1] == x);
        }
    }
    assert forall|i: int, j: int| 0 <= i <= j < r.len() implies r[i].frame <= r[j].frame by {
        let a = if i < p {
            i
        } else {
            i - 1
        };
        let b = if j < p {
            j
        } else {
            j - 1
        };
        if i != p && j != p {
            assert(r[i] == events[a] && r[j] == events[b]);
        } else if i == p && j != p {
            assert(r[j] == events[b]);
        } else if j == p && i != p {
            assert(r[i] == events[a]);
        }
    }
}

/// The events of a buffer come in the order of their frames.
pub proof fn lemma_plan_sorted(sched: ParameterScheduler, snap: Topology, all: Seq<Scheduled>, start: u64)
    ensures
        spec_sorted(spec_plan(sched, snap, all, start)),
    decreases all.len(),
{
    if all.len() > 0 {
        lemma_plan_sorted(sched, snap, all.drop_last(), start);
        match spec_event_of(sched, snap, all.last(), start) {
            Some(ev) => {
                lemma_insert_sorted(spec_plan(sched, snap, all.drop_last(), start), ev);
            },
            None => {},
        }
    }
}

/// Every change that gives an event has its event among the events of the
/// buffer.
pub proof fn lemma_planned(sched: ParameterScheduler, snap: Topology, all: Seq<Scheduled>, start: u64, i: int)
    requires
        0 <= i < all.len(),
        spec_event_of(sched, snap, all[i], start) is Some,
    ensures
        spec_plan(sched, snap, all, start).contains(spec_event_of(sched, snap, all[i], start)->Some_0),
    decreases all.len(),
{
    let before = spec_plan(sched, snap, all.drop_last(), start);
    lemma_plan_sorted(sched, snap, all.drop_last(), start);
    if i < all.len() - 1 {
        assert(all.drop_last()[i] == all[i]);
        lemma_planned(sched, snap, all.drop_last(), start, i);
    }
    match spec_event_of(sched, snap, all.last(), start) {
        Some(ev) => {
            lemma_insert_sorted(before, ev);
        },
        None => {},
    }
}

/// A change stays in the list of waiting changes exactly if it waits: what
/// was resolved is discarded, and what waits is not dropped.
pub proof fn lemma_waiting(sched: ParameterScheduler, all: Seq<Scheduled>, start: u64)
    ensures
        forall|s: Scheduled| #[trigger]
            spec_waiting(sched, all, start).contains(s) <==> all.contains(s) && spec_waits(
                sched,
                s,
                start,
            ),
        spec_waiting(sched, all, start).len() <= all.len(),
    decreases all.len(),
{
    if all.len() > 0 {
        let rest = all.drop_last();
        let before = spec_waiting(sched, rest, start);
        let now = spec_waiting(sched, all, start);
        lemma_waiting(sched, rest, start);
        assert forall|s: Scheduled| #[trigger]
            now.contains(s) <==> all.contains(s) && spec_waits(sched, s, start) by {
            if now.contains(s) {
                let i = choose|i: int| 0 <= i < now.len() && now[i] == s;
                if i < before.len() {
                    assert(before[i] == s);
                    assert(before.contains(s));
                    let j = choose|j: int| 0 <= j < rest.len() && rest[j] == s;
                    assert(all[j] == s);
                } else {
                    assert(all[all.len() - 1] == s);
                }
            }
            if all.contains(s) && spec_waits(sched, s, start) {
                let j = choose|j: int| 0 <= j < all.len() && all[j] == s;
                if j < rest.len() {
                    assert(rest[j] == s);
                    assert(rest.contains(s));
                    assert(before.contains(s));
                    let i = choose|i: int| 0 <= i < before.len() && before[i] == s;
                    assert(now[i] == s);
                } else {
                    assert(now[before.len() as int] == s);
                }
            }
        }
    }
}

/// No more events are planned than changes were submitted, and a change is
/// either planned or waits, never both.
pub proof fn lemma_plan_bounded(sched: ParameterScheduler, snap: Topology, all: Seq<Scheduled>, start: u64)
    ensures
        spec_plan(sched, snap, all, start).len() + spec_waiting(sched, all, start).len()
            <= all.len(),
    decreases all.len(),
{
    if all.len() > 0 {
        lemma_plan_bounded(sched, snap, all.drop_last(), start);
        lemma_plan_sorted(sched, snap, all.drop_last(), start);
        match spec_event_of(sched, snap, all.last(), start) {
            Some(ev) => {
                lemma_insert_sorted(spec_plan(sched, snap, all.drop_last(), start), ev);
            },
            None => {},
        }
    }
}

proof fn lemma_insert_at_step(events: Seq<Event>, i: int, frame: u64)
    requires
        0 < i <= events.len(),
        events[i - 1].frame > frame,
    ensures
        spec_insert_at(events.take(i), frame) == spec_insert_at(events.take(i - 1), frame),
{
    assert(events.take(i).drop_last() =~= events.take(i - 1));
}

proof fn lemma_insert_at_stop(events: Seq<Event>, i: int, frame: u64)
    requires
        0 <= i <= events.len(),
        i > 0 ==> events[i - 1].frame <= frame,
    ensures
        spec_insert_at(events.take(i), frame) == i,
{
}

/// An immediate change to an input of a live node is applied on the first
/// frame of the first buffer that starts after it was submitted, whatever
/// was submitted before or after it, and does not wait beyond that buffer.
pub proof fn lemma_immediate_applies_next_buffer(
    sched: ParameterScheduler,
    snap: Topology,
    before: Seq<Scheduled>,
    s: Scheduled,
    after: Seq<Scheduled>,
    start: u64,
)
    requires
        s.change.time == crate::schedule::LogicalTime::Immediate,
        0 < sched.spec_buffer_frames(),
        snap.live(s.change.target),
        spec_input_index(snap.nodes[s.change.target.slot as int].inputs, s.change.input) is Some,
    ensures
        spec_plan(sched, snap, before.push(s) + after, start).contains(
            Event {
                frame: 0,
                slot: s.change.target.slot,
                generation: s.change.target.generation,
                input: spec_input_index(
                    snap.nodes[s.change.target.slot as int].inputs,
                    s.change.input,
                )->Some_0,
                value: s.change.value,
            },
        ),
        !spec_waiting(sched, before.push(s) + after, start).contains(s),
{
    let all = before.push(s) + after;
    assert(all[before.len() as int] == s);
    lemma_planned(sched, snap, all, start, before.len() as int);
    lemma_waiting(sched, all, start);
}

fn insert_event(events: &mut Vec<Event>, ev: Event)
    ensures
        final(events)@ == spec_insert(old(events)@, ev),
{
    let mut i: usize = events.len();
    assert(events@.take(i as int) =~= events@);
    while i > 0 && events[i - 1].frame > ev.frame
        invariant
            i <= events.len(),
            events@ == old(events)@,
            spec_insert_at(events@, ev.frame) == spec_insert_at(events@.take(i as int), ev.frame),
        decreases i,
    {
        proof {
            lemma_insert_at_step(events@, i as int, ev.frame);
        }
        i -= 1;
    }
    proof {
        lemma_insert_at_stop(events@, i as int, ev.frame);
    }
    events.insert(i, ev);
}

/// The input that a change aims at in a snapshot, if its node is live there
/// and has that input.
fn target_input(snapshot: &GraphSnapshot, change: &ParameterChange) -> (r: Option<usize>)
    ensures
        r == if snapshot@.live(change.target) {
            spec_input_index(snapshot@.nodes[change.target.slot as int].inputs, change.input)
        } else {
            None
        },
{
    let h = change.target;
    if h.slot >= snapshot.nodes.len() {
        return None;
    }
    let record = &snapshot.nodes[h.slot];
    if record.generation != h.generation || record.state != NodeState::Live {
        return None;
    }
    resolve_input(&record.inputs, &change.input)
}

/// The state of the render side between buffers: the render clock, counted
/// in frames, and the changes that wait for a later buffer.
#[derive(Debug)]
pub struct RenderDriver {
    scheduler: ParameterScheduler,
    clock: u64,
    waiting: VecDeque<Scheduled>,
}

impl RenderDriver {
    /// The scheduler that the driver resolves with.
    pub closed spec fn spec_scheduler(&self) -> ParameterScheduler {
        self.scheduler
    }

    /// The frame on which the next buffer starts.
    pub closed spec fn spec_clock(&self) -> u64 {
        self.clock
    }

    /// The changes that wait, in the order of submission.
    pub closed spec fn spec_waiting_changes(&self) -> Seq<Scheduled> {
        self.waiting@
    }

    /// A driver at the start of a session: the clock at zero, nothing waits.
    pub fn new(scheduler: ParameterScheduler) -> (d: RenderDriver)
        ensures
            d.spec_scheduler() == scheduler,
            d.spec_clock() == 0,
            d.spec_waiting_changes() == Seq::<Scheduled>::empty(),
    {
        RenderDriver { scheduler, clock: 0, waiting: VecDeque::new() }
    }

    /// The frame on which the next buffer starts.
    pub fn clock(&self) -> (r: u64)
        ensures
            r == self.spec_clock(),
    {
        self.clock
    }

    /// How many whole buffers lie between the render clock and frame
    /// `elapsed` of the session: the buffers that are due when the session
    /// clock stands on that frame.
    pub fn buffers_due(&self, elapsed: u64) -> (r: u64)
        ensures
            r == if elapsed > self.spec_clock() {
                (elapsed - self.spec_clock()) / (self.spec_scheduler().spec_buffer_frames() as int)
            } else {
                0
            },
    {
        let frames = self.scheduler.buffer_frames();
        if elapsed > self.clock {
            (elapsed - self.clock) / frames
        } else {
            0
        }
    }

    /// The number of changes that wait for a later buffer.
    pub fn waiting_len(&self) -> (r: usize)
        ensures
            r == self.spec_waiting_changes().len(),
    {
        self.waiting.len()
    }

    fn place(&mut self, snapshot: &GraphSnapshot, s: Scheduled, events: &mut Vec<Event>)
        ensures
            final(self).scheduler == old(self).scheduler,
            final(self).clock == old(self).clock,
            final(self).waiting@ == if spec_waits(old(self).scheduler, s, old(self).clock) {
                old(self).waiting@.push(s)
            } else {
                old(self).waiting@
            },
            final(events)@ == match spec_event_of(
                old(self).scheduler,
                snapshot@,
                s,
                old(self).clock,
            ) {
                Some(ev) => spec_insert(old(events)@, ev),
                None => old(events)@,
            },
    {
        match self.scheduler.resolve(&s.change, s.anchor, self.clock) {
            None => {
                self.waiting.push_back(s);
            },
            Some((frame, value)) => {
                match target_input(snapshot, &s.change) {
                    Some(input) => {
                        insert_event(
                            events,
                            Event {
                                frame,
                                slot: s.change.target.slot,
                                generation: s.change.target.generation,
                                input,
                                value,
                            },
                        );
                    },
                    None => {},
                }
            },
        }
    }

    /// Starts a buffer. Takes every change out of the queue, resolves the
    /// changes that waited and the new ones against the buffer that starts
    /// at the render clock, and hands out the events of this buffer in the
    /// order of their frames, events of one frame in the order of
    /// submission. Changes that lie beyond the buffer keep waiting. The
    /// clock moves on by one buffer.
    pub fn render(&mut self, snapshot: &GraphSnapshot, queue: &mut ChangeQueue<Scheduled>) -> (events:
        Vec<Event>)
        requires
            old(self).spec_clock() + old(self).spec_scheduler().spec_buffer_frames() <= u64::MAX,
        ensures
            final(self).spec_scheduler() == old(self).spec_scheduler(),
            final(self).spec_clock() == old(self).spec_clock() + old(self).spec_scheduler().spec_buffer_frames(),
            final(queue)@.len() == 0,
            final(queue).spec_capacity() == old(queue).spec_capacity(),
            events@ == spec_plan(
                old(self).spec_scheduler(),
                snapshot@,
                old(self).spec_waiting_changes() + old(queue)@,
                old(self).spec_clock(),
            ),
            final(self).spec_waiting_changes() == spec_waiting(
                old(self).spec_scheduler(),
                old(self).spec_waiting_changes() + old(queue)@,
                old(self).spec_clock(),
            ),
    {
        let ghost sched = self.scheduler;
        let ghost start = self.clock;
        let ghost waited = self.waiting@;
        let ghost all = self.waiting@ + queue@;
        let mut events: Vec<Event> = Vec::new();
        let n = self.waiting.len();
        let mut k: usize = 0;
        assert(waited.take(0) =~= Seq::<Scheduled>::empty());
        while k < n
            invariant
                k <= n,
                n == waited.len(),
                self.scheduler == sched,
                self.clock == start,
                self.waiting@ == waited.subrange(k as int, n as int) + spec_waiting(
                    sched,
                    waited.take(k as int),
                    start,
                ),
                events@ == spec_plan(sched, snapshot@, waited.take(k as int), start),
            decreases n - k,
        {
            let front = self.waiting.pop_front();
            match front {
                Some(s) => {
                    let ghost rest = self.waiting@;
                    self.place(snapshot, s, &mut events);
                    proof {
                        assert(s == waited[k as int]);
                        assert(waited.take(k + 1).drop_last() =~= waited.take(k as int));
                        assert(waited.take(k + 1).last() == s);
                        assert(rest =~= waited.subrange(k + 1, n as int) + spec_waiting(
                            sched,
                            waited.take(k as int),
                            start,
                        ));
                        assert(self.waiting@ =~= waited.subrange(k + 1, n as int) + spec_waiting(
                            sched,
                            waited.take(k + 1),
                            start,
                        ));
                    }
                },
                None => {},
            }
            k += 1;
        }
        let ghost queued = queue@;
        proof {
            assert(waited.take(n as int) =~= waited);
            assert(self.waiting@ =~= spec_waiting(sched, waited, start));
            assert(waited + queued.take(0) =~= waited);
        }
        let ghost mut done: int = 0;
        while queue.len() > 0
            invariant
                0 <= done <= queued.len(),
                queue@ == queued.subrange(done, queued.len() as int),
                queue.spec_capacity() == old(queue).spec_capacity(),
                self.scheduler == sched,
                self.clock == start,
                self.waiting@ == spec_waiting(sched, waited + queued.take(done), start),
                events@ == spec_plan(sched, snapshot@, waited + queued.take(done), start),
            decreases queue@.len(),
        {
            let front = queue.dequeue();
            match front {
                Some(s) => {
                    self.place(snapshot, s, &mut events);
                    proof {
                        assert(s == queued[done]);
                        let prefix = waited + queued.take(done + 1);
                        assert(prefix.drop_last() =~= waited + queued.take(done));
                        assert(prefix.last() == s);
                        assert(queue@ =~= queued.subrange(done + 1, queued.len() as int));
                        done = done + 1;
                    }
                },
                None => {},
            }
        }
        proof {
            assert(queued.take(done) =~= queued);
        }
        self.clock = self.clock + self.scheduler.buffer_frames();
        events
    }
}

} // verus!
