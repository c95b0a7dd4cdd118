//! Bounded event buffer between a producer and its consumer, with an acker.
use vstd::prelude::*;
use crate::event::Event;

verus! {

/// What a buffer does with a new event when it is full.
#[derive(Clone, Copy, Debug, PartialEq, Eq, Structural)]
pub enum WhenFull {
    /// Refuse the event, so that the producer waits.
    Block,
    /// Discard the newest event and count it.
    DropNewest,
}

/// Outcome of offering one event to a buffer.
#[derive(Clone, Copy, Debug, PartialEq, Eq, Structural)]
pub enum PushOutcome {
    Accepted,
    /// The buffer is full and blocks: the event was not taken.
    Full,
    /// The buffer is full and drops: the event was discarded.
    Dropped,
}

/// Mathematical state of a buffer.
pub struct BufferView {
    /// Events not yet acknowledged, oldest first.
    pub entries: Seq<Event>,
    /// How many of `entries` were already handed to the consumer.
    pub read: nat,
    pub max_events: nat,
    pub when_full: WhenFull,
    pub dropped: nat,
}

/// A bounded FIFO of events. Events stay until the consumer acknowledges them,
/// so a buffer that outlives its consumer keeps every unacknowledged event.
#[derive(Debug)]
pub struct MemoryBuffer {
    entries: Vec<Event>,
    read: usize,
    max_events: usize,
    when_full: WhenFull,
    dropped: u64,
}

impl View for MemoryBuffer {
    type V = BufferView;

    closed spec fn view(&self) -> BufferView {
        BufferView {
            entries: self.entries@,
            read: self.read as nat,
            max_events: self.max_events as nat,
            when_full: self.when_full,
            dropped: self.dropped as nat,
        }
    }
}

/// A well-formed buffer state: the cursor lies within the entries, which fit the bound.
pub open spec fn buffer_wf(v: BufferView) -> bool {
    &&& v.read <= v.entries.len()
    &&& v.entries.len() <= v.max_events
    &&& v.max_events > 0
    &&& v.max_events <= usize::MAX
    &&& v.dropped <= u64::MAX
}

/// The state after offering `e`.
pub open spec fn spec_push(v: BufferView, e: Event) -> BufferView {
    if v.entries.len() < v.max_events {
        BufferView { entries: v.entries.push(e), ..v }
    } else if v.when_full == WhenFull::Block {
        v
    } else {
        BufferView { dropped: if v.dropped < u64::MAX { v.dropped + 1 } else { v.dropped }, ..v }
    }
}

/// The outcome of offering `e`.
pub open spec fn spec_push_outcome(v: BufferView, e: Event) -> PushOutcome {
    if v.entries.len() < v.max_events {
        PushOutcome::Accepted
    } else if v.when_full == WhenFull::Block {
        PushOutcome::Full
    } else {
        PushOutcome::Dropped
    }
}

/// The state after offering each event of `es` in turn, with no consumer reading.
pub open spec fn spec_push_all(v: BufferView, es: Seq<Event>) -> BufferView
    decreases es.len(),
{
    if es.len() == 0 {
        v
    } else {
        spec_push(spec_push_all(v, es.drop_last()), es.last())
    }
}

pub open spec fn min_nat(a: nat, b: nat) -> nat {
    if a <= b { a } else { b }
}

impl MemoryBuffer {
    pub open spec fn wf(&self) -> bool {
        buffer_wf(self@)
    }

    /// An empty buffer that holds at most `max_events` events.
    pub fn new(max_events: usize, when_full: WhenFull) -> (r: MemoryBuffer)
        requires
            max_events > 0,
        ensures
            r.wf(),
            r@.entries == Seq::<Event>::empty(),
            r@.read == 0,
            r@.max_events == max_events,
            r@.when_full == when_full,
            r@.dropped == 0,
    {
        MemoryBuffer { entries: Vec::new(), read: 0, max_events, when_full, dropped: 0 }
    }

    /// Offers one event: taken while there is room, else refused or dropped by policy.
    pub fn try_push(&mut self, e: Event) -> (r: PushOutcome)
        requires
            old(self).wf(),
        ensures
            final(self).wf(),
            final(self)@ == spec_push(old(self)@, e),
            r == spec_push_outcome(old(self)@, e),
    {
        if self.entries.len() < self.max_events {
            self.entries.push(e);
            PushOutcome::Accepted
        } else {
            match self.when_full {
                WhenFull::Block => PushOutcome::Full,
                WhenFull::DropNewest => {
                    if self.dropped < u64::MAX {
                        self.dropped = self.dropped + 1;
                    }
                    PushOutcome::Dropped
                },
            }
        }
    }

    /// Whether one more event would be taken as it is.
    pub fn has_room(&self) -> (r: bool)
        requires
            self.wf(),
        ensures
            r == (self@.entries.len() < self@.max_events),
    {
        self.entries.len() < self.max_events
    }

    /// Hands the oldest unread event to the consumer, if there is one.
    pub fn pop(&mut self) -> (r: Option<Event>)
        requires
            old(self).wf(),
        ensures
            final(self).wf(),
            old(self)@.read < old(self)@.entries.len() ==> r == Some(old(self)@.entries[old(self)@.read as int])
                && final(self)@ == (BufferView { read: old(self)@.read + 1, ..old(self)@ }),
            old(self)@.read == old(self)@.entries.len() ==> r is None && final(self)@ == old(self)@,
    {
        if self.read < self.entries.len() {
            let e = self.entries[self.read];
            self.read = self.read + 1;
            Some(e)
        } else {
            None
        }
    }

    /// Acknowledges the oldest `n` events that were read (all read ones, if fewer),
    /// freeing their room.
    pub fn ack(&mut self, n: usize)
        requires
            old(self).wf(),
        ensures
            final(self).wf(),
            final(self)@ == (BufferView {
                entries: old(self)@.entries.skip(min_nat(n as nat, old(self)@.read) as int),
                read: (old(self)@.read - min_nat(n as nat, old(self)@.read)) as nat,
                ..old(self)@
            }),
    {
        let k: usize = if n <= self.read { n } else { self.read };
        let rest = self.entries.split_off(k);
        self.entries = rest;
        self.read = self.read - k;
    }

    /// Number of held events that the consumer has already read.
    pub fn read_count(&self) -> (r: usize)
        ensures
            r == self@.read,
    {
        self.read
    }

    /// Number of unacknowledged events held.
    pub fn len(&self) -> (r: usize)
        ensures
            r == self@.entries.len(),
    {
        self.entries.len()
    }

    /// The policy applied when the buffer is full.
    pub fn when_full(&self) -> (r: WhenFull)
        ensures
            r == self@.when_full,
    {
        self.when_full
    }

    /// Number of events discarded because the buffer was full.
    pub fn dropped(&self) -> (r: u64)
        ensures
            r == self@.dropped,
    {
        self.dropped
    }

    /// The events that the consumer has not read yet, oldest first.
    pub fn unread(&self) -> (r: Vec<Event>)
        requires
            self.wf(),
        ensures
            r@ == self@.entries.skip(self@.read as int),
    {
        let mut out: Vec<Event> = Vec::new();
        let mut i: usize = self.read;
        while i < self.entries.len()
            invariant
                self.read <= i <= self.entries@.len(),
                out@ == self.entries@.subrange(self.read as int, i as int),
            decreases self.entries@.len() - i,
        {
            out.push(self.entries[i]);
            i = i + 1;
        }
        assert(self.entries@.subrange(self.read as int, self.entries@.len() as int)
            == self.entries@.skip(self.read as int));
        out
    }
}

/// Offering events to a blocking buffer that nobody reads never takes more than
/// its free room: exactly the first `max_events - len` offered events are taken,
/// in order, and every later one is refused.
pub proof fn lemma_backpressure(v: BufferView, es: Seq<Event>)
    requires
        buffer_wf(v),
        v.when_full == WhenFull::Block,
    ensures
        buffer_wf(spec_push_all(v, es)),
        spec_push_all(v, es).entries
            == v.entries + es.take(min_nat(es.len(), (v.max_events - v.entries.len()) as nat) as int),
        spec_push_all(v, es).entries.len() <= v.max_events,
        spec_push_all(v, es).read == v.read,
        spec_push_all(v, es).dropped == v.dropped,
        spec_push_all(v, es).max_events == v.max_events,
        spec_push_all(v, es).when_full == v.when_full,
    decreases es.len(),
{
    let room = (v.max_events - v.entries.len()) as nat;
    if es.len() == 0 {
        assert(v.entries + es.take(0) == v.entries);
    } else {
        lemma_backpressure(v, es.drop_last());
        let prev = spec_push_all(v, es.drop_last());
        let k = min_nat((es.len() - 1) as nat, room);
        assert(es.drop_last().take(k as int) == es.take(k as int));
        assert(prev.entries == v.entries + es.take(k as int));
        if es.len() - 1 < room {
            assert(es.take(k as int).push(es.last()) == es.take(es.len() as int));
            assert(v.entries + es.take(es.len() as int) == (v.entries + es.take(k as int)).push(es.last()));
        } else {
            assert(min_nat(es.len(), room) == room);
        }
    }
}

} // verus!
