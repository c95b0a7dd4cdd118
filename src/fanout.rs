//! Multi-consumer broadcast with per-consumer backpressure and hot add/remove.
use vstd::prelude::*;
use crate::buffer::{buffer_wf, spec_push, BufferView, MemoryBuffer, WhenFull};
use crate::event::{ComponentKey, Event};

verus! {

/// A mutation of the consumer set, sent on a fanout's control channel.
pub enum ControlMessage {
    Add(ComponentKey, MemoryBuffer),
    Remove(ComponentKey),
    Pause(ComponentKey),
    Resume(ComponentKey),
}

/// What the fanout answers to a control message.
pub enum ControlReply {
    /// The message was applied.
    Done,
    /// A removed consumer, handed back with everything it still holds.
    Removed(MemoryBuffer),
    /// An `Add` for a key that is already attached: its buffer is handed back.
    Rejected(MemoryBuffer),
    /// No consumer has that key.
    Unknown,
}

/// Mathematical state of one attached consumer.
pub struct ConsumerView {
    pub key: ComponentKey,
    pub paused: bool,
    pub buffer: BufferView,
}

struct Consumer {
    key: ComponentKey,
    paused: bool,
    buffer: MemoryBuffer,
}

/// Broadcasts each event to every attached consumer's buffer, in producer order.
pub struct Fanout {
    consumers: Vec<Consumer>,
}

spec fn consumer_view(c: Consumer) -> ConsumerView {
    ConsumerView { key: c.key, paused: c.paused, buffer: c.buffer@ }
}

impl View for Fanout {
    type V = Seq<ConsumerView>;

    closed spec fn view(&self) -> Seq<ConsumerView> {
        self.consumers@.map_values(|c: Consumer| consumer_view(c))
    }
}

/// Consumers carry well-formed buffers and distinct keys.
pub open spec fn fanout_wf(s: Seq<ConsumerView>) -> bool {
    &&& forall|i: int| 0 <= i < s.len() ==> buffer_wf(#[trigger] s[i].buffer)
    &&& forall|i: int, j: int| 0 <= i < j < s.len() ==> (#[trigger] s[i]).key != (#[trigger] s[j]).key
}

/// Whether consumer `c` takes the next event at once.
pub open spec fn consumer_ready(c: ConsumerView) -> bool {
    !c.paused && (c.buffer.entries.len() < c.buffer.max_events || c.buffer.when_full == WhenFull::DropNewest)
}

/// A send goes through only when no consumer is paused and every consumer takes the event.
pub open spec fn fanout_ready(s: Seq<ConsumerView>) -> bool {
    forall|i: int| 0 <= i < s.len() ==> consumer_ready(#[trigger] s[i])
}

/// Consumer `c` after it was offered `e`.
pub open spec fn consumer_push(c: ConsumerView, e: Event) -> ConsumerView {
    ConsumerView { buffer: spec_push(c.buffer, e), ..c }
}

/// The consumers after a send of `e`: unchanged when the send is refused.
pub open spec fn spec_send(s: Seq<ConsumerView>, e: Event) -> Seq<ConsumerView> {
    if fanout_ready(s) {
        s.map_values(|c: ConsumerView| consumer_push(c, e))
    } else {
        s
    }
}

/// The consumers after sending each event of `es` in turn.
pub open spec fn spec_send_all(s: Seq<ConsumerView>, es: Seq<Event>) -> Seq<ConsumerView>
    decreases es.len(),
{
    if es.len() == 0 {
        s
    } else {
        spec_send(spec_send_all(s, es.drop_last()), es.last())
    }
}

/// Position of the consumer keyed `k`, if attached.
pub open spec fn key_index(s: Seq<ConsumerView>, k: ComponentKey) -> int {
    choose|i: int| 0 <= i < s.len() && s[i].key == k
}

pub open spec fn has_key(s: Seq<ConsumerView>, k: ComponentKey) -> bool {
    exists|i: int| 0 <= i < s.len() && s[i].key == k
}

/// The consumers after attaching a fresh consumer `k` with buffer `b`.
pub open spec fn spec_add(s: Seq<ConsumerView>, k: ComponentKey, b: BufferView) -> Seq<ConsumerView> {
    s.push(ConsumerView { key: k, paused: false, buffer: b })
}

/// The consumers after setting the pause flag of the one at `i`.
pub open spec fn spec_set_paused(s: Seq<ConsumerView>, i: int, paused: bool) -> Seq<ConsumerView> {
    s.update(i, ConsumerView { paused: paused, ..s[i] })
}

/// Consumer `c` with `es` appended to its buffer.
pub open spec fn consumer_appended(c: ConsumerView, es: Seq<Event>) -> ConsumerView {
    ConsumerView { buffer: BufferView { entries: c.buffer.entries + es, ..c.buffer }, ..c }
}

/// While any consumer cannot take an event, every send is refused and nothing changes.
pub proof fn lemma_send_all_blocked(s: Seq<ConsumerView>, es: Seq<Event>)
    requires
        !fanout_ready(s),
    ensures
        spec_send_all(s, es) == s,
    decreases es.len(),
{
    if es.len() > 0 {
        lemma_send_all_blocked(s, es.drop_last());
    }
}

/// The events of `es` whose send goes through, in order, when they are sent in
/// turn from consumers `s`.
pub open spec fn accepted_events(s: Seq<ConsumerView>, es: Seq<Event>) -> Seq<Event>
    decreases es.len(),
{
    if es.len() == 0 {
        Seq::<Event>::empty()
    } else if fanout_ready(spec_send_all(s, es.drop_last())) {
        accepted_events(s, es.drop_last()).push(es.last())
    } else {
        accepted_events(s, es.drop_last())
    }
}

/// Whether every consumer blocks, rather than drops, when full.
pub open spec fn all_blocking(s: Seq<ConsumerView>) -> bool {
    forall|i: int| 0 <= i < s.len() ==> (#[trigger] s[i]).buffer.when_full == WhenFull::Block
}

/// Under backpressure, with no consumer reading: every consumer of blocking
/// buffers receives exactly the events whose send went through, in the order
/// they were sent, after what it already held. A refused send reaches nobody.
pub proof fn lemma_fanout_fifo_backpressure(s: Seq<ConsumerView>, es: Seq<Event>)
    requires
        fanout_wf(s),
        all_blocking(s),
    ensures
        spec_send_all(s, es) == s.map_values(|c: ConsumerView| consumer_appended(c, accepted_events(s, es))),
        fanout_wf(spec_send_all(s, es)),
    decreases es.len(),
{
    if es.len() == 0 {
        assert forall|i: int| 0 <= i < s.len() implies s[i] == #[trigger] consumer_appended(s[i], Seq::<Event>::empty()) by {
            assert(s[i].buffer.entries + Seq::<Event>::empty() == s[i].buffer.entries);
        }
        assert(s =~= s.map_values(|c: ConsumerView| consumer_appended(c, accepted_events(s, es))));
    } else {
        let p = es.drop_last();
        lemma_fanout_fifo_backpressure(s, p);
        let t = spec_send_all(s, p);
        let acc = accepted_events(s, p);
        assert(forall|i: int| 0 <= i < t.len() ==> #[trigger] t[i] == consumer_appended(s[i], acc));
        if fanout_ready(t) {
            assert forall|i: int| 0 <= i < s.len() implies #[trigger] spec_send_all(s, es)[i]
                == consumer_appended(s[i], accepted_events(s, es)) by {
                assert(t[i] == consumer_appended(s[i], acc));
                assert(consumer_ready(t[i]));
                assert(s[i].buffer.when_full == WhenFull::Block);
                assert((s[i].buffer.entries + acc).push(es.last()) == s[i].buffer.entries + acc.push(es.last()));
            }
        } else {
            assert forall|i: int| 0 <= i < s.len() implies #[trigger] spec_send_all(s, es)[i]
                == consumer_appended(s[i], accepted_events(s, es)) by {
                assert(t[i] == consumer_appended(s[i], acc));
            }
        }
        assert(spec_send_all(s, es) =~= s.map_values(|c: ConsumerView| consumer_appended(c, accepted_events(s, es))));
        let u = spec_send_all(s, es);
        assert forall|i: int| 0 <= i < u.len() implies buffer_wf(#[trigger] u[i].buffer) by {
            assert(buffer_wf(t[i].buffer));
            if fanout_ready(t) {
                assert(consumer_ready(t[i]));
                assert(u[i] == consumer_push(t[i], es.last()));
            }
        }
        assert forall|i: int, j: int| 0 <= i < j < u.len() implies (#[trigger] u[i]).key != (#[trigger] u[j]).key by {
            assert(s[i].key != s[j].key);
            assert(u[i] == consumer_appended(s[i], accepted_events(s, es)));
            assert(u[j] == consumer_appended(s[j], accepted_events(s, es)));
        }
    }
}

/// Under backpressure, a consumer attached after production began holds exactly
/// the events whose send went through after its attachment, in order, and none
/// sent before it; the consumers that were there all along hold every event
/// that went through.
pub proof fn lemma_fanout_hot_attach(
    s: Seq<ConsumerView>,
    before: Seq<Event>,
    k: ComponentKey,
    b: BufferView,
    after: Seq<Event>,
)
    requires
        fanout_wf(s),
        all_blocking(s),
        !has_key(s, k),
        buffer_wf(b),
        b.when_full == WhenFull::Block,
        b.entries.len() == 0,
    ensures
        ({
            let attached = spec_add(spec_send_all(s, before), k, b);
            let fin = spec_send_all(attached, after);
            let late = accepted_events(attached, after);
            &&& fin.len() == s.len() + 1
            &&& fin[s.len() as int].key == k
            &&& fin[s.len() as int].buffer.entries == late
            &&& forall|i: int| 0 <= i < s.len() ==> (#[trigger] fin[i]).buffer.entries
                == s[i].buffer.entries + accepted_events(s, before) + late
        }),
{
    lemma_fanout_fifo_backpressure(s, before);
    let s1 = spec_send_all(s, before);
    let acc = accepted_events(s, before);
    let attached = spec_add(s1, k, b);
    assert forall|i: int| 0 <= i < s1.len() implies #[trigger] s1[i] == consumer_appended(s[i], acc) by {}
    assert(fanout_wf(attached)) by {
        assert forall|i: int, j: int| 0 <= i < j < attached.len() implies (#[trigger] attached[i]).key != (#[trigger] attached[j]).key by {
            if j == s1.len() {
                assert(attached[i].key == s[i].key);
            } else {
                assert(s[i].key != s[j].key);
            }
        }
        assert forall|i: int| 0 <= i < attached.len() implies buffer_wf(#[trigger] attached[i].buffer) by {
            if i < s1.len() {
                assert(buffer_wf(s1[i].buffer));
            }
        }
    }
    assert(all_blocking(attached)) by {
        assert forall|i: int| 0 <= i < attached.len() implies (#[trigger] attached[i]).buffer.when_full == WhenFull::Block by {
            if i < s1.len() {
                assert(attached[i] == consumer_appended(s[i], acc));
            }
        }
    }
    lemma_fanout_fifo_backpressure(attached, after);
    let fin = spec_send_all(attached, after);
    let late = accepted_events(attached, after);
    assert(fin[s.len() as int] == consumer_appended(attached[s.len() as int], late));
    assert(b.entries + late == late);
    assert forall|i: int| 0 <= i < s.len() implies (#[trigger] fin[i]).buffer.entries
        == s[i].buffer.entries + acc + late by {
        assert(fin[i] == consumer_appended(attached[i], late));
        assert(attached[i] == consumer_appended(s[i], acc));
    }
}

/// Consumers attached before production, with room for it, each receive exactly
/// the produced sequence, in order, after what they already held.
pub proof fn lemma_fanout_fifo(s: Seq<ConsumerView>, es: Seq<Event>)
    requires
        fanout_wf(s),
        forall|i: int| 0 <= i < s.len() ==> !(#[trigger] s[i]).paused
            && s[i].buffer.entries.len() + es.len() <= s[i].buffer.max_events,
    ensures
        spec_send_all(s, es) == s.map_values(|c: ConsumerView| consumer_appended(c, es)),
    decreases es.len(),
{
    if es.len() == 0 {
        assert forall|i: int| 0 <= i < s.len() implies s[i] == #[trigger] consumer_appended(s[i], es) by {
            assert(s[i].buffer.entries + es == s[i].buffer.entries);
        }
        assert(s =~= s.map_values(|c: ConsumerView| consumer_appended(c, es)));
    } else {
        let p = es.drop_last();
        lemma_fanout_fifo(s, p);
        let t = spec_send_all(s, p);
        assert forall|i: int| 0 <= i < t.len() implies consumer_ready(#[trigger] t[i]) by {
            assert(t[i] == consumer_appended(s[i], p));
        }
        assert forall|i: int| 0 <= i < s.len() implies #[trigger] spec_send_all(s, es)[i]
            == consumer_appended(s[i], es) by {
            assert(t[i] == consumer_appended(s[i], p));
            assert(s[i].buffer.entries + p + seq![es.last()] == s[i].buffer.entries + es);
            assert((s[i].buffer.entries + p).push(es.last()) == s[i].buffer.entries + es);
        }
        assert(spec_send_all(s, es) =~= s.map_values(|c: ConsumerView| consumer_appended(c, es)));
    }
}


/// Replacing a consumer by pause, remove and add loses nothing and delivers
/// nothing twice, under backpressure: every event whose send went through before
/// the pause is in the removed buffer, every send while it is paused is refused,
/// and every event whose send went through after the replacement was attached
/// reaches the replacement.
pub proof fn lemma_fanout_replace(
    s: Seq<ConsumerView>,
    k: ComponentKey,
    before: Seq<Event>,
    during: Seq<Event>,
    b: BufferView,
    after: Seq<Event>,
)
    requires
        fanout_wf(s),
        all_blocking(s),
        has_key(s, k),
        buffer_wf(b),
        b.when_full == WhenFull::Block,
        b.entries.len() == 0,
    ensures
        ({
            let after_first = spec_send_all(s, before);
            let idx = key_index(after_first, k);
            let paused_set = spec_set_paused(after_first, idx, true);
            let removed = paused_set[idx].buffer;
            let without_old = paused_set.remove(idx);
            let with_new = spec_add(without_old, k, b);
            let fin = spec_send_all(with_new, after);
            &&& key_index(s, k) == idx
            &&& spec_send_all(paused_set, during) == paused_set
            &&& removed.entries == s[idx].buffer.entries + accepted_events(s, before)
            &&& fin.len() == s.len()
            &&& fin[s.len() - 1].key == k
            &&& fin[s.len() - 1].buffer.entries == accepted_events(with_new, after)
        }),
{
    lemma_fanout_fifo_backpressure(s, before);
    let acc = accepted_events(s, before);
    let after_first = spec_send_all(s, before);
    let i0 = key_index(s, k);
    let idx = key_index(after_first, k);
    assert forall|i: int| 0 <= i < after_first.len() implies #[trigger] after_first[i] == consumer_appended(s[i], acc) by {}
    assert(after_first[i0].key == k);
    assert(idx == i0) by {
        assert(after_first[idx].key == k);
        if idx != i0 {
            if idx < i0 {
                assert(s[idx].key != s[i0].key);
            } else {
                assert(s[i0].key != s[idx].key);
            }
        }
    }
    let paused_set = spec_set_paused(after_first, idx, true);
    assert(!consumer_ready(paused_set[idx]));
    lemma_send_all_blocked(paused_set, during);
    let without_old = paused_set.remove(idx);
    let with_new = spec_add(without_old, k, b);
    assert forall|i: int| 0 <= i < without_old.len() implies #[trigger] without_old[i] == (if i < idx { after_first[i] } else { after_first[i + 1] }) by {}
    assert(fanout_wf(with_new)) by {
        assert forall|i: int, j: int| 0 <= i < j < with_new.len() implies (#[trigger] with_new[i]).key != (#[trigger] with_new[j]).key by {
            let ii = if i < idx { i } else { i + 1 };
            if j == without_old.len() {
                assert(ii != idx);
                if ii < idx {
                    assert(s[ii].key != s[idx].key);
                } else {
                    assert(s[idx].key != s[ii].key);
                }
            } else {
                let jj = if j < idx { j } else { j + 1 };
                assert(s[ii].key != s[jj].key);
            }
        }
        assert forall|i: int| 0 <= i < with_new.len() implies buffer_wf(#[trigger] with_new[i].buffer) by {
            if i < without_old.len() {
                let ii = if i < idx { i } else { i + 1 };
                assert(buffer_wf(after_first[ii].buffer));
            }
        }
    }
    assert(all_blocking(with_new)) by {
        assert forall|i: int| 0 <= i < with_new.len() implies (#[trigger] with_new[i]).buffer.when_full == WhenFull::Block by {
            if i < without_old.len() {
                let ii = if i < idx { i } else { i + 1 };
                assert(with_new[i] == consumer_appended(s[ii], acc));
            }
        }
    }
    lemma_fanout_fifo_backpressure(with_new, after);
    let fin = spec_send_all(with_new, after);
    let late = accepted_events(with_new, after);
    assert(fin[s.len() - 1] == consumer_appended(with_new[s.len() - 1], late));
    assert(b.entries + late == late);
}

/// The consumers after a control message is applied.
pub open spec fn control_effect(s: Seq<ConsumerView>, msg: ControlMessage) -> Seq<ConsumerView> {
    match msg {
        ControlMessage::Add(k, b) => if has_key(s, k) { s } else { spec_add(s, k, b@) },
        ControlMessage::Remove(k) => if has_key(s, k) { s.remove(key_index(s, k)) } else { s },
        ControlMessage::Pause(k) => if has_key(s, k) { spec_set_paused(s, key_index(s, k), true) } else { s },
        ControlMessage::Resume(k) => if has_key(s, k) { spec_set_paused(s, key_index(s, k), false) } else { s },
    }
}

impl Fanout {
    pub closed spec fn wf(&self) -> bool {
        &&& fanout_wf(self@)
        &&& forall|i: int| 0 <= i < self.consumers@.len() ==> (#[trigger] self.consumers@[i]).buffer.wf()
    }

    /// A fanout with no consumers.
    pub fn new() -> (r: Fanout)
        ensures
            r.wf(),
            r@ == Seq::<ConsumerView>::empty(),
    {
        let r = Fanout { consumers: Vec::new() };
        assert(r@ =~= Seq::<ConsumerView>::empty());
        r
    }

    /// Number of attached consumers.
    pub fn len(&self) -> (r: usize)
        ensures
            r == self@.len(),
    {
        self.consumers.len()
    }

    fn find(&self, key: ComponentKey) -> (r: Option<usize>)
        requires
            self.wf(),
        ensures
            r is None ==> !has_key(self@, key),
            r matches Some(i) ==> (i < self@.len() && self@[i as int].key == key && key_index(self@, key) == i),
    {
        let mut i: usize = 0;
        while i < self.consumers.len()
            invariant
                self.wf(),
                i <= self.consumers@.len(),
                forall|j: int| 0 <= j < i ==> self@[j].key != key,
            decreases self.consumers@.len() - i,
        {
            if self.consumers[i].key == key {
                assert(self@[i as int].key == key);
                proof {
                    let k = key_index(self@, key);
                    assert(0 <= k < self@.len() && self@[k].key == key);
                    if k < i {
                        assert(self@[k].key != self@[i as int].key);
                    } else if k > i {
                        assert(self@[i as int].key != self@[k].key);
                    }
                }
                return Some(i);
            }
            i = i + 1;
        }
        None
    }

    /// Whether a send would go through now.
    pub fn is_ready(&self) -> (r: bool)
        requires
            self.wf(),
        ensures
            r == fanout_ready(self@),
    {
        let mut i: usize = 0;
        while i < self.consumers.len()
            invariant
                self.wf(),
                i <= self.consumers@.len(),
                forall|j: int| 0 <= j < i ==> consumer_ready(#[trigger] self@[j]),
            decreases self.consumers@.len() - i,
        {
            let c = &self.consumers[i];
            assert(self@[i as int] == consumer_view(*c));
            if c.paused || !(c.buffer.has_room() || c.buffer.when_full() == WhenFull::DropNewest) {
                return false;
            }
            i = i + 1;
        }
        true
    }

    /// Offers `e` to every consumer. It goes through, and reaches every consumer,
    /// only when all of them are ready; otherwise nothing changes and the producer
    /// has to offer it again later.
    pub fn send(&mut self, e: Event) -> (r: bool)
        requires
            old(self).wf(),
        ensures
            final(self).wf(),
            r == fanout_ready(old(self)@),
            final(self)@ == spec_send(old(self)@, e),
    {
        if !self.is_ready() {
            return false;
        }
        let ghost s0 = self@;
        let mut i: usize = 0;
        while i < self.consumers.len()
            invariant
                self.consumers@.len() == s0.len(),
                i <= s0.len(),
                forall|j: int| 0 <= j < s0.len() ==> (#[trigger] self.consumers@[j]).buffer.wf(),
                forall|j: int| 0 <= j < i ==> (#[trigger] self@[j]) == consumer_push(s0[j], e),
                forall|j: int| i <= j < s0.len() ==> (#[trigger] self@[j]) == s0[j],
            decreases s0.len() - i,
        {
            assert(self@[i as int] == s0[i as int]);
            let ghost cs = self.consumers@;
            let ghost v = self@;
            self.consumers[i].buffer.try_push(e);
            assert forall|j: int| 0 <= j < s0.len() && j != i implies #[trigger] self@[j] == v[j] by {
                assert(self.consumers@[j] == cs[j]);
                assert(self@[j] == consumer_view(self.consumers@[j]));
                assert(v[j] == consumer_view(cs[j]));
            }
            assert(self@[i as int] == consumer_view(self.consumers@[i as int]));
            assert(self@[i as int] == consumer_push(s0[i as int], e));
            i = i + 1;
        }
        assert(self@ =~= s0.map_values(|c: ConsumerView| consumer_push(c, e)));
        true
    }

    /// Attaches a consumer, unless its key is already attached.
    pub fn add(&mut self, key: ComponentKey, buffer: MemoryBuffer) -> (r: Result<(), MemoryBuffer>)
        requires
            old(self).wf(),
            buffer.wf(),
        ensures
            final(self).wf(),
            has_key(old(self)@, key) ==> r == Err::<(), MemoryBuffer>(buffer) && final(self)@ == old(self)@,
            !has_key(old(self)@, key) ==> r is Ok && final(self)@ == spec_add(old(self)@, key, buffer@),
    {
        match self.find(key) {
            Some(_) => Err(buffer),
            None => {
                let ghost s0 = self@;
                self.consumers.push(Consumer { key, paused: false, buffer });
                assert(self@ =~= spec_add(s0, key, buffer@));
                Ok(())
            },
        }
    }

    /// Detaches the consumer keyed `key` and hands back its buffer.
    pub fn remove(&mut self, key: ComponentKey) -> (r: Option<MemoryBuffer>)
        requires
            old(self).wf(),
        ensures
            final(self).wf(),
            !has_key(old(self)@, key) ==> r is None && final(self)@ == old(self)@,
            has_key(old(self)@, key) ==> (r matches Some(b) && b@ == old(self)@[key_index(old(self)@, key)].buffer
                && b.wf() && final(self)@ == old(self)@.remove(key_index(old(self)@, key))),
    {
        match self.find(key) {
            None => None,
            Some(i) => {
                let ghost s0 = self@;
                let c = self.consumers.remove(i);
                assert(self@ =~= s0.remove(i as int));
                Some(c.buffer)
            },
        }
    }

    fn set_paused(&mut self, key: ComponentKey, paused: bool) -> (r: bool)
        requires
            old(self).wf(),
        ensures
            final(self).wf(),
            r == has_key(old(self)@, key),
            !r ==> final(self)@ == old(self)@,
            r ==> final(self)@ == spec_set_paused(old(self)@, key_index(old(self)@, key), paused),
    {
        match self.find(key) {
            None => false,
            Some(i) => {
                let ghost s0 = self@;
                self.consumers[i].paused = paused;
                assert(self@ =~= spec_set_paused(s0, i as int, paused));
                true
            },
        }
    }

    /// Pauses a consumer: until it is resumed or removed, no send goes through.
    pub fn pause(&mut self, key: ComponentKey) -> (r: bool)
        requires
            old(self).wf(),
        ensures
            final(self).wf(),
            r == has_key(old(self)@, key),
            !r ==> final(self)@ == old(self)@,
            r ==> final(self)@ == spec_set_paused(old(self)@, key_index(old(self)@, key), true),
    {
        self.set_paused(key, true)
    }

    /// Resumes a paused consumer.
    pub fn resume(&mut self, key: ComponentKey) -> (r: bool)
        requires
            old(self).wf(),
        ensures
            final(self).wf(),
            r == has_key(old(self)@, key),
            !r ==> final(self)@ == old(self)@,
            r ==> final(self)@ == spec_set_paused(old(self)@, key_index(old(self)@, key), false),
    {
        self.set_paused(key, false)
    }

    /// The events that consumer `key` holds and has not read yet, oldest first.
    pub fn consumer_unread(&self, key: ComponentKey) -> (r: Option<Vec<Event>>)
        requires
            self.wf(),
        ensures
            !has_key(self@, key) ==> r is None,
            has_key(self@, key) ==> (r matches Some(v) && v@ == self@[key_index(self@, key)].buffer.entries.skip(
                self@[key_index(self@, key)].buffer.read as int)),
    {
        match self.find(key) {
            None => None,
            Some(i) => {
                assert(self@[i as int] == consumer_view(self.consumers@[i as int]));
                assert(self.consumers@[i as int].buffer.wf());
                Some(self.consumers[i].buffer.unread())
            },
        }
    }

    /// Applies one message of the control channel.
    pub fn handle_control(&mut self, msg: ControlMessage) -> (r: ControlReply)
        requires
            old(self).wf(),
            msg matches ControlMessage::Add(_, b) ==> b.wf(),
        ensures
            final(self).wf(),
            final(self)@ == control_effect(old(self)@, msg),
            match msg {
                ControlMessage::Add(k, b) => if has_key(old(self)@, k) {
                    r == ControlReply::Rejected(b) && final(self)@ == old(self)@
                } else {
                    r is Done && final(self)@ == spec_add(old(self)@, k, b@)
                },
                ControlMessage::Remove(k) => if has_key(old(self)@, k) {
                    r matches ControlReply::Removed(b) && b@ == old(self)@[key_index(old(self)@, k)].buffer
                        && final(self)@ == old(self)@.remove(key_index(old(self)@, k))
                } else {
                    r is Unknown && final(self)@ == old(self)@
                },
                ControlMessage::Pause(k) => if has_key(old(self)@, k) {
                    r is Done && final(self)@ == spec_set_paused(old(self)@, key_index(old(self)@, k), true)
                } else {
                    r is Unknown && final(self)@ == old(self)@
                },
                ControlMessage::Resume(k) => if has_key(old(self)@, k) {
                    r is Done && final(self)@ == spec_set_paused(old(self)@, key_index(old(self)@, k), false)
                } else {
                    r is Unknown && final(self)@ == old(self)@
                },
            },
    {
        match msg {
            ControlMessage::Add(k, b) => match self.add(k, b) {
                Ok(()) => ControlReply::Done,
                Err(b) => ControlReply::Rejected(b),
            },
            ControlMessage::Remove(k) => match self.remove(k) {
                Some(b) => ControlReply::Removed(b),
                None => ControlReply::Unknown,
            },
            ControlMessage::Pause(k) => if self.pause(k) {
                ControlReply::Done
            } else {
                ControlReply::Unknown
            },
            ControlMessage::Resume(k) => if self.resume(k) {
                ControlReply::Done
            } else {
                ControlReply::Unknown
            },
        }
    }

    /// Sends the events of `buf` in order until one is refused, and keeps the rest
    /// in `buf`. Returns how many went through.
    pub fn send_prefix(&mut self, buf: &mut Vec<Event>) -> (sent: usize)
        requires
            old(self).wf(),
        ensures
            final(self).wf(),
            sent == accepted_prefix(old(self)@, old(buf)@),
            sent <= old(buf)@.len(),
            final(buf)@ == old(buf)@.skip(sent as int),
            final(self)@ == spec_send_all(old(self)@, old(buf)@.take(sent as int)),
    {
        let ghost s0 = self@;
        let ghost b0 = buf@;
        let mut i: usize = 0;
        let mut blocked = false;
        assert(b0.skip(0) == b0);
        assert(b0.take(0) == Seq::<Event>::empty());
        while i < buf.len() && !blocked
            invariant
                self.wf(),
                buf@ == b0,
                i <= b0.len(),
                self@ == spec_send_all(s0, b0.take(i as int)),
                !blocked ==> accepted_prefix(s0, b0) == i + accepted_prefix(self@, b0.skip(i as int)),
                blocked ==> accepted_prefix(s0, b0) == i,
            decreases b0.len() - i + (if blocked { 0int } else { 1int }),
        {
            let ghost cur = self@;
            proof {
                lemma_accepted_prefix_unfold(cur, b0.skip(i as int));
                assert(b0.skip(i as int)[0] == b0[i as int]);
                assert(b0.skip(i as int).skip(1) == b0.skip(i as int + 1));
            }
            if self.send(buf[i]) {
                assert(b0.take(i as int + 1).drop_last() == b0.take(i as int));
                assert(b0.take(i as int + 1).last() == b0[i as int]);
                i = i + 1;
            } else {
                blocked = true;
            }
        }
        proof {
            if !blocked {
                assert(b0.skip(i as int).len() == 0);
            }
        }
        let rest = buf.split_off(i);
        *buf = rest;
        i
    }
}

/// How many events of `es`, sent in order, go through before the first refusal.
pub open spec fn accepted_prefix(s: Seq<ConsumerView>, es: Seq<Event>) -> nat
    decreases es.len(),
{
    if es.len() == 0 || !fanout_ready(s) {
        0
    } else {
        1 + accepted_prefix(spec_send(s, es[0]), es.skip(1))
    }
}

proof fn lemma_accepted_prefix_unfold(s: Seq<ConsumerView>, es: Seq<Event>)
    ensures
        accepted_prefix(s, es) == if es.len() == 0 || !fanout_ready(s) {
            0
        } else {
            1 + accepted_prefix(spec_send(s, es[0]), es.skip(1))
        },
{
}

} // verus!
