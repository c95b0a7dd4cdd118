//! Events, component identities and the per-edge event-type filter.
use vstd::prelude::*;

verus! {

/// A pipeline event. The core never looks inside a payload: it only tells a log
/// from a metric, so each variant carries an opaque payload handle.
#[derive(Clone, Copy, Debug, PartialEq, Eq, Structural)]
pub enum Event {
    Log(u64),
    Metric(u64),
}

/// The kind of events a component accepts on its input edge.
#[derive(Clone, Copy, Debug, PartialEq, Eq, Structural)]
pub enum DataType {
    Log,
    Metric,
    Any,
}

/// Stable identity of a component; ordered by scope, then id.
#[derive(Clone, Copy, Debug, PartialEq, Eq, Structural, PartialOrd, Ord, Hash)]
pub struct ComponentKey {
    pub scope: u64,
    pub id: u64,
}

/// Strict order on component keys: by scope, then by id.
pub open spec fn key_lt(a: ComponentKey, b: ComponentKey) -> bool {
    a.scope < b.scope || (a.scope == b.scope && a.id < b.id)
}

/// Whether `e` passes an edge that accepts `dt`.
pub open spec fn accepts(dt: DataType, e: Event) -> bool {
    match dt {
        DataType::Any => true,
        DataType::Log => e is Log,
        DataType::Metric => e is Metric,
    }
}

/// The events of `s` that pass an edge that accepts `dt`, in order.
pub open spec fn filtered(s: Seq<Event>, dt: DataType) -> Seq<Event>
    decreases s.len(),
{
    if s.len() == 0 {
        Seq::<Event>::empty()
    } else {
        let rest = filtered(s.drop_last(), dt);
        if accepts(dt, s.last()) {
            rest.push(s.last())
        } else {
            rest
        }
    }
}

/// Strict comparison of two component keys.
pub fn key_less(a: &ComponentKey, b: &ComponentKey) -> (r: bool)
    ensures
        r == key_lt(*a, *b),
{
    a.scope < b.scope || (a.scope == b.scope && a.id < b.id)
}

/// Whether `event` passes an edge that accepts `data_type`.
pub fn filter_event_type(event: &Event, data_type: DataType) -> (r: bool)
    ensures
        r == accepts(data_type, *event),
{
    match data_type {
        DataType::Any => true,
        DataType::Log => matches!(event, Event::Log(_)),
        DataType::Metric => matches!(event, Event::Metric(_)),
    }
}

/// Keeps, in order, the events that pass an edge that accepts `data_type`.
pub fn filter_events(events: &Vec<Event>, data_type: DataType) -> (r: Vec<Event>)
    ensures
        r@ == filtered(events@, data_type),
{
    let mut out: Vec<Event> = Vec::new();
    let mut i: usize = 0;
    while i < events.len()
        invariant
            i <= events@.len(),
            out@ == filtered(events@.take(i as int), data_type),
        decreases events@.len() - i,
    {
        let e = events[i];
        assert(events@.take(i as int + 1).drop_last() == events@.take(i as int));
        if filter_event_type(&e, data_type) {
            out.push(e);
        }
        i = i + 1;
    }
    assert(events@.take(events@.len() as int) == events@);
    out
}

/// Every event that the filter keeps passes the edge.
pub proof fn lemma_filtered_accepts(s: Seq<Event>, dt: DataType)
    ensures
        forall|i: int| 0 <= i < filtered(s, dt).len() ==> accepts(dt, #[trigger] filtered(s, dt)[i]),
        filtered(s, dt).len() <= s.len(),
    decreases s.len(),
{
    if s.len() > 0 {
        lemma_filtered_accepts(s.drop_last(), dt);
    }
}

/// A sequence whose events all pass the edge goes through it unchanged.
pub proof fn lemma_filtered_all_pass(s: Seq<Event>, dt: DataType)
    requires
        forall|i: int| 0 <= i < s.len() ==> accepts(dt, #[trigger] s[i]),
    ensures
        filtered(s, dt) == s,
    decreases s.len(),
{
    if s.len() > 0 {
        lemma_filtered_all_pass(s.drop_last(), dt);
        assert(s.drop_last().push(s.last()) == s);
    }
}

/// Filtering twice by the same data type is the same as filtering once.
pub proof fn lemma_filter_idempotent(s: Seq<Event>, dt: DataType)
    ensures
        filtered(filtered(s, dt), dt) == filtered(s, dt),
{
    lemma_filtered_accepts(s, dt);
    lemma_filtered_all_pass(filtered(s, dt), dt);
}

/// A log-typed edge drops every metric: feeding only metrics yields nothing.
pub proof fn lemma_log_edge_drops_metrics(s: Seq<Event>)
    requires
        forall|i: int| 0 <= i < s.len() ==> (#[trigger] s[i]) is Metric,
    ensures
        filtered(s, DataType::Log) == Seq::<Event>::empty(),
    decreases s.len(),
{
    if s.len() > 0 {
        lemma_log_edge_drops_metrics(s.drop_last());
    }
}

} // verus!
