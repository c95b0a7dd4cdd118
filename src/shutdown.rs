//! Per-source shutdown signals, deadlines and forced shutdown.
use vstd::prelude::*;
use crate::event::ComponentKey;

verus! {

/// Where a source stands in its shutdown.
#[derive(Clone, Copy, Debug, PartialEq, Eq, Structural)]
pub enum SourceState {
    /// Running; no shutdown was asked for.
    Running,
    /// Its shutdown signal fired; it has until `deadline` to finish.
    Draining { deadline: u64 },
    /// It finished on its own.
    Finished,
    /// It missed its deadline and its force tripwire fired.
    Forced,
}

/// One registered source.
#[derive(Clone, Copy, Debug, PartialEq, Eq, Structural)]
pub struct SourceEntry {
    pub key: ComponentKey,
    pub state: SourceState,
}

/// Tracks the shutdown of every registered source.
pub struct SourceShutdownCoordinator {
    sources: Vec<SourceEntry>,
}

impl View for SourceShutdownCoordinator {
    type V = Seq<SourceEntry>;

    closed spec fn view(&self) -> Seq<SourceEntry> {
        self.sources@
    }
}

pub open spec fn keys_distinct(s: Seq<SourceEntry>) -> bool {
    forall|i: int, j: int| 0 <= i < j < s.len() ==> (#[trigger] s[i]).key != (#[trigger] s[j]).key
}

pub open spec fn registered(s: Seq<SourceEntry>, k: ComponentKey) -> bool {
    exists|i: int| 0 <= i < s.len() && s[i].key == k
}

pub open spec fn source_index(s: Seq<SourceEntry>, k: ComponentKey) -> int {
    choose|i: int| 0 <= i < s.len() && s[i].key == k
}

/// Whether entry `e` is forced at time `now`.
pub open spec fn due(e: SourceEntry, now: u64) -> bool {
    match e.state {
        SourceState::Draining { deadline } => deadline <= now,
        _ => false,
    }
}

/// The entries after the clock reads `now`: every source past its deadline is forced.
pub open spec fn spec_tick(s: Seq<SourceEntry>, now: u64) -> Seq<SourceEntry> {
    s.map_values(|e: SourceEntry| if due(e, now) { SourceEntry { key: e.key, state: SourceState::Forced } } else { e })
}

/// Keys of the sources forced at time `now`, in registration order.
pub open spec fn due_keys(s: Seq<SourceEntry>, now: u64) -> Seq<ComponentKey>
    decreases s.len(),
{
    if s.len() == 0 {
        Seq::<ComponentKey>::empty()
    } else if due(s.last(), now) {
        due_keys(s.drop_last(), now).push(s.last().key)
    } else {
        due_keys(s.drop_last(), now)
    }
}

/// The entries after asking source `k` to shut down by `deadline`.
pub open spec fn spec_shutdown(s: Seq<SourceEntry>, k: ComponentKey, deadline: u64) -> Seq<SourceEntry> {
    let i = source_index(s, k);
    if registered(s, k) && s[i].state == SourceState::Running {
        s.update(i, SourceEntry { key: k, state: SourceState::Draining { deadline } })
    } else {
        s
    }
}

/// Whether the force tripwire of the source of entry `e` fired.
pub open spec fn tripwire_fired(e: SourceEntry) -> bool {
    e.state == SourceState::Forced
}

/// How a source's server task ends, given whether its force tripwire fired and
/// what its own future yielded so far (`None`: still pending). The tripwire wins
/// a tie.
pub open spec fn spec_server_outcome(tripwire_fired: bool, server: Option<Result<(), ()>>) -> Option<Result<(), ()>> {
    if tripwire_fired {
        Some(Ok(()))
    } else {
        server
    }
}

/// Decides how a source's server task ends: the force tripwire is polled first,
/// then the server's own result. `None` means the task is still running.
pub fn server_outcome(tripwire_fired: bool, server: Option<Result<(), ()>>) -> (r: Option<Result<(), ()>>)
    ensures
        r == spec_server_outcome(tripwire_fired, server),
{
    if tripwire_fired {
        Some(Ok(()))
    } else {
        server
    }
}

impl SourceShutdownCoordinator {
    pub closed spec fn wf(&self) -> bool {
        keys_distinct(self@)
    }

    /// A coordinator with no sources.
    pub fn new() -> (r: SourceShutdownCoordinator)
        ensures
            r.wf(),
            r@ == Seq::<SourceEntry>::empty(),
    {
        SourceShutdownCoordinator { sources: Vec::new() }
    }

    fn find(&self, key: ComponentKey) -> (r: Option<usize>)
        requires
            self.wf(),
        ensures
            r is None ==> !registered(self@, key),
            r matches Some(i) ==> (i < self@.len() && self@[i as int].key == key && source_index(self@, key) == i),
    {
        let mut i: usize = 0;
        while i < self.sources.len()
            invariant
                self.wf(),
                i <= self@.len(),
                forall|j: int| 0 <= j < i ==> self@[j].key != key,
            decreases self@.len() - i,
        {
            if self.sources[i].key == key {
                proof {
                    let k = source_index(self@, key);
                    assert(0 <= k < self@.len() && self@[k].key == key);
                    if k > i {
                        assert(self@[i as int].key != self@[k].key);
                    }
                }
                return Some(i);
            }
            i = i + 1;
        }
        None
    }

    /// Registers a source as running. Returns false, changing nothing, if its key
    /// is already registered.
    pub fn register_source(&mut self, key: ComponentKey) -> (r: bool)
        requires
            old(self).wf(),
        ensures
            final(self).wf(),
            r == !registered(old(self)@, key),
            r ==> final(self)@ == old(self)@.push(SourceEntry { key, state: SourceState::Running }),
            !r ==> final(self)@ == old(self)@,
    {
        match self.find(key) {
            Some(_) => false,
            None => {
                self.sources.push(SourceEntry { key, state: SourceState::Running });
                true
            },
        }
    }

    /// Fires the shutdown signal of a running source and gives it until `deadline`.
    /// Returns whether the source was registered and running.
    pub fn shutdown_source(&mut self, key: ComponentKey, deadline: u64) -> (r: bool)
        requires
            old(self).wf(),
        ensures
            final(self).wf(),
            r == (registered(old(self)@, key) && old(self)@[source_index(old(self)@, key)].state == SourceState::Running),
            final(self)@ == spec_shutdown(old(self)@, key, deadline),
    {
        match self.find(key) {
            None => false,
            Some(i) => {
                if self.sources[i].state == SourceState::Running {
                    self.sources.set(i, SourceEntry { key, state: SourceState::Draining { deadline } });
                    true
                } else {
                    false
                }
            },
        }
    }

    /// Records that a source finished on its own, unless it was already forced.
    pub fn source_finished(&mut self, key: ComponentKey) -> (r: bool)
        requires
            old(self).wf(),
        ensures
            final(self).wf(),
            ({
                let i = source_index(old(self)@, key);
                if registered(old(self)@, key) && old(self)@[i].state != SourceState::Forced {
                    r && final(self)@ == old(self)@.update(i, SourceEntry { key, state: SourceState::Finished })
                } else {
                    !r && final(self)@ == old(self)@
                }
            }),
    {
        match self.find(key) {
            None => false,
            Some(i) => {
                if self.sources[i].state == SourceState::Forced {
                    false
                } else {
                    self.sources.set(i, SourceEntry { key, state: SourceState::Finished });
                    true
                }
            },
        }
    }

    /// Advances the clock to `now`: every draining source past its deadline has its
    /// force tripwire fired. Returns the keys of those sources, in registration order.
    pub fn tick(&mut self, now: u64) -> (r: Vec<ComponentKey>)
        requires
            old(self).wf(),
        ensures
            final(self).wf(),
            final(self)@ == spec_tick(old(self)@, now),
            r@ == due_keys(old(self)@, now),
    {
        let ghost s0 = self@;
        let mut forced: Vec<ComponentKey> = Vec::new();
        let mut i: usize = 0;
        while i < self.sources.len()
            invariant
                self@.len() == s0.len(),
                i <= s0.len(),
                keys_distinct(s0),
                forall|j: int| 0 <= j < i ==> #[trigger] self@[j] == spec_tick(s0, now)[j],
                forall|j: int| i <= j < s0.len() ==> #[trigger] self@[j] == s0[j],
                forced@ == due_keys(s0.take(i as int), now),
            decreases s0.len() - i,
        {
            let e = self.sources[i];
            assert(s0.take(i as int + 1).drop_last() == s0.take(i as int));
            let is_due = match e.state {
                SourceState::Draining { deadline } => deadline <= now,
                _ => false,
            };
            if is_due {
                self.sources.set(i, SourceEntry { key: e.key, state: SourceState::Forced });
                forced.push(e.key);
            }
            i = i + 1;
        }
        assert(self@ =~= spec_tick(s0, now));
        assert(s0.take(s0.len() as int) == s0);
        assert forall|a: int, b: int| 0 <= a < b < self@.len() implies (#[trigger] self@[a]).key != (#[trigger] self@[b]).key by {
            assert(s0[a].key != s0[b].key);
        }
        forced
    }

    /// The state of a registered source.
    pub fn state(&self, key: ComponentKey) -> (r: Option<SourceState>)
        requires
            self.wf(),
        ensures
            registered(self@, key) ==> r == Some(self@[source_index(self@, key)].state),
            !registered(self@, key) ==> r is None,
    {
        match self.find(key) {
            None => None,
            Some(i) => Some(self.sources[i].state),
        }
    }
}

/// A source that ignores its shutdown signal is forced once the clock reaches its
/// deadline, and its server task then ends at once without error, whatever its
/// own future yielded; before the deadline its tripwire has not fired.
pub proof fn lemma_forced_shutdown(s: Seq<SourceEntry>, k: ComponentKey, deadline: u64, now: u64)
    requires
        keys_distinct(s),
        registered(s, k),
        s[source_index(s, k)].state == SourceState::Running,
    ensures
        ({
            let i = source_index(s, k);
            let after = spec_tick(spec_shutdown(s, k, deadline), now);
            &&& deadline <= now ==> after[i].state == SourceState::Forced
                && forall|server: Option<Result<(), ()>>| #[trigger] spec_server_outcome(tripwire_fired(after[i]), server)
                    == Some(Ok::<(), ()>(()))
            &&& now < deadline ==> after[i].state == (SourceState::Draining { deadline })
                && !tripwire_fired(after[i])
        }),
{
    let i = source_index(s, k);
    let signalled = spec_shutdown(s, k, deadline);
    assert(signalled[i] == SourceEntry { key: k, state: SourceState::Draining { deadline } });
}

} // verus!
