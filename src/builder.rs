//! Builds the new pieces of a topology from a configuration and its diff.
use vstd::prelude::*;
use crate::buffer::{BufferView, MemoryBuffer, WhenFull};
use crate::enrichment::{Reload, TableConfig, TableRegistry, TableView, spec_load, spec_needs_reload,
    spec_index_fields, all_fit, IndexView};
use crate::event::{ComponentKey, DataType, Event};
use crate::fanout::{accepted_prefix, spec_send_all, Fanout};
use crate::shutdown::{registered, SourceEntry, SourceShutdownCoordinator, SourceState};
use crate::transform::{build_transform, dropped_port, dropped_port_name, ids_of, names_of, ports_of,
    declared_ports, OutputId, OutputIdView, TransformKind, TransformNode, TransformRunner};

verus! {

/// Queue depth of the channel between a source and its pump.
pub const SOURCE_QUEUE_DEPTH: usize = 1000;

/// Capacity of the memory buffer in front of each transform.
pub const TRANSFORM_BUFFER_EVENTS: usize = 100;

/// A configured source, with what its constructor reported.
pub struct SourceConfig {
    pub key: ComponentKey,
    pub build_error: Option<String>,
}

/// A configured transform, with what its constructor reported.
pub struct TransformConfig {
    pub key: ComponentKey,
    pub inputs: Vec<OutputId>,
    pub input_type: DataType,
    pub kind: TransformKind,
    pub build_error: Option<String>,
}

/// How a sink's input buffer is built.
#[derive(Clone, Copy, Debug, PartialEq, Eq, Structural)]
pub struct BufferConfig {
    pub max_events: usize,
    pub when_full: WhenFull,
}

/// A configured sink, with what its constructor reported.
pub struct SinkConfig {
    pub key: ComponentKey,
    pub inputs: Vec<OutputId>,
    pub input_type: DataType,
    pub buffer: BufferConfig,
    pub healthcheck_enabled: bool,
    pub build_error: Option<String>,
}

/// A configuration snapshot. Each component list is ordered by key.
pub struct Config {
    pub sources: Vec<SourceConfig>,
    pub transforms: Vec<TransformConfig>,
    pub sinks: Vec<SinkConfig>,
    pub enrichment_tables: Vec<TableConfig>,
    pub healthchecks_enabled: bool,
}

/// The keys that are new in a configuration, per category.
pub struct ConfigDiff {
    pub sources: Vec<ComponentKey>,
    pub transforms: Vec<ComponentKey>,
    pub sinks: Vec<ComponentKey>,
}

/// A failure met while building.
pub enum BuildError {
    EnrichmentTable { name: String, message: String },
    Source { key: ComponentKey, message: String },
    Transform { key: ComponentKey, message: String },
    Sink { key: ComponentKey, message: String },
    /// A sink's buffer was configured to hold no event.
    SinkBuffer { key: ComponentKey },
}

pub enum BuildErrorView {
    EnrichmentTable { name: Seq<char>, message: Seq<char> },
    Source { key: ComponentKey, message: Seq<char> },
    Transform { key: ComponentKey, message: Seq<char> },
    Sink { key: ComponentKey, message: Seq<char> },
    SinkBuffer { key: ComponentKey },
}

impl View for BuildError {
    type V = BuildErrorView;

    open spec fn view(&self) -> BuildErrorView {
        match self {
            BuildError::EnrichmentTable { name, message } => BuildErrorView::EnrichmentTable {
                name: name@,
                message: message@,
            },
            BuildError::Source { key, message } => BuildErrorView::Source { key: *key, message: message@ },
            BuildError::Transform { key, message } => BuildErrorView::Transform { key: *key, message: message@ },
            BuildError::Sink { key, message } => BuildErrorView::Sink { key: *key, message: message@ },
            BuildError::SinkBuffer { key } => BuildErrorView::SinkBuffer { key: *key },
        }
    }
}

pub open spec fn errors_of(v: Seq<BuildError>) -> Seq<BuildErrorView> {
    v.map_values(|e: BuildError| e@)
}

/// The input of a built transform or sink: its buffer and its upstream outputs.
pub struct InputPiece {
    pub key: ComponentKey,
    pub buffer: MemoryBuffer,
    pub upstream: Vec<OutputId>,
}

/// The output ports of a built source or transform.
pub struct OutputPiece {
    pub key: ComponentKey,
    pub ports: Vec<OutputId>,
}

/// The unit of work of a built component.
pub enum Task {
    /// Forwards the events a source puts in its channel to its fanout.
    SourcePump { channel: MemoryBuffer, output: Fanout },
    /// Runs a transform.
    Transform { runner: TransformRunner },
    /// Runs a sink over its filtered input until it is detached.
    Sink { input_type: DataType },
}

pub struct TaskPiece {
    pub key: ComponentKey,
    pub task: Task,
}

/// Whether a sink's healthcheck runs.
pub struct HealthcheckPiece {
    pub key: ComponentKey,
    pub enabled: bool,
}

/// What a build hands to the topology: only the new components.
pub struct Pieces {
    pub inputs: Vec<InputPiece>,
    pub outputs: Vec<OutputPiece>,
    pub tasks: Vec<TaskPiece>,
    pub source_tasks: Vec<ComponentKey>,
    pub healthchecks: Vec<HealthcheckPiece>,
    pub shutdown_coordinator: SourceShutdownCoordinator,
    pub detach_triggers: Vec<ComponentKey>,
}

/// The keys of `keys` that `new` holds, in order.
pub open spec fn new_keys(keys: Seq<ComponentKey>, new: Seq<ComponentKey>) -> Seq<ComponentKey>
    decreases keys.len(),
{
    if keys.len() == 0 {
        Seq::<ComponentKey>::empty()
    } else if new.contains(keys.last()) {
        new_keys(keys.drop_last(), new).push(keys.last())
    } else {
        new_keys(keys.drop_last(), new)
    }
}

pub open spec fn source_keys(s: Seq<SourceConfig>) -> Seq<ComponentKey> {
    s.map_values(|c: SourceConfig| c.key)
}

pub open spec fn transform_keys(s: Seq<TransformConfig>) -> Seq<ComponentKey> {
    s.map_values(|c: TransformConfig| c.key)
}

pub open spec fn sink_keys(s: Seq<SinkConfig>) -> Seq<ComponentKey> {
    s.map_values(|c: SinkConfig| c.key)
}

pub open spec fn strictly_ordered(keys: Seq<ComponentKey>) -> bool {
    forall|i: int, j: int| 0 <= i < j < keys.len() ==> crate::event::key_lt(#[trigger] keys[i], #[trigger] keys[j])
}

/// No key of `a` is a key of `b`.
pub open spec fn keys_disjoint(a: Seq<ComponentKey>, b: Seq<ComponentKey>) -> bool {
    forall|i: int, j: int| 0 <= i < a.len() && 0 <= j < b.len() ==> #[trigger] a[i] != #[trigger] b[j]
}

/// A configuration whose component lists are each ordered by key, without
/// repeats, and where no two components share a key.
pub open spec fn config_wf(c: &Config) -> bool {
    &&& strictly_ordered(source_keys(c.sources@))
    &&& strictly_ordered(transform_keys(c.transforms@))
    &&& strictly_ordered(sink_keys(c.sinks@))
    &&& keys_disjoint(source_keys(c.sources@), transform_keys(c.transforms@))
    &&& keys_disjoint(source_keys(c.sources@), sink_keys(c.sinks@))
    &&& keys_disjoint(transform_keys(c.transforms@), sink_keys(c.sinks@))
}

/// Whether no key of `a` is a key of `b`.
pub fn keys_apart(a: &Vec<ComponentKey>, b: &Vec<ComponentKey>) -> (r: bool)
    ensures
        r == keys_disjoint(a@, b@),
{
    let mut i: usize = 0;
    while i < a.len()
        invariant
            i <= a@.len(),
            forall|x: int, j: int| 0 <= x < i && 0 <= j < b@.len() ==> #[trigger] a@[x] != #[trigger] b@[j],
        decreases a@.len() - i,
    {
        if contains_key(b, a[i]) {
            proof {
                let j = choose|j: int| 0 <= j < b@.len() && b@[j] == a@[i as int];
                assert(a@[i as int] == b@[j]);
            }
            return false;
        }
        i = i + 1;
    }
    true
}

/// Whether `keys` is strictly ascending.
pub fn keys_ordered(keys: &Vec<ComponentKey>) -> (r: bool)
    ensures
        r == strictly_ordered(keys@),
{
    let mut i: usize = 1;
    if keys.len() == 0 {
        return true;
    }
    while i < keys.len()
        invariant
            1 <= i <= keys@.len(),
            strictly_ordered(keys@.take(i as int)),
        decreases keys@.len() - i,
    {
        if !crate::event::key_less(&keys[i - 1], &keys[i]) {
            assert(!strictly_ordered(keys@)) by {
                assert(!crate::event::key_lt(keys@[i - 1], keys@[i as int]));
            }
            return false;
        }
        assert(strictly_ordered(keys@.take(i as int + 1))) by {
            let t = keys@.take(i as int + 1);
            assert forall|a: int, b: int| 0 <= a < b < t.len() implies crate::event::key_lt(#[trigger] t[a], #[trigger] t[b]) by {
                if b == i as int && a < i - 1 {
                    assert(keys@.take(i as int)[a] == t[a]);
                    assert(keys@.take(i as int)[i - 1] == t[i - 1]);
                } else if b < i as int {
                    assert(keys@.take(i as int)[a] == t[a]);
                    assert(keys@.take(i as int)[b] == t[b]);
                }
            }
        }
        i = i + 1;
    }
    assert(keys@.take(keys@.len() as int) == keys@);
    true
}

impl Config {
    /// Whether each component list is ordered by key, without repeats, and no
    /// two components share a key, as `build_pieces` needs.
    pub fn is_ordered(&self) -> (r: bool)
        ensures
            r == config_wf(self),
    {
        let mut sources: Vec<ComponentKey> = Vec::new();
        let mut i: usize = 0;
        while i < self.sources.len()
            invariant
                i <= self.sources@.len(),
                sources@ == source_keys(self.sources@.take(i as int)),
            decreases self.sources@.len() - i,
        {
            sources.push(self.sources[i].key);
            i = i + 1;
            assert(sources@ =~= source_keys(self.sources@.take(i as int)));
        }
        assert(self.sources@.take(self.sources@.len() as int) == self.sources@);
        let mut transforms: Vec<ComponentKey> = Vec::new();
        let mut i: usize = 0;
        while i < self.transforms.len()
            invariant
                i <= self.transforms@.len(),
                transforms@ == transform_keys(self.transforms@.take(i as int)),
            decreases self.transforms@.len() - i,
        {
            transforms.push(self.transforms[i].key);
            i = i + 1;
            assert(transforms@ =~= transform_keys(self.transforms@.take(i as int)));
        }
        assert(self.transforms@.take(self.transforms@.len() as int) == self.transforms@);
        let mut sinks: Vec<ComponentKey> = Vec::new();
        let mut i: usize = 0;
        while i < self.sinks.len()
            invariant
                i <= self.sinks@.len(),
                sinks@ == sink_keys(self.sinks@.take(i as int)),
            decreases self.sinks@.len() - i,
        {
            sinks.push(self.sinks[i].key);
            i = i + 1;
            assert(sinks@ =~= sink_keys(self.sinks@.take(i as int)));
        }
        assert(self.sinks@.take(self.sinks@.len() as int) == self.sinks@);
        keys_ordered(&sources) && keys_ordered(&transforms) && keys_ordered(&sinks)
            && keys_apart(&sources, &transforms) && keys_apart(&sources, &sinks)
            && keys_apart(&transforms, &sinks)
    }
}

/// Errors of the new sources, in order.
pub open spec fn source_errors(s: Seq<SourceConfig>, new: Seq<ComponentKey>) -> Seq<BuildErrorView>
    decreases s.len(),
{
    if s.len() == 0 {
        Seq::<BuildErrorView>::empty()
    } else {
        let rest = source_errors(s.drop_last(), new);
        let c = s.last();
        if new.contains(c.key) && c.build_error is Some {
            rest.push(BuildErrorView::Source { key: c.key, message: c.build_error.unwrap()@ })
        } else {
            rest
        }
    }
}

/// Errors of the new transforms, in order.
pub open spec fn transform_errors(s: Seq<TransformConfig>, new: Seq<ComponentKey>) -> Seq<BuildErrorView>
    decreases s.len(),
{
    if s.len() == 0 {
        Seq::<BuildErrorView>::empty()
    } else {
        let rest = transform_errors(s.drop_last(), new);
        let c = s.last();
        if new.contains(c.key) && c.build_error is Some {
            rest.push(BuildErrorView::Transform { key: c.key, message: c.build_error.unwrap()@ })
        } else {
            rest
        }
    }
}

/// Whether `prev` holds a buffer for `k`.
pub open spec fn has_buffer(prev: Seq<(ComponentKey, MemoryBuffer)>, k: ComponentKey) -> bool {
    exists|i: int| 0 <= i < prev.len() && prev[i].0 == k
}

/// Errors of the new sinks, in order: a buffer that holds nothing is refused
/// first (unless a previous buffer is reused), then the sink's own failure.
pub open spec fn sink_errors(
    s: Seq<SinkConfig>,
    new: Seq<ComponentKey>,
    prev: Seq<(ComponentKey, MemoryBuffer)>,
) -> Seq<BuildErrorView>
    decreases s.len(),
{
    if s.len() == 0 {
        Seq::<BuildErrorView>::empty()
    } else {
        let rest = sink_errors(s.drop_last(), new, prev);
        let c = s.last();
        if !new.contains(c.key) {
            rest
        } else if !has_buffer(prev, c.key) && c.buffer.max_events == 0 {
            rest.push(BuildErrorView::SinkBuffer { key: c.key })
        } else if c.build_error is Some {
            rest.push(BuildErrorView::Sink { key: c.key, message: c.build_error.unwrap()@ })
        } else {
            rest
        }
    }
}

fn contains_key(v: &Vec<ComponentKey>, k: ComponentKey) -> (r: bool)
    ensures
        r == v@.contains(k),
{
    let mut i: usize = 0;
    while i < v.len()
        invariant
            i <= v@.len(),
            forall|j: int| 0 <= j < i ==> v@[j] != k,
        decreases v@.len() - i,
    {
        if v[i] == k {
            assert(v@[i as int] == k);
            return true;
        }
        i = i + 1;
    }
    false
}

fn find_buffer(prev: &Vec<(ComponentKey, MemoryBuffer)>, k: ComponentKey) -> (r: Option<usize>)
    ensures
        r is None ==> !has_buffer(prev@, k),
        r matches Some(i) ==> (i < prev@.len() && prev@[i as int].0 == k),
{
    let mut i: usize = 0;
    while i < prev.len()
        invariant
            i <= prev@.len(),
            forall|j: int| 0 <= j < i ==> prev@[j].0 != k,
        decreases prev@.len() - i,
    {
        if prev[i].0 == k {
            return Some(i);
        }
        i = i + 1;
    }
    None
}

fn collect_source_errors(s: &Vec<SourceConfig>, new: &Vec<ComponentKey>, errors: &mut Vec<BuildError>)
    ensures
        errors_of(final(errors)@) == errors_of(old(errors)@) + source_errors(s@, new@),
{
    let ghost e0 = errors_of(errors@);
    let mut i: usize = 0;
    while i < s.len()
        invariant
            i <= s@.len(),
            errors_of(errors@) == e0 + source_errors(s@.take(i as int), new@),
        decreases s@.len() - i,
    {
        let c = &s[i];
        assert(s@.take(i as int + 1).drop_last() == s@.take(i as int));
        let ghost before = errors@;
        if contains_key(new, c.key) {
            match &c.build_error {
                Some(m) => {
                    errors.push(BuildError::Source { key: c.key, message: m.clone() });
                    assert(errors_of(errors@) =~= errors_of(before).push(errors@.last()@));
                },
                None => {},
            }
        }
        i = i + 1;
    }
    assert(s@.take(s@.len() as int) == s@);
}

fn collect_transform_errors(s: &Vec<TransformConfig>, new: &Vec<ComponentKey>, errors: &mut Vec<BuildError>)
    ensures
        errors_of(final(errors)@) == errors_of(old(errors)@) + transform_errors(s@, new@),
{
    let ghost e0 = errors_of(errors@);
    let mut i: usize = 0;
    while i < s.len()
        invariant
            i <= s@.len(),
            errors_of(errors@) == e0 + transform_errors(s@.take(i as int), new@),
        decreases s@.len() - i,
    {
        let c = &s[i];
        assert(s@.take(i as int + 1).drop_last() == s@.take(i as int));
        let ghost before = errors@;
        if contains_key(new, c.key) {
            match &c.build_error {
                Some(m) => {
                    errors.push(BuildError::Transform { key: c.key, message: m.clone() });
                    assert(errors_of(errors@) =~= errors_of(before).push(errors@.last()@));
                },
                None => {},
            }
        }
        i = i + 1;
    }
    assert(s@.take(s@.len() as int) == s@);
}

fn collect_sink_errors(
    s: &Vec<SinkConfig>,
    new: &Vec<ComponentKey>,
    prev: &Vec<(ComponentKey, MemoryBuffer)>,
    errors: &mut Vec<BuildError>,
)
    ensures
        errors_of(final(errors)@) == errors_of(old(errors)@) + sink_errors(s@, new@, prev@),
{
    let ghost e0 = errors_of(errors@);
    let mut i: usize = 0;
    while i < s.len()
        invariant
            i <= s@.len(),
            errors_of(errors@) == e0 + sink_errors(s@.take(i as int), new@, prev@),
        decreases s@.len() - i,
    {
        let c = &s[i];
        assert(s@.take(i as int + 1).drop_last() == s@.take(i as int));
        let ghost before = errors@;
        if contains_key(new, c.key) {
            let reused = match find_buffer(prev, c.key) {
                Some(_) => true,
                None => false,
            };
            if !reused && c.buffer.max_events == 0 {
                errors.push(BuildError::SinkBuffer { key: c.key });
                assert(errors_of(errors@) =~= errors_of(before).push(errors@.last()@));
            } else {
                match &c.build_error {
                    Some(m) => {
                        errors.push(BuildError::Sink { key: c.key, message: m.clone() });
                        assert(errors_of(errors@) =~= errors_of(before).push(errors@.last()@));
                    },
                    None => {},
                }
            }
        }
        i = i + 1;
    }
    assert(s@.take(s@.len() as int) == s@);
}

/// The indexes that a reload of table `name` must carry over.
pub open spec fn prior_indexes(tables: Seq<TableView>, name: Seq<char>) -> Seq<IndexView> {
    spec_index_fields(tables, name)
}

/// The table that reloading `c` yields, if any.
pub open spec fn reloaded(tables: Seq<TableView>, c: TableConfig) -> Option<TableView> {
    if !spec_needs_reload(tables, c.name@, c.definition) {
        None
    } else {
        match c.source {
            Err(_) => None,
            Ok(cols) => if all_fit(names_of(cols@), prior_indexes(tables, c.name@)) {
                Some(TableView {
                    name: c.name@,
                    definition: c.definition,
                    columns: names_of(cols@),
                    indexes: prior_indexes(tables, c.name@),
                })
            } else {
                None
            },
        }
    }
}

/// The tables a reload builds, in configuration order.
pub open spec fn ready_tables(tables: Seq<TableView>, cfgs: Seq<TableConfig>) -> Seq<TableView>
    decreases cfgs.len(),
{
    if cfgs.len() == 0 {
        Seq::<TableView>::empty()
    } else {
        let rest = ready_tables(tables, cfgs.drop_last());
        match reloaded(tables, cfgs.last()) {
            Some(t) => rest.push(t),
            None => rest,
        }
    }
}

/// The errors a reload reports: the tables whose data could not be read.
pub open spec fn table_errors(tables: Seq<TableView>, cfgs: Seq<TableConfig>) -> Seq<BuildErrorView>
    decreases cfgs.len(),
{
    if cfgs.len() == 0 {
        Seq::<BuildErrorView>::empty()
    } else {
        let rest = table_errors(tables, cfgs.drop_last());
        let c = cfgs.last();
        if spec_needs_reload(tables, c.name@, c.definition) && c.source is Err {
            rest.push(BuildErrorView::EnrichmentTable { name: c.name@, message: c.source->Err_0@ })
        } else {
            rest
        }
    }
}

/// Reloads every configured table that needs it, keeping the previous table
/// wherever a prior index does not fit the new data, and swaps the results in.
/// Returns the tables whose data could not be read.
pub fn load_enrichment_tables(registry: &mut TableRegistry, config: &Config) -> (r: Vec<BuildError>)
    requires
        old(registry).wf(),
    ensures
        final(registry).wf(),
        errors_of(r@) == table_errors(old(registry)@.tables, config.enrichment_tables@),
        final(registry)@.tables == spec_load(old(registry)@.tables,
            ready_tables(old(registry)@.tables, config.enrichment_tables@)),
        !final(registry)@.readonly,
{
    let ghost t0 = registry@.tables;
    let cfgs = &config.enrichment_tables;
    let mut ready: Vec<crate::enrichment::Table> = Vec::new();
    let mut errors: Vec<BuildError> = Vec::new();
    let mut i: usize = 0;
    while i < cfgs.len()
        invariant
            registry.wf(),
            registry@.tables == t0,
            i <= cfgs@.len(),
            ready@.map_values(|t: crate::enrichment::Table| t@) == ready_tables(t0, cfgs@.take(i as int)),
            errors_of(errors@) == table_errors(t0, cfgs@.take(i as int)),
        decreases cfgs@.len() - i,
    {
        let c = &cfgs[i];
        assert(cfgs@.take(i as int + 1).drop_last() == cfgs@.take(i as int));
        let ghost rv = ready@;
        let ghost ev = errors@;
        match registry.reload_table(c) {
            Reload::Ready(t) => {
                ready.push(t);
                assert(ready@.map_values(|t: crate::enrichment::Table| t@)
                    =~= rv.map_values(|t: crate::enrichment::Table| t@).push(ready@.last()@));
            },
            Reload::Failed(e) => {
                errors.push(BuildError::EnrichmentTable { name: c.name.clone(), message: e });
                assert(errors_of(errors@) =~= errors_of(ev).push(errors@.last()@));
            },
            _ => {},
        }
        i = i + 1;
    }
    assert(cfgs@.take(cfgs@.len() as int) == cfgs@);
    registry.load(ready);
    errors
}

proof fn lemma_load_members(s: Seq<TableView>, n: Seq<TableView>)
    ensures
        forall|i: int| 0 <= i < spec_load(s, n).len() ==> s.contains(#[trigger] spec_load(s, n)[i])
            || n.contains(spec_load(s, n)[i]),
    decreases n.len(),
{
    if n.len() > 0 {
        lemma_load_members(s, n.drop_last());
        let prev = spec_load(s, n.drop_last());
        let r = spec_load(s, n);
        assert forall|i: int| 0 <= i < r.len() implies s.contains(#[trigger] r[i]) || n.contains(r[i]) by {
            if r[i] != n.last() {
                assert(prev.contains(r[i]));
                let j = choose|j: int| 0 <= j < prev.len() && prev[j] == r[i];
                if n.drop_last().contains(r[i]) {
                    let k = choose|k: int| 0 <= k < n.drop_last().len() && n.drop_last()[k] == r[i];
                    assert(n[k] == r[i]);
                }
            } else {
                assert(n[n.len() - 1] == r[i]);
            }
        }
    }
}

proof fn lemma_ready_members(tables: Seq<TableView>, cfgs: Seq<TableConfig>)
    ensures
        forall|i: int| 0 <= i < ready_tables(tables, cfgs).len() ==> ({
            let t = #[trigger] ready_tables(tables, cfgs)[i];
            &&& t.indexes == prior_indexes(tables, t.name)
            &&& all_fit(t.columns, t.indexes)
        }),
    decreases cfgs.len(),
{
    if cfgs.len() > 0 {
        lemma_ready_members(tables, cfgs.drop_last());
        let rest = ready_tables(tables, cfgs.drop_last());
        let r = ready_tables(tables, cfgs);
        assert forall|i: int| 0 <= i < r.len() implies ({
            let t = #[trigger] r[i];
            &&& t.indexes == prior_indexes(tables, t.name)
            &&& all_fit(t.columns, t.indexes)
        }) by {
            if i < rest.len() {
                assert(r[i] == rest[i]);
            }
        }
    }
}

/// A reload never exposes a partly indexed table: after it, every table is
/// either one that was there before, untouched, or a rebuilt one that carries
/// every index its predecessor had (none when no table of its name was
/// loaded), each fitting its columns.
pub proof fn lemma_reload_atomic(tables: Seq<TableView>, cfgs: Seq<TableConfig>)
    ensures
        forall|i: int| 0 <= i < spec_load(tables, ready_tables(tables, cfgs)).len() ==> ({
            let t = #[trigger] spec_load(tables, ready_tables(tables, cfgs))[i];
            tables.contains(t) || (t.indexes == prior_indexes(tables, t.name) && all_fit(t.columns, t.indexes))
        }),
{
    let n = ready_tables(tables, cfgs);
    lemma_load_members(tables, n);
    lemma_ready_members(tables, cfgs);
    assert forall|i: int| 0 <= i < spec_load(tables, n).len() implies ({
        let t = #[trigger] spec_load(tables, n)[i];
        tables.contains(t) || (t.indexes == prior_indexes(tables, t.name) && all_fit(t.columns, t.indexes))
    }) by {
        let t = spec_load(tables, n)[i];
        if !tables.contains(t) {
            let k = choose|k: int| 0 <= k < n.len() && n[k] == t;
            assert(n[k] == t);
        }
    }
}

/// Mathematical value of an input piece.
pub struct InputView {
    pub key: ComponentKey,
    pub upstream: Seq<OutputIdView>,
    pub buffer: BufferView,
}

pub open spec fn input_views(v: Seq<InputPiece>) -> Seq<InputView> {
    v.map_values(|x: InputPiece| InputView { key: x.key, upstream: ids_of(x.upstream@), buffer: x.buffer@ })
}

pub open spec fn output_views(v: Seq<OutputPiece>) -> Seq<(ComponentKey, Seq<OutputIdView>)> {
    v.map_values(|x: OutputPiece| (x.key, ids_of(x.ports@)))
}

pub open spec fn task_keys(v: Seq<TaskPiece>) -> Seq<ComponentKey> {
    v.map_values(|x: TaskPiece| x.key)
}

pub open spec fn healthcheck_views(v: Seq<HealthcheckPiece>) -> Seq<(ComponentKey, bool)> {
    v.map_values(|x: HealthcheckPiece| (x.key, x.enabled))
}

/// An empty buffer built from a configuration.
pub open spec fn fresh_buffer(max_events: nat, when_full: WhenFull) -> BufferView {
    BufferView { entries: Seq::<Event>::empty(), read: 0, max_events, when_full, dropped: 0 }
}

/// Position of the previous buffer of `k`.
pub open spec fn buffer_index(prev: Seq<(ComponentKey, MemoryBuffer)>, k: ComponentKey) -> int {
    choose|i: int| 0 <= i < prev.len() && prev[i].0 == k
}

pub open spec fn buffer_keys_distinct(prev: Seq<(ComponentKey, MemoryBuffer)>) -> bool {
    forall|i: int, j: int| 0 <= i < j < prev.len() ==> (#[trigger] prev[i]).0 != (#[trigger] prev[j]).0
}

/// Output ports of the new sources, in order: the primary port of each.
pub open spec fn source_outputs(s: Seq<SourceConfig>, new: Seq<ComponentKey>) -> Seq<(ComponentKey, Seq<OutputIdView>)>
    decreases s.len(),
{
    if s.len() == 0 {
        Seq::empty()
    } else if new.contains(s.last().key) {
        source_outputs(s.drop_last(), new).push((s.last().key, ports_of(s.last().key, Seq::<Seq<char>>::empty())))
    } else {
        source_outputs(s.drop_last(), new)
    }
}

/// Output ports of the new transforms, in order.
pub open spec fn transform_outputs(s: Seq<TransformConfig>, new: Seq<ComponentKey>) -> Seq<(ComponentKey, Seq<OutputIdView>)>
    decreases s.len(),
{
    if s.len() == 0 {
        Seq::empty()
    } else if new.contains(s.last().key) {
        let c = s.last();
        transform_outputs(s.drop_last(), new).push(
            (c.key, ports_of(c.key, declared_ports(c.kind))))
    } else {
        transform_outputs(s.drop_last(), new)
    }
}

/// Inputs of the new transforms: each gets an empty blocking buffer.
pub open spec fn transform_inputs(s: Seq<TransformConfig>, new: Seq<ComponentKey>) -> Seq<InputView>
    decreases s.len(),
{
    if s.len() == 0 {
        Seq::empty()
    } else if new.contains(s.last().key) {
        let c = s.last();
        transform_inputs(s.drop_last(), new).push(InputView {
            key: c.key,
            upstream: ids_of(c.inputs@),
            buffer: fresh_buffer(TRANSFORM_BUFFER_EVENTS as nat, WhenFull::Block),
        })
    } else {
        transform_inputs(s.drop_last(), new)
    }
}

/// Inputs of the new sinks: a previous buffer of the same key is kept as it
/// is, else an empty one is built from the configuration.
pub open spec fn sink_inputs(s: Seq<SinkConfig>, new: Seq<ComponentKey>, prev: Seq<(ComponentKey, MemoryBuffer)>) -> Seq<InputView>
    decreases s.len(),
{
    if s.len() == 0 {
        Seq::empty()
    } else if new.contains(s.last().key) {
        let c = s.last();
        sink_inputs(s.drop_last(), new, prev).push(InputView {
            key: c.key,
            upstream: ids_of(c.inputs@),
            buffer: if has_buffer(prev, c.key) {
                prev[buffer_index(prev, c.key)].1@
            } else {
                fresh_buffer(c.buffer.max_events as nat, c.buffer.when_full)
            },
        })
    } else {
        sink_inputs(s.drop_last(), new, prev)
    }
}

/// Healthchecks of the new sinks: enabled when enabled globally and for the sink.
pub open spec fn sink_healthchecks(s: Seq<SinkConfig>, new: Seq<ComponentKey>, global: bool) -> Seq<(ComponentKey, bool)>
    decreases s.len(),
{
    if s.len() == 0 {
        Seq::empty()
    } else if new.contains(s.last().key) {
        sink_healthchecks(s.drop_last(), new, global).push((s.last().key, s.last().healthcheck_enabled && global))
    } else {
        sink_healthchecks(s.drop_last(), new, global)
    }
}

pub open spec fn running(keys: Seq<ComponentKey>) -> Seq<SourceEntry> {
    keys.map_values(|k: ComponentKey| SourceEntry { key: k, state: SourceState::Running })
}

/// Every error a build of `config` against `diff` reports, in build order.
pub open spec fn build_errors(
    tables: Seq<TableView>,
    config: &Config,
    diff: &ConfigDiff,
    prev: Seq<(ComponentKey, MemoryBuffer)>,
) -> Seq<BuildErrorView> {
    table_errors(tables, config.enrichment_tables@) + source_errors(config.sources@, diff.sources@)
        + transform_errors(config.transforms@, diff.transforms@) + sink_errors(config.sinks@, diff.sinks@, prev)
}

/// The pieces a successful build hands over.
pub open spec fn pieces_match(p: &Pieces, config: &Config, diff: &ConfigDiff, prev: Seq<(ComponentKey, MemoryBuffer)>) -> bool {
    let ns = new_keys(source_keys(config.sources@), diff.sources@);
    let nt = new_keys(transform_keys(config.transforms@), diff.transforms@);
    let nk = new_keys(sink_keys(config.sinks@), diff.sinks@);
    &&& input_views(p.inputs@) == transform_inputs(config.transforms@, diff.transforms@)
        + sink_inputs(config.sinks@, diff.sinks@, prev)
    &&& output_views(p.outputs@) == source_outputs(config.sources@, diff.sources@)
        + transform_outputs(config.transforms@, diff.transforms@)
    &&& task_keys(p.tasks@) == ns + nt + nk
    &&& p.source_tasks@ == ns
    &&& healthcheck_views(p.healthchecks@) == sink_healthchecks(config.sinks@, diff.sinks@, config.healthchecks_enabled)
    &&& p.shutdown_coordinator.wf()
    &&& p.shutdown_coordinator@ == running(ns)
    &&& p.detach_triggers@ == nk
}

proof fn lemma_new_keys_from(keys: Seq<ComponentKey>, new: Seq<ComponentKey>)
    ensures
        forall|i: int| 0 <= i < new_keys(keys, new).len() ==> keys.contains(#[trigger] new_keys(keys, new)[i]),
    decreases keys.len(),
{
    if keys.len() > 0 {
        lemma_new_keys_from(keys.drop_last(), new);
        let r = new_keys(keys, new);
        let p = new_keys(keys.drop_last(), new);
        assert forall|i: int| 0 <= i < r.len() implies keys.contains(#[trigger] r[i]) by {
            if i < p.len() {
                assert(r[i] == p[i]);
                let j = choose|j: int| 0 <= j < keys.drop_last().len() && keys.drop_last()[j] == p[i];
                assert(keys[j] == r[i]);
            } else {
                assert(keys[keys.len() - 1] == r[i]);
            }
        }
    }
}

/// In a strictly ordered key list, the key at `i` is not among the new keys of
/// the part before it.
proof fn lemma_fresh_key(keys: Seq<ComponentKey>, new: Seq<ComponentKey>, i: int)
    requires
        strictly_ordered(keys),
        0 <= i < keys.len(),
    ensures
        !new_keys(keys.take(i), new).contains(keys[i]),
{
    lemma_new_keys_from(keys.take(i), new);
    if new_keys(keys.take(i), new).contains(keys[i]) {
        let j = choose|j: int| 0 <= j < new_keys(keys.take(i), new).len() && new_keys(keys.take(i), new)[j] == keys[i];
        assert(keys.take(i).contains(keys[i]));
        let m = choose|m: int| 0 <= m < keys.take(i).len() && keys.take(i)[m] == keys[i];
        assert(crate::event::key_lt(keys[m], keys[i]));
    }
}

proof fn lemma_sink_errors_empty(s: Seq<SinkConfig>, new: Seq<ComponentKey>, prev: Seq<(ComponentKey, MemoryBuffer)>)
    requires
        sink_errors(s, new, prev).len() == 0,
    ensures
        forall|i: int| 0 <= i < s.len() && new.contains(#[trigger] s[i].key) ==>
            has_buffer(prev, s[i].key) || s[i].buffer.max_events > 0,
    decreases s.len(),
{
    if s.len() > 0 {
        lemma_sink_errors_empty(s.drop_last(), new, prev);
        assert forall|i: int| 0 <= i < s.len() && new.contains(#[trigger] s[i].key) implies
            has_buffer(prev, s[i].key) || s[i].buffer.max_events > 0 by {
            if i < s.len() - 1 {
                assert(s.drop_last()[i] == s[i]);
            }
        }
    }
}

proof fn lemma_transform_input_keys(s: Seq<TransformConfig>, new: Seq<ComponentKey>)
    ensures
        forall|i: int| 0 <= i < transform_inputs(s, new).len() ==> transform_keys(s).contains(
            #[trigger] transform_inputs(s, new)[i].key),
    decreases s.len(),
{
    if s.len() > 0 {
        lemma_transform_input_keys(s.drop_last(), new);
        let r = transform_inputs(s, new);
        let p = transform_inputs(s.drop_last(), new);
        assert forall|i: int| 0 <= i < r.len() implies transform_keys(s).contains(#[trigger] r[i].key) by {
            if i < p.len() {
                assert(r[i] == p[i]);
                let j = choose|j: int| 0 <= j < transform_keys(s.drop_last()).len()
                    && transform_keys(s.drop_last())[j] == p[i].key;
                assert(transform_keys(s)[j] == r[i].key);
            } else {
                assert(transform_keys(s)[s.len() - 1] == r[i].key);
            }
        }
    }
}

proof fn lemma_sink_input_keys(s: Seq<SinkConfig>, new: Seq<ComponentKey>, prev: Seq<(ComponentKey, MemoryBuffer)>)
    ensures
        forall|i: int| 0 <= i < sink_inputs(s, new, prev).len() ==> sink_keys(s).contains(
            #[trigger] sink_inputs(s, new, prev)[i].key),
    decreases s.len(),
{
    if s.len() > 0 {
        lemma_sink_input_keys(s.drop_last(), new, prev);
        let r = sink_inputs(s, new, prev);
        let p = sink_inputs(s.drop_last(), new, prev);
        assert forall|i: int| 0 <= i < r.len() implies sink_keys(s).contains(#[trigger] r[i].key) by {
            if i < p.len() {
                assert(r[i] == p[i]);
                let j = choose|j: int| 0 <= j < sink_keys(s.drop_last()).len()
                    && sink_keys(s.drop_last())[j] == p[i].key;
                assert(sink_keys(s)[j] == r[i].key);
            } else {
                assert(sink_keys(s)[s.len() - 1] == r[i].key);
            }
        }
    }
}

/// A built piece has one role: no component with an input is also a source
/// with a source task.
pub proof fn lemma_inputs_not_sources(
    p: &Pieces,
    config: &Config,
    diff: &ConfigDiff,
    prev: Seq<(ComponentKey, MemoryBuffer)>,
)
    requires
        config_wf(config),
        pieces_match(p, config, diff, prev),
    ensures
        forall|i: int, j: int| 0 <= i < p.inputs@.len() && 0 <= j < p.source_tasks@.len()
            ==> (#[trigger] p.inputs@[i]).key != #[trigger] p.source_tasks@[j],
{
    let ti = transform_inputs(config.transforms@, diff.transforms@);
    let si = sink_inputs(config.sinks@, diff.sinks@, prev);
    let sk = source_keys(config.sources@);
    lemma_transform_input_keys(config.transforms@, diff.transforms@);
    lemma_sink_input_keys(config.sinks@, diff.sinks@, prev);
    lemma_new_keys_from(sk, diff.sources@);
    assert forall|i: int, j: int| 0 <= i < p.inputs@.len() && 0 <= j < p.source_tasks@.len()
        implies (#[trigger] p.inputs@[i]).key != #[trigger] p.source_tasks@[j] by {
        assert(input_views(p.inputs@).len() == p.inputs@.len());
        assert(input_views(p.inputs@)[i].key == p.inputs@[i].key);
        assert((ti + si).len() == ti.len() + si.len());
        assert(input_views(p.inputs@)[i] == (ti + si)[i]);
        assert(sk.contains(new_keys(sk, diff.sources@)[j]));
        let a = choose|a: int| 0 <= a < sk.len() && sk[a] == p.source_tasks@[j];
        if i < ti.len() {
            assert((ti + si)[i] == ti[i]);
            let b = choose|b: int| 0 <= b < transform_keys(config.transforms@).len()
                && transform_keys(config.transforms@)[b] == ti[i].key;
            assert(sk[a] != transform_keys(config.transforms@)[b]);
        } else {
            assert((ti + si)[i] == si[i - ti.len()]);
            let b = choose|b: int| 0 <= b < sink_keys(config.sinks@).len()
                && sink_keys(config.sinks@)[b] == si[i - ti.len()].key;
            assert(sk[a] != sink_keys(config.sinks@)[b]);
        }
    }
}

fn copy_ids(v: &Vec<OutputId>) -> (r: Vec<OutputId>)
    ensures
        ids_of(r@) == ids_of(v@),
{
    let mut r: Vec<OutputId> = Vec::new();
    let mut i: usize = 0;
    while i < v.len()
        invariant
            i <= v@.len(),
            r@.len() == i,
            forall|j: int| 0 <= j < i ==> (#[trigger] r@[j])@ == v@[j]@,
        decreases v@.len() - i,
    {
        r.push(v[i].duplicate());
        i = i + 1;
    }
    assert(ids_of(r@) =~= ids_of(v@));
    r
}

fn build_sources(
    s: &Vec<SourceConfig>,
    new: &Vec<ComponentKey>,
    outputs: &mut Vec<OutputPiece>,
    tasks: &mut Vec<TaskPiece>,
    source_tasks: &mut Vec<ComponentKey>,
    coordinator: &mut SourceShutdownCoordinator,
)
    requires
        strictly_ordered(source_keys(s@)),
        old(coordinator).wf(),
        old(coordinator)@ == Seq::<SourceEntry>::empty(),
    ensures
        output_views(final(outputs)@) == output_views(old(outputs)@) + source_outputs(s@, new@),
        task_keys(final(tasks)@) == task_keys(old(tasks)@) + new_keys(source_keys(s@), new@),
        final(source_tasks)@ == old(source_tasks)@ + new_keys(source_keys(s@), new@),
        final(coordinator).wf(),
        final(coordinator)@ == running(new_keys(source_keys(s@), new@)),
{
    let ghost o0 = output_views(outputs@);
    let ghost t0 = task_keys(tasks@);
    let ghost st0 = source_tasks@;
    let ghost keys = source_keys(s@);
    let mut i: usize = 0;
    while i < s.len()
        invariant
            i <= s@.len(),
            keys == source_keys(s@),
            strictly_ordered(keys),
            output_views(outputs@) == o0 + source_outputs(s@.take(i as int), new@),
            task_keys(tasks@) == t0 + new_keys(keys.take(i as int), new@),
            source_tasks@ == st0 + new_keys(keys.take(i as int), new@),
            coordinator.wf(),
            coordinator@ == running(new_keys(keys.take(i as int), new@)),
        decreases s@.len() - i,
    {
        let key = s[i].key;
        let ghost nk = new_keys(keys.take(i as int), new@);
        assert(s@.take(i as int + 1).drop_last() == s@.take(i as int));
        assert(keys.take(i as int + 1).drop_last() == keys.take(i as int));
        assert(keys.take(i as int + 1).last() == key);
        if contains_key(new, key) {
            proof {
                lemma_fresh_key(keys, new@, i as int);
                if registered(coordinator@, key) {
                    let j = choose|j: int| 0 <= j < coordinator@.len() && coordinator@[j].key == key;
                    assert(nk[j] == key);
                }
            }
            let ghost ov = outputs@;
            let ghost tv = tasks@;
            let ghost cv = coordinator@;
            let mut ports: Vec<OutputId> = Vec::new();
            ports.push(OutputId { component: key, port: None });
            assert(ids_of(ports@) =~= ports_of(key, Seq::<Seq<char>>::empty()));
            outputs.push(OutputPiece { key, ports });
            assert(output_views(outputs@) =~= output_views(ov).push((key, ports_of(key, Seq::<Seq<char>>::empty()))));
            let channel = MemoryBuffer::new(SOURCE_QUEUE_DEPTH, WhenFull::Block);
            tasks.push(TaskPiece { key, task: Task::SourcePump { channel, output: Fanout::new() } });
            assert(task_keys(tasks@) =~= task_keys(tv).push(key));
            source_tasks.push(key);
            coordinator.register_source(key);
            assert(running(nk.push(key)) =~= running(nk).push(SourceEntry { key, state: SourceState::Running }));
        }
        i = i + 1;
    }
    assert(s@.take(s@.len() as int) == s@);
    assert(keys.take(s@.len() as int) == keys);
}

fn build_transforms(
    s: &Vec<TransformConfig>,
    new: &Vec<ComponentKey>,
    inputs: &mut Vec<InputPiece>,
    outputs: &mut Vec<OutputPiece>,
    tasks: &mut Vec<TaskPiece>,
)
    ensures
        input_views(final(inputs)@) == input_views(old(inputs)@) + transform_inputs(s@, new@),
        output_views(final(outputs)@) == output_views(old(outputs)@) + transform_outputs(s@, new@),
        task_keys(final(tasks)@) == task_keys(old(tasks)@) + new_keys(transform_keys(s@), new@),
        forall|j: int| 0 <= j < old(inputs)@.len() ==> (#[trigger] final(inputs)@[j]) == old(inputs)@[j],
        forall|j: int| old(inputs)@.len() <= j < final(inputs)@.len() ==> (#[trigger] final(inputs)@[j]).buffer.wf(),
{
    let ghost i0 = input_views(inputs@);
    let ghost in0 = inputs@;
    let ghost o0 = output_views(outputs@);
    let ghost t0 = task_keys(tasks@);
    let ghost keys = transform_keys(s@);
    let mut i: usize = 0;
    while i < s.len()
        invariant
            i <= s@.len(),
            keys == transform_keys(s@),
            input_views(inputs@) == i0 + transform_inputs(s@.take(i as int), new@),
            output_views(outputs@) == o0 + transform_outputs(s@.take(i as int), new@),
            task_keys(tasks@) == t0 + new_keys(keys.take(i as int), new@),
            i0 == input_views(in0),
            inputs@.len() >= in0.len(),
            forall|j: int| 0 <= j < in0.len() ==> (#[trigger] inputs@[j]) == in0[j],
            forall|j: int| in0.len() <= j < inputs@.len() ==> (#[trigger] inputs@[j]).buffer.wf(),
        decreases s@.len() - i,
    {
        let c = &s[i];
        assert(s@.take(i as int + 1).drop_last() == s@.take(i as int));
        assert(keys.take(i as int + 1).drop_last() == keys.take(i as int));
        assert(keys.take(i as int + 1).last() == c.key);
        if contains_key(new, c.key) {
            let node = TransformNode {
                key: c.key,
                inputs: copy_ids(&c.inputs),
                input_type: c.input_type,
                kind: c.kind,
            };
            let (runner, ports) = build_transform(&node);
            let ghost iv = inputs@;
            let ghost ov = outputs@;
            let ghost tv = tasks@;
            let buffer = MemoryBuffer::new(TRANSFORM_BUFFER_EVENTS, WhenFull::Block);
            inputs.push(InputPiece { key: c.key, buffer, upstream: node.inputs });
            assert(input_views(inputs@) =~= input_views(iv).push(InputView {
                key: c.key,
                upstream: ids_of(c.inputs@),
                buffer: fresh_buffer(TRANSFORM_BUFFER_EVENTS as nat, WhenFull::Block),
            }));
            outputs.push(OutputPiece { key: c.key, ports });
            assert(output_views(outputs@) =~= output_views(ov).push(
                (c.key, ports_of(c.key, declared_ports(c.kind)))));
            tasks.push(TaskPiece { key: c.key, task: Task::Transform { runner } });
            assert(task_keys(tasks@) =~= task_keys(tv).push(c.key));
        }
        i = i + 1;
    }
    assert(s@.take(s@.len() as int) == s@);
    assert(keys.take(s@.len() as int) == keys);
}

fn build_sinks(
    s: &Vec<SinkConfig>,
    new: &Vec<ComponentKey>,
    prev: &mut Vec<(ComponentKey, MemoryBuffer)>,
    global_healthchecks: bool,
    inputs: &mut Vec<InputPiece>,
    tasks: &mut Vec<TaskPiece>,
    healthchecks: &mut Vec<HealthcheckPiece>,
    detach_triggers: &mut Vec<ComponentKey>,
)
    requires
        strictly_ordered(sink_keys(s@)),
        buffer_keys_distinct(old(prev)@),
        forall|j: int| 0 <= j < old(prev)@.len() ==> (#[trigger] old(prev)@[j]).1.wf(),
        forall|i: int| 0 <= i < s@.len() && new@.contains(#[trigger] s@[i].key) ==>
            has_buffer(old(prev)@, s@[i].key) || s@[i].buffer.max_events > 0,
    ensures
        input_views(final(inputs)@) == input_views(old(inputs)@) + sink_inputs(s@, new@, old(prev)@),
        task_keys(final(tasks)@) == task_keys(old(tasks)@) + new_keys(sink_keys(s@), new@),
        healthcheck_views(final(healthchecks)@) == healthcheck_views(old(healthchecks)@)
            + sink_healthchecks(s@, new@, global_healthchecks),
        final(detach_triggers)@ == old(detach_triggers)@ + new_keys(sink_keys(s@), new@),
{
    let ghost prev0 = prev@;
    let ghost i0 = input_views(inputs@);
    let ghost t0 = task_keys(tasks@);
    let ghost h0 = healthcheck_views(healthchecks@);
    let ghost d0 = detach_triggers@;
    let ghost keys = sink_keys(s@);
    let mut i: usize = 0;
    while i < s.len()
        invariant
            i <= s@.len(),
            keys == sink_keys(s@),
            strictly_ordered(keys),
            buffer_keys_distinct(prev0),
            forall|j: int| 0 <= j < prev0.len() ==> (#[trigger] prev0[j]).1.wf(),
            forall|m: int| 0 <= m < s@.len() && new@.contains(#[trigger] s@[m].key) ==>
                has_buffer(prev0, s@[m].key) || s@[m].buffer.max_events > 0,
            prev@.len() == prev0.len(),
            forall|j: int| 0 <= j < prev0.len() ==> (#[trigger] prev@[j]).0 == prev0[j].0,
            forall|j: int| 0 <= j < prev0.len() && !new_keys(keys.take(i as int), new@).contains(prev0[j].0)
                ==> #[trigger] prev@[j] == prev0[j],
            input_views(inputs@) == i0 + sink_inputs(s@.take(i as int), new@, prev0),
            task_keys(tasks@) == t0 + new_keys(keys.take(i as int), new@),
            healthcheck_views(healthchecks@) == h0 + sink_healthchecks(s@.take(i as int), new@, global_healthchecks),
            detach_triggers@ == d0 + new_keys(keys.take(i as int), new@),
        decreases s@.len() - i,
    {
        let c = &s[i];
        let key = c.key;
        let ghost nk = new_keys(keys.take(i as int), new@);
        assert(s@.take(i as int + 1).drop_last() == s@.take(i as int));
        assert(keys.take(i as int + 1).drop_last() == keys.take(i as int));
        assert(keys.take(i as int + 1).last() == key);
        if contains_key(new, key) {
            proof {
                lemma_fresh_key(keys, new@, i as int);
                assert(s@[i as int].key == key);
            }
            let buffer = match find_buffer(prev, key) {
                Some(j) => {
                    proof {
                        assert(prev@[j as int].0 == prev0[j as int].0);
                        assert(has_buffer(prev0, key));
                        let m = buffer_index(prev0, key);
                        if m != j as int {
                            if m < j as int {
                                assert(prev0[m].0 != prev0[j as int].0);
                            } else {
                                assert(prev0[j as int].0 != prev0[m].0);
                            }
                        }
                        assert(prev@[j as int] == prev0[j as int]);
                    }
                    let ghost pv = prev@;
                    let mut b = MemoryBuffer::new(1, WhenFull::Block);
                    std::mem::swap(&mut prev[j].1, &mut b);
                    assert forall|q: int| 0 <= q < prev0.len() && !new_keys(keys.take(i as int + 1), new@).contains(prev0[q].0)
                        implies #[trigger] prev@[q] == prev0[q] by {
                        if q == j as int {
                            assert(new_keys(keys.take(i as int + 1), new@) == nk.push(key));
                            assert(nk.push(key)[nk.len() as int] == key);
                        } else {
                            assert(prev@[q] == pv[q]);
                            assert(new_keys(keys.take(i as int + 1), new@) == nk.push(key));
                            if nk.contains(prev0[q].0) {
                                let w = choose|w: int| 0 <= w < nk.len() && nk[w] == prev0[q].0;
                                assert(nk.push(key)[w] == prev0[q].0);
                            }
                        }
                    }
                    b
                },
                None => {
                    proof {
                        if has_buffer(prev0, key) {
                            let m = choose|m: int| 0 <= m < prev0.len() && prev0[m].0 == key;
                            assert(prev@[m].0 == key);
                        }
                        assert forall|q: int| 0 <= q < prev0.len() && !new_keys(keys.take(i as int + 1), new@).contains(prev0[q].0)
                            implies #[trigger] prev@[q] == prev0[q] by {
                            assert(new_keys(keys.take(i as int + 1), new@) == nk.push(key));
                            if nk.contains(prev0[q].0) {
                                let w = choose|w: int| 0 <= w < nk.len() && nk[w] == prev0[q].0;
                                assert(nk.push(key)[w] == prev0[q].0);
                            }
                        }
                    }
                    MemoryBuffer::new(c.buffer.max_events, c.buffer.when_full)
                },
            };
            let ghost iv = inputs@;
            let ghost tv = tasks@;
            let ghost hv = healthchecks@;
            let upstream = copy_ids(&c.inputs);
            inputs.push(InputPiece { key, buffer, upstream });
            assert(input_views(inputs@) =~= input_views(iv).push(InputView {
                key,
                upstream: ids_of(c.inputs@),
                buffer: if has_buffer(prev0, key) {
                    prev0[buffer_index(prev0, key)].1@
                } else {
                    fresh_buffer(c.buffer.max_events as nat, c.buffer.when_full)
                },
            }));
            tasks.push(TaskPiece { key, task: Task::Sink { input_type: c.input_type } });
            assert(task_keys(tasks@) =~= task_keys(tv).push(key));
            healthchecks.push(HealthcheckPiece { key, enabled: c.healthcheck_enabled && global_healthchecks });
            assert(healthcheck_views(healthchecks@) =~= healthcheck_views(hv).push(
                (key, c.healthcheck_enabled && global_healthchecks)));
            detach_triggers.push(key);
        } else {
            assert(new_keys(keys.take(i as int + 1), new@) == nk);
        }
        i = i + 1;
    }
    assert(s@.take(s@.len() as int) == s@);
    assert(keys.take(s@.len() as int) == keys);
}

/// Builds the pieces of every component that is new in `diff`. Enrichment tables
/// are reloaded first and the registry is read-only afterwards. Every component
/// is tried and every failure reported, in build order; the pieces are handed
/// over only when there is none. A new sink whose key has a buffer in `buffers`
/// takes that buffer as it is. On failure `buffers` is left as it was, so that
/// a later build can reuse it; on success what was not reused is dropped.
pub fn build_pieces(
    config: &Config,
    diff: &ConfigDiff,
    buffers: &mut Vec<(ComponentKey, MemoryBuffer)>,
    registry: &mut TableRegistry,
) -> (r: Result<Pieces, Vec<BuildError>>)
    requires
        config_wf(config),
        old(registry).wf(),
        buffer_keys_distinct(old(buffers)@),
        forall|j: int| 0 <= j < old(buffers)@.len() ==> (#[trigger] old(buffers)@[j]).1.wf(),
    ensures
        final(registry).wf(),
        final(registry)@.readonly,
        final(registry)@.tables == spec_load(old(registry)@.tables,
            ready_tables(old(registry)@.tables, config.enrichment_tables@)),
        build_outcome(&r, old(registry)@.tables, config, diff, old(buffers)@),
        r is Err ==> final(buffers)@ == old(buffers)@,
        r is Ok ==> final(buffers)@.len() == 0,
{
    let ghost tables0 = registry@.tables;
    let ghost prev = buffers@;
    let mut errors = load_enrichment_tables(registry, config);
    collect_source_errors(&config.sources, &diff.sources, &mut errors);
    collect_transform_errors(&config.transforms, &diff.transforms, &mut errors);
    collect_sink_errors(&config.sinks, &diff.sinks, buffers, &mut errors);
    // All data for the enrichment tables is loaded: they become read-only.
    registry.finish_load();
    assert(errors_of(errors@) =~= build_errors(tables0, config, diff, prev));
    if errors.len() > 0 {
        return Err(errors);
    }
    proof {
        assert(sink_errors(config.sinks@, diff.sinks@, prev).len() == 0);
        lemma_sink_errors_empty(config.sinks@, diff.sinks@, prev);
    }
    let mut inputs: Vec<InputPiece> = Vec::new();
    let mut outputs: Vec<OutputPiece> = Vec::new();
    let mut tasks: Vec<TaskPiece> = Vec::new();
    let mut source_tasks: Vec<ComponentKey> = Vec::new();
    let mut healthchecks: Vec<HealthcheckPiece> = Vec::new();
    let mut detach_triggers: Vec<ComponentKey> = Vec::new();
    let mut shutdown_coordinator = SourceShutdownCoordinator::new();
    assert(input_views(inputs@) =~= Seq::<InputView>::empty());
    assert(output_views(outputs@) =~= Seq::<(ComponentKey, Seq<OutputIdView>)>::empty());
    assert(task_keys(tasks@) =~= Seq::<ComponentKey>::empty());
    assert(healthcheck_views(healthchecks@) =~= Seq::<(ComponentKey, bool)>::empty());
    build_sources(&config.sources, &diff.sources, &mut outputs, &mut tasks, &mut source_tasks,
        &mut shutdown_coordinator);
    build_transforms(&config.transforms, &diff.transforms, &mut inputs, &mut outputs, &mut tasks);
    build_sinks(&config.sinks, &diff.sinks, buffers, config.healthchecks_enabled, &mut inputs, &mut tasks,
        &mut healthchecks, &mut detach_triggers);
    buffers.clear();
    let pieces = Pieces {
        inputs,
        outputs,
        tasks,
        source_tasks,
        healthchecks,
        shutdown_coordinator,
        detach_triggers,
    };
    Ok(pieces)
}

/// What a build returns: the errors when there are any, else the pieces.
pub open spec fn build_outcome(
    r: &Result<Pieces, Vec<BuildError>>,
    tables: Seq<TableView>,
    config: &Config,
    diff: &ConfigDiff,
    prev: Seq<(ComponentKey, MemoryBuffer)>,
) -> bool {
    &&& r is Err <==> build_errors(tables, config, diff, prev).len() > 0
    &&& r matches Err(e) ==> errors_of(e@) == build_errors(tables, config, diff, prev)
    &&& r matches Ok(p) ==> pieces_match(&p, config, diff, prev)
}

/// Builds are deterministic: two builds of the same configuration and diff,
/// against the same registry state and previous buffers, report the same errors
/// or hand over pieces with the same keys, ports and buffers in the same order.
pub proof fn lemma_build_deterministic(
    tables: Seq<TableView>,
    config: &Config,
    diff: &ConfigDiff,
    prev: Seq<(ComponentKey, MemoryBuffer)>,
    first: &Result<Pieces, Vec<BuildError>>,
    second: &Result<Pieces, Vec<BuildError>>,
)
    requires
        build_outcome(first, tables, config, diff, prev),
        build_outcome(second, tables, config, diff, prev),
    ensures
        first is Err <==> second is Err,
        first matches Err(first_errors) ==> (second matches Err(second_errors) && errors_of(first_errors@) == errors_of(second_errors@)),
        first matches Ok(first_pieces) ==> (second matches Ok(second_pieces) && {
            &&& input_views(first_pieces.inputs@) == input_views(second_pieces.inputs@)
            &&& output_views(first_pieces.outputs@) == output_views(second_pieces.outputs@)
            &&& task_keys(first_pieces.tasks@) == task_keys(second_pieces.tasks@)
            &&& first_pieces.source_tasks@ == second_pieces.source_tasks@
            &&& healthcheck_views(first_pieces.healthchecks@) == healthcheck_views(second_pieces.healthchecks@)
            &&& first_pieces.detach_triggers@ == second_pieces.detach_triggers@
        }),
{
}

/// A rebuild reuses previous buffers verbatim: a new sink whose key has a
/// previous buffer gets it with its unacknowledged events, read cursor and
/// counters unchanged.
pub proof fn lemma_buffer_reuse(
    sinks: Seq<SinkConfig>,
    new: Seq<ComponentKey>,
    prev: Seq<(ComponentKey, MemoryBuffer)>,
    i: int,
)
    requires
        0 <= i < sink_inputs(sinks, new, prev).len(),
        has_buffer(prev, sink_inputs(sinks, new, prev)[i].key),
    ensures
        sink_inputs(sinks, new, prev)[i].buffer
            == prev[buffer_index(prev, sink_inputs(sinks, new, prev)[i].key)].1@,
    decreases sinks.len(),
{
    if sinks.len() > 0 {
        let rest = sink_inputs(sinks.drop_last(), new, prev);
        if i < rest.len() {
            lemma_buffer_reuse(sinks.drop_last(), new, prev, i);
        }
    }
}

/// One round of a source's pump: sends the unread events of its channel to the
/// fanout, in order, until one is refused, and acknowledges everything it read.
/// Returns how many events went through.
pub fn pump_source(channel: &mut MemoryBuffer, output: &mut Fanout) -> (sent: usize)
    requires
        old(channel).wf(),
        old(output).wf(),
    ensures
        final(channel).wf(),
        final(output).wf(),
        ({
            let v = old(channel)@;
            let unread = v.entries.skip(v.read as int);
            &&& sent == accepted_prefix(old(output)@, unread)
            &&& final(output)@ == spec_send_all(old(output)@, unread.take(sent as int))
            &&& final(channel)@ == (BufferView { entries: v.entries.skip((v.read + sent) as int), read: 0, ..v })
        }),
{
    let ghost v = channel@;
    let mut pending = channel.unread();
    let sent = output.send_prefix(&mut pending);
    let mut n: usize = 0;
    while n < sent
        invariant
            channel.wf(),
            n <= sent,
            v.read + sent <= v.entries.len(),
            channel@ == (BufferView { read: (v.read + n) as nat, ..v }),
        decreases sent - n,
    {
        channel.pop();
        n = n + 1;
    }
    let read = channel.read_count();
    channel.ack(read);
    sent
}

} // verus!
