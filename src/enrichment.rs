//! Catalogue of enrichment tables with an index-preserving reload.
use vstd::prelude::*;
use crate::transform::{clone_names, index_of_name, names_of};

verus! {

/// Whether an index matches field values case-sensitively.
#[derive(Clone, Copy, Debug, PartialEq, Eq, Structural)]
pub enum Case {
    Sensitive,
    Insensitive,
}

/// An index registered on a table: the fields it covers.
pub struct Index {
    pub case: Case,
    pub fields: Vec<String>,
}

pub struct IndexView {
    pub case: Case,
    pub fields: Seq<Seq<char>>,
}

impl View for Index {
    type V = IndexView;

    open spec fn view(&self) -> IndexView {
        IndexView { case: self.case, fields: names_of(self.fields@) }
    }
}

/// A loaded table: its name, the definition it was built from, its columns and
/// its indexes.
pub struct Table {
    pub name: String,
    pub definition: u64,
    pub columns: Vec<String>,
    pub indexes: Vec<Index>,
}

pub struct TableView {
    pub name: Seq<char>,
    pub definition: u64,
    pub columns: Seq<Seq<char>>,
    pub indexes: Seq<IndexView>,
}

pub open spec fn indexes_of(v: Seq<Index>) -> Seq<IndexView> {
    v.map_values(|i: Index| i@)
}

impl View for Table {
    type V = TableView;

    open spec fn view(&self) -> TableView {
        TableView {
            name: self.name@,
            definition: self.definition,
            columns: names_of(self.columns@),
            indexes: indexes_of(self.indexes@),
        }
    }
}

/// A table's configuration: its name, a fingerprint of its definition, and what
/// reading its backing data gave: its columns, or the error met.
pub struct TableConfig {
    pub name: String,
    pub definition: u64,
    pub source: Result<Vec<String>, String>,
}

/// Why an index cannot be added.
#[derive(Clone, Copy, Debug, PartialEq, Eq, Structural)]
pub enum IndexError {
    /// The registry finished loading and is read-only.
    ReadOnly,
    /// No table has that name.
    UnknownTable,
    /// A field is not a column of the table.
    UnknownField,
}

/// Whether index `ix` can stand on a table with `columns`.
pub open spec fn index_fits(columns: Seq<Seq<char>>, ix: IndexView) -> bool {
    forall|j: int| 0 <= j < ix.fields.len() ==> columns.contains(#[trigger] ix.fields[j])
}

pub open spec fn all_fit(columns: Seq<Seq<char>>, ixs: Seq<IndexView>) -> bool {
    forall|j: int| 0 <= j < ixs.len() ==> index_fits(columns, #[trigger] ixs[j])
}

pub struct RegistryView {
    pub tables: Seq<TableView>,
    pub readonly: bool,
}

/// Process-wide catalogue of enrichment tables: loading, then read-only.
pub struct TableRegistry {
    tables: Vec<Table>,
    readonly: bool,
}

impl View for TableRegistry {
    type V = RegistryView;

    closed spec fn view(&self) -> RegistryView {
        RegistryView { tables: self.tables@.map_values(|t: Table| t@), readonly: self.readonly }
    }
}

pub open spec fn has_table(s: Seq<TableView>, name: Seq<char>) -> bool {
    exists|i: int| 0 <= i < s.len() && s[i].name == name
}

pub open spec fn table_index(s: Seq<TableView>, name: Seq<char>) -> int {
    choose|i: int| 0 <= i < s.len() && s[i].name == name
}

pub open spec fn names_distinct(s: Seq<TableView>) -> bool {
    forall|i: int, j: int| 0 <= i < j < s.len() ==> (#[trigger] s[i]).name != (#[trigger] s[j]).name
}

/// Whether table `name` must be (re)built: it is absent or was built from
/// another definition.
pub open spec fn spec_needs_reload(s: Seq<TableView>, name: Seq<char>, definition: u64) -> bool {
    !has_table(s, name) || s[table_index(s, name)].definition != definition
}

/// The indexes registered on table `name` (none if absent).
pub open spec fn spec_index_fields(s: Seq<TableView>, name: Seq<char>) -> Seq<IndexView> {
    if has_table(s, name) { s[table_index(s, name)].indexes } else { Seq::<IndexView>::empty() }
}

/// The tables after putting `t` in: it replaces the table of the same name, or
/// comes last.
pub open spec fn spec_put(s: Seq<TableView>, t: TableView) -> Seq<TableView> {
    if has_table(s, t.name) { s.update(table_index(s, t.name), t) } else { s.push(t) }
}

/// The tables after loading `new`, one table after the other.
pub open spec fn spec_load(s: Seq<TableView>, new: Seq<TableView>) -> Seq<TableView>
    decreases new.len(),
{
    if new.len() == 0 { s } else { spec_put(spec_load(s, new.drop_last()), new.last()) }
}

/// What reloading one table gives.
pub enum Reload {
    /// The table is current: nothing to do.
    Skip,
    /// Its data could not be read; the error is reported.
    Failed(String),
    /// A prior index does not fit the new data: the old table stays.
    IndexFailed,
    /// The new table, with every prior index applied.
    Ready(Table),
}

fn copy_index(ix: &Index) -> (r: Index)
    ensures
        r@ == ix@,
{
    Index { case: ix.case, fields: clone_names(&ix.fields) }
}

fn copy_indexes(v: &Vec<Index>) -> (r: Vec<Index>)
    ensures
        indexes_of(r@) == indexes_of(v@),
{
    let mut r: Vec<Index> = Vec::new();
    let mut i: usize = 0;
    while i < v.len()
        invariant
            i <= v@.len(),
            r@.len() == i,
            forall|j: int| 0 <= j < i ==> (#[trigger] r@[j])@ == v@[j]@,
        decreases v@.len() - i,
    {
        r.push(copy_index(&v[i]));
        i = i + 1;
    }
    assert(indexes_of(r@) =~= indexes_of(v@));
    r
}

/// Whether every field of `fields` is one of `columns`.
fn fields_fit(columns: &Vec<String>, fields: &Vec<String>) -> (r: bool)
    ensures
        r == (forall|j: int| 0 <= j < fields@.len() ==> names_of(columns@).contains(#[trigger] fields@[j]@)),
{
    let mut i: usize = 0;
    while i < fields.len()
        invariant
            i <= fields@.len(),
            forall|j: int| 0 <= j < i ==> names_of(columns@).contains(#[trigger] fields@[j]@),
        decreases fields@.len() - i,
    {
        match index_of_name(columns, &fields[i]) {
            None => {
                return false;
            },
            Some(k) => {
                assert(names_of(columns@)[k as int] == fields@[i as int]@);
            },
        }
        i = i + 1;
    }
    true
}

impl Table {
    /// Adds an index over `fields`, which must all be columns of the table.
    pub fn add_index(&mut self, case: Case, fields: &Vec<String>) -> (r: Result<(), IndexError>)
        ensures
            ({
                let ix = IndexView { case, fields: names_of(fields@) };
                if index_fits(old(self)@.columns, ix) {
                    r is Ok && final(self)@ == (TableView { indexes: old(self)@.indexes.push(ix), ..old(self)@ })
                } else {
                    r == Err::<(), IndexError>(IndexError::UnknownField) && final(self)@ == old(self)@
                }
            }),
    {
        let ghost ix = IndexView { case, fields: names_of(fields@) };
        let ok = fields_fit(&self.columns, fields);
        assert(ok == index_fits(self@.columns, ix)) by {
            if ok {
                assert forall|j: int| 0 <= j < ix.fields.len() implies self@.columns.contains(#[trigger] ix.fields[j]) by {
                    assert(ix.fields[j] == fields@[j]@);
                }
            } else {
                let j = choose|j: int| 0 <= j < fields@.len() && !names_of(self.columns@).contains(#[trigger] fields@[j]@);
                assert(ix.fields[j] == fields@[j]@);
            }
        }
        if ok {
            self.indexes.push(Index { case, fields: clone_names(fields) });
            assert(indexes_of(self.indexes@) =~= old(self)@.indexes.push(ix));
            Ok(())
        } else {
            Err(IndexError::UnknownField)
        }
    }
}

impl TableRegistry {
    pub closed spec fn wf(&self) -> bool {
        names_distinct(self@.tables)
    }

    /// An empty registry in its loading phase.
    pub fn new() -> (r: TableRegistry)
        ensures
            r.wf(),
            r@.tables == Seq::<TableView>::empty(),
            !r@.readonly,
    {
        let r = TableRegistry { tables: Vec::new(), readonly: false };
        assert(r@.tables =~= Seq::<TableView>::empty());
        r
    }

    fn find(&self, name: &String) -> (r: Option<usize>)
        requires
            self.wf(),
        ensures
            r is None ==> !has_table(self@.tables, name@),
            r matches Some(i) ==> (i < self@.tables.len() && self@.tables[i as int].name == name@
                && table_index(self@.tables, name@) == i),
    {
        let mut i: usize = 0;
        while i < self.tables.len()
            invariant
                self.wf(),
                i <= self@.tables.len(),
                forall|j: int| 0 <= j < i ==> self@.tables[j].name != name@,
            decreases self@.tables.len() - i,
        {
            if self.tables[i].name == *name {
                proof {
                    let s = self@.tables;
                    assert(s[i as int].name == name@);
                    let k = table_index(s, name@);
                    assert(0 <= k < s.len() && s[k].name == name@);
                    if k > i {
                        assert(s[i as int].name != s[k].name);
                    }
                }
                return Some(i);
            }
            i = i + 1;
        }
        None
    }

    /// The definition table `name` was built from, if it is loaded.
    pub fn definition_of(&self, name: &String) -> (r: Option<u64>)
        requires
            self.wf(),
        ensures
            !has_table(self@.tables, name@) ==> r is None,
            has_table(self@.tables, name@) ==> r == Some(self@.tables[table_index(self@.tables, name@)].definition),
    {
        match self.find(name) {
            None => None,
            Some(i) => Some(self.tables[i].definition),
        }
    }

    /// Whether the registry finished loading.
    pub fn is_readonly(&self) -> (r: bool)
        ensures
            r == self@.readonly,
    {
        self.readonly
    }

    /// Whether table `name` is new or was built from another definition.
    pub fn needs_reload(&self, name: &String, definition: u64) -> (r: bool)
        requires
            self.wf(),
        ensures
            r == spec_needs_reload(self@.tables, name@, definition),
    {
        match self.find(name) {
            None => true,
            Some(i) => self.tables[i].definition != definition,
        }
    }

    /// Copies of the indexes registered on table `name` (none if absent).
    pub fn index_fields(&self, name: &String) -> (r: Vec<Index>)
        requires
            self.wf(),
        ensures
            indexes_of(r@) == spec_index_fields(self@.tables, name@),
    {
        match self.find(name) {
            None => {
                let r: Vec<Index> = Vec::new();
                assert(indexes_of(r@) =~= Seq::<IndexView>::empty());
                r
            },
            Some(i) => copy_indexes(&self.tables[i].indexes),
        }
    }

    /// Adds an index to table `name`; refused once the registry is read-only.
    pub fn add_index(&mut self, name: &String, case: Case, fields: &Vec<String>) -> (r: Result<(), IndexError>)
        requires
            old(self).wf(),
        ensures
            final(self).wf(),
            old(self)@.readonly ==> r == Err::<(), IndexError>(IndexError::ReadOnly) && final(self)@ == old(self)@,
            !old(self)@.readonly && !has_table(old(self)@.tables, name@) ==> r == Err::<(), IndexError>(
                IndexError::UnknownTable) && final(self)@ == old(self)@,
            !old(self)@.readonly && has_table(old(self)@.tables, name@) ==> ({
                let i = table_index(old(self)@.tables, name@);
                let t = old(self)@.tables[i];
                let ix = IndexView { case, fields: names_of(fields@) };
                if index_fits(t.columns, ix) {
                    r is Ok && final(self)@ == (RegistryView {
                        tables: old(self)@.tables.update(i, TableView { indexes: t.indexes.push(ix), ..t }),
                        ..old(self)@
                    })
                } else {
                    r == Err::<(), IndexError>(IndexError::UnknownField) && final(self)@ == old(self)@
                }
            }),
    {
        if self.readonly {
            return Err(IndexError::ReadOnly);
        }
        match self.find(name) {
            None => Err(IndexError::UnknownTable),
            Some(i) => {
                let ghost v0 = self@;
                let ghost t0 = self.tables@[i as int]@;
                assert(t0 == v0.tables[i as int]);
                let r = self.tables[i].add_index(case, fields);
                assert(self@.tables =~= v0.tables.update(i as int, self.tables@[i as int]@));
                assert(self@.tables[i as int].name == v0.tables[i as int].name);
                assert forall|a: int, b: int| 0 <= a < b < self@.tables.len() implies
                    (#[trigger] self@.tables[a]).name != (#[trigger] self@.tables[b]).name by {
                    assert(v0.tables[a].name != v0.tables[b].name);
                }
                proof {
                    let ix = IndexView { case, fields: names_of(fields@) };
                    if index_fits(t0.columns, ix) {
                        assert(self@.tables[i as int] == (TableView { indexes: t0.indexes.push(ix), ..t0 }));
                    } else {
                        assert(self@.tables =~= v0.tables);
                    }
                }
                r
            },
        }
    }

    /// Runs the reload protocol for one configured table, without changing the
    /// registry: skip it when current, report a read error, rebuild it and apply
    /// every index the table it replaces had (none if it is not loaded yet), or
    /// give up on it when one of those indexes does not fit the new data.
    pub fn reload_table(&self, cfg: &TableConfig) -> (r: Reload)
        requires
            self.wf(),
        ensures
            !spec_needs_reload(self@.tables, cfg.name@, cfg.definition) ==> r is Skip,
            spec_needs_reload(self@.tables, cfg.name@, cfg.definition) ==> match cfg.source {
                Err(e) => r == Reload::Failed(e),
                Ok(cols) => {
                    let prior = spec_index_fields(self@.tables, cfg.name@);
                    if all_fit(names_of(cols@), prior) {
                        r matches Reload::Ready(t) && t@ == (TableView {
                            name: cfg.name@,
                            definition: cfg.definition,
                            columns: names_of(cols@),
                            indexes: prior,
                        })
                    } else {
                        r is IndexFailed
                    }
                },
            },
    {
        if !self.needs_reload(&cfg.name, cfg.definition) {
            return Reload::Skip;
        }
        let ghost prior_spec = spec_index_fields(self@.tables, cfg.name@);
        let prior: Vec<Index> = self.index_fields(&cfg.name);
        match &cfg.source {
            Err(e) => Reload::Failed(e.clone()),
            Ok(cols) => {
                let mut table = Table {
                    name: cfg.name.clone(),
                    definition: cfg.definition,
                    columns: clone_names(cols),
                    indexes: Vec::new(),
                };
                assert(indexes_of(table.indexes@) =~= Seq::<IndexView>::empty());
                assert(indexes_of(prior@).take(0) =~= Seq::<IndexView>::empty());
                let mut i: usize = 0;
                while i < prior.len()
                    invariant
                        i <= prior@.len(),
                        spec_needs_reload(self@.tables, cfg.name@, cfg.definition),
                        indexes_of(prior@) == prior_spec,
                        prior_spec == spec_index_fields(self@.tables, cfg.name@),
                        cfg.source == Ok::<Vec<String>, String>(*cols),
                        table@ == (TableView {
                            name: cfg.name@,
                            definition: cfg.definition,
                            columns: names_of(cols@),
                            indexes: indexes_of(prior@).take(i as int),
                        }),
                        all_fit(names_of(cols@), indexes_of(prior@).take(i as int)),
                    decreases prior@.len() - i,
                {
                    let ghost t0 = table@;
                    match table.add_index(prior[i].case, &prior[i].fields) {
                        Ok(()) => {
                            assert(indexes_of(prior@).take(i as int + 1)
                                =~= indexes_of(prior@).take(i as int).push(prior@[i as int]@));
                        },
                        Err(_) => {
                            assert(!index_fits(names_of(cols@), indexes_of(prior@)[i as int]));
                            assert(!all_fit(names_of(cols@), prior_spec));
                            assert(cfg.source matches Ok(c) && c@ == cols@);
                            return Reload::IndexFailed;
                        },
                    }
                    i = i + 1;
                }
                assert(indexes_of(prior@).take(prior@.len() as int) == indexes_of(prior@));
                Reload::Ready(table)
            },
        }
    }

    /// Swaps in `new` tables: each replaces the table of its name, or is added;
    /// every other table stays. Opens a loading phase.
    pub fn load(&mut self, new: Vec<Table>)
        requires
            old(self).wf(),
        ensures
            final(self).wf(),
            final(self)@.tables == spec_load(old(self)@.tables, new@.map_values(|t: Table| t@)),
            !final(self)@.readonly,
    {
        let ghost s0 = self@.tables;
        let ghost nv = new@.map_values(|t: Table| t@);
        let mut new = new;
        let mut rest: Vec<Table> = Vec::new();
        // Take the tables out last first, then put them in first first.
        while new.len() > 0
            invariant
                nv == (new@ + rest@.reverse()).map_values(|t: Table| t@),
            decreases new@.len(),
        {
            let ghost n0 = new@;
            let ghost r0 = rest@;
            let t = new.pop().unwrap();
            rest.push(t);
            assert(new@ + rest@.reverse() =~= n0 + r0.reverse());
        }
        let total = rest.len();
        let ghost all = rest@.reverse();
        assert(nv == all.map_values(|t: Table| t@)) by {
            assert(new@ + rest@.reverse() =~= rest@.reverse());
        }
        let mut k: usize = 0;
        while rest.len() > 0
            invariant
                self.wf(),
                nv == all.map_values(|t: Table| t@),
                all.len() <= usize::MAX,
                k + rest@.len() == all.len(),
                rest@.reverse() == all.skip(k as int),
                self@.tables == spec_load(s0, nv.take(k as int)),
            decreases rest@.len(),
        {
            let ghost r0 = rest@;
            let t = rest.pop().unwrap();
            assert(t == all[k as int]) by {
                assert(r0.reverse()[0] == r0.last());
            }
            assert(rest@.reverse() =~= all.skip(k as int + 1)) by {
                assert forall|j: int| 0 <= j < rest@.len() implies rest@.reverse()[j] == all.skip(k as int + 1)[j] by {
                    assert(r0.reverse()[j + 1] == all.skip(k as int)[j + 1]);
                }
            }
            assert(nv.take(k as int + 1).drop_last() == nv.take(k as int));
            assert(nv.take(k as int + 1).last() == t@);
            self.put(t);
            k = k + 1;
        }
        assert(nv.take(k as int) == nv);
        self.readonly = false;
    }

    fn put(&mut self, t: Table)
        requires
            old(self).wf(),
        ensures
            final(self).wf(),
            final(self)@ == (RegistryView { tables: spec_put(old(self)@.tables, t@), ..old(self)@ }),
    {
        let ghost v0 = self@;
        let ghost tv = t@;
        match self.find(&t.name) {
            Some(i) => {
                self.tables.set(i, t);
                assert(self@.tables =~= v0.tables.update(i as int, tv));
                assert forall|a: int, b: int| 0 <= a < b < self@.tables.len() implies
                    (#[trigger] self@.tables[a]).name != (#[trigger] self@.tables[b]).name by {
                    assert(v0.tables[a].name != v0.tables[b].name);
                }
            },
            None => {
                self.tables.push(t);
                assert(self@.tables =~= v0.tables.push(tv));
                assert forall|a: int, b: int| 0 <= a < b < self@.tables.len() implies
                    (#[trigger] self@.tables[a]).name != (#[trigger] self@.tables[b]).name by {
                    if b < v0.tables.len() {
                        assert(v0.tables[a].name != v0.tables[b].name);
                    } else {
                        assert(v0.tables[a].name != tv.name);
                    }
                }
            },
        }
    }

    /// Ends the loading phase: the registry becomes read-only.
    pub fn finish_load(&mut self)
        requires
            old(self).wf(),
        ensures
            final(self).wf(),
            final(self)@ == (RegistryView { readonly: true, ..old(self)@ }),
    {
        self.readonly = true;
    }
}

} // verus!
