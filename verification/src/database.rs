use vstd::prelude::*;

use crate::assoc::{assoc_has_key, assoc_map, first_index, lemma_find_iff_has_key,
    lemma_find_none, lemma_first_index, lemma_index_is_binding, lemma_push_fresh,
    lemma_remove_at, lemma_update_value, unique_keys};
use crate::entry::{Entry, EntryV};
use crate::errors::DatabaseError;
use crate::fields::Field;
use crate::table::{entries_view, matches_criteria, pruned_table, validation_error_spec, Table,
    TableV};

verus! {

/// The mathematical value of a [`Database`]: its registered tables in
/// registration order and its optional maintenance interval.
#[verifier::ext_equal]
pub struct DatabaseV {
    pub sync_interval: Option<u64>,
    pub tables: Seq<TableV>,
}

/// The mathematical values of an executable table list.
pub open spec fn tables_view(s: Seq<Table>) -> Seq<TableV> {
    s.map_values(|t: Table| t@)
}

/// Each table of `s` keyed by its own name.
pub open spec fn table_pairs(s: Seq<TableV>) -> Seq<(Seq<char>, TableV)> {
    s.map_values(|t: TableV| (t.name, t))
}

impl DatabaseV {
    /// The registered tables as a map from table name to table.
    pub open spec fn tables_map(self) -> Map<Seq<char>, TableV> {
        assoc_map(table_pairs(self.tables))
    }

    /// A well-formed database registers each name at most once, and every
    /// registered table is well formed.
    pub open spec fn wf(self) -> bool {
        &&& unique_keys(table_pairs(self.tables))
        &&& forall|i: int| 0 <= i < self.tables.len() ==> (#[trigger] self.tables[i]).wf()
    }
}

/// A named registry of tables: the unit of persistence, and the value
/// every store operation works on.
#[derive(Debug)]
pub struct Database {
    sync_interval: Option<u64>,
    tables: Vec<Table>,
}

impl View for Database {
    type V = DatabaseV;

    closed spec fn view(&self) -> DatabaseV {
        DatabaseV { sync_interval: self.sync_interval, tables: tables_view(self.tables@) }
    }
}

impl Default for Database {
    /// A new database holds no tables and no maintenance interval.
    fn default() -> (r: Self)
        ensures
            r@.tables.len() == 0,
            r@.sync_interval is None,
            r@.wf(),
    {
        Database { sync_interval: None, tables: Vec::new() }
    }
}

impl Clone for Database {
    /// Cloning keeps the mathematical value.
    fn clone(&self) -> (r: Self)
        ensures
            r@ == self@,
    {
        let mut tables: Vec<Table> = Vec::new();
        let mut i: usize = 0;
        while i < self.tables.len()
            invariant
                i <= self.tables.len(),
                tables@.len() == i,
                forall|j: int| 0 <= j < i ==> (#[trigger] tables@[j])@ == self.tables@[j]@,
            decreases self.tables.len() - i,
        {
            let t = self.tables[i].clone();
            tables.push(t);
            i += 1;
        }
        let r = Database { sync_interval: self.sync_interval, tables };
        proof {
            assert(tables_view(r.tables@) =~= tables_view(self.tables@));
            assert(r@ =~= self@);
        }
        r
    }
}

impl Database {
    /// Returns the configured maintenance interval, if any.
    pub fn get_sync_interval(&self) -> (r: Option<u64>)
        ensures
            r == self@.sync_interval,
    {
        self.sync_interval
    }

    /// Sets the maintenance interval of the database.
    pub fn set_sync_duration(&mut self, duration: u64)
        ensures
            final(self)@ == (DatabaseV { sync_interval: Some(duration), ..old(self)@ }),
    {
        self.sync_interval = Some(duration);
        proof {
            assert(final(self)@ =~= (DatabaseV { sync_interval: Some(duration), ..old(self)@ }));
        }
    }

    /// Removes the maintenance interval of the database.
    pub fn remove_sync_duration(&mut self)
        ensures
            final(self)@ == (DatabaseV { sync_interval: None, ..old(self)@ }),
    {
        self.sync_interval = None;
        proof {
            assert(final(self)@ =~= (DatabaseV { sync_interval: None, ..old(self)@ }));
        }
    }

    /// The registered tables, in registration order.
    pub(crate) fn tables_ref(&self) -> (r: &Vec<Table>)
        ensures
            tables_view(r@) == self@.tables,
    {
        &self.tables
    }

    /// Assembles a database directly from its parts; used by the
    /// persistence decoder, which re-checks the database's invariants
    /// itself.
    pub(crate) fn from_parts(sync_interval: Option<u64>, tables: Vec<Table>) -> (r: Database)
        ensures
            r@ == (DatabaseV { sync_interval, tables: tables_view(tables@) }),
    {
        Database { sync_interval, tables }
    }

    /// Whether this database is well formed: each table name registered
    /// at most once, every registered table well formed.
    pub fn check_wf(&self) -> (r: bool)
        ensures
            r == self@.wf(),
    {
        let mut i: usize = 0;
        while i < self.tables.len()
            invariant
                i <= self.tables.len(),
                forall|a: int, b: int| 0 <= a < b < i ==> (#[trigger] self.tables@[a])@.name
                    != (#[trigger] self.tables@[b])@.name,
                forall|j: int| 0 <= j < i ==> (#[trigger] self@.tables[j]).wf(),
            decreases self.tables.len() - i,
        {
            if !self.tables[i].check_wf() {
                proof {
                    assert(!(#[trigger] self@.tables[i as int]).wf());
                }
                return false;
            }
            let mut j: usize = 0;
            while j < i
                invariant
                    j <= i < self.tables.len(),
                    forall|a: int| 0 <= a < j ==> (#[trigger] self.tables@[a])@.name
                        != self.tables@[i as int]@.name,
                decreases i - j,
            {
                if String::eq(self.tables[j].get_name(), self.tables[i].get_name()) {
                    proof {
                        let pairs = table_pairs(self@.tables);
                        assert(pairs[j as int].0 == pairs[i as int].0);
                        assert(!unique_keys(pairs));
                    }
                    return false;
                }
                j += 1;
            }
            i += 1;
        }
        proof {
            assert forall|a: int, b: int| 0 <= a < b < table_pairs(self@.tables).len() implies (
            #[trigger] table_pairs(self@.tables)[a]).0 != (#[trigger] table_pairs(
                self@.tables,
            )[b]).0 by {
                assert(table_pairs(self@.tables)[a].0 == self.tables@[a]@.name);
                assert(table_pairs(self@.tables)[b].0 == self.tables@[b]@.name);
            }
        }
        true
    }

    /// Finds the index of the registered table with the given name.
    fn find_table_index(&self, name: &String) -> (r: Option<usize>)
        ensures
            r matches Some(i) ==> i < self@.tables.len() && self@.tables[i as int].name == name@
                && (unique_keys(table_pairs(self@.tables)) ==> crate::assoc::assoc_find(
                table_pairs(self@.tables),
                name@,
            ) == Some(self@.tables[i as int])),
            r is None ==> !assoc_has_key(table_pairs(self@.tables), name@),
    {
        let ghost pairs = table_pairs(self@.tables);
        let mut i: usize = 0;
        while i < self.tables.len()
            invariant
                i <= self.tables.len(),
                pairs == table_pairs(tables_view(self.tables@)),
                forall|j: int| 0 <= j < i ==> (#[trigger] pairs[j]).0 != name@,
            decreases self.tables.len() - i,
        {
            if String::eq(self.tables[i].get_name(), name) {
                proof {
                    if unique_keys(pairs) {
                        lemma_index_is_binding(pairs, i as int);
                    }
                }
                return Some(i);
            }
            i += 1;
        }
        proof {
            lemma_find_none(pairs, name@);
        }
        None
    }

    /// Returns the registered table of the given name, or
    /// `TableDoesNotExist` if none carries it.
    pub fn get_table(&self, table: &String) -> (r: Result<&Table, DatabaseError>)
        requires
            self@.wf(),
        ensures
            r is Ok <==> self@.tables_map().contains_key(table@),
            r matches Ok(t) ==> t@ == self@.tables_map()[table@] && t@.wf(),
            r matches Err(e) ==> (e matches DatabaseError::TableDoesNotExist(n) && n@ == table@),
    {
        proof {
            lemma_find_iff_has_key(table_pairs(self@.tables), table@);
        }
        match self.find_table_index(table) {
            Some(i) => Ok(&self.tables[i]),
            None => Err(DatabaseError::TableDoesNotExist(table.clone())),
        }
    }

    /// Registers a table under its own name. Fails with `TableExists` if
    /// a table of that name is already registered.
    pub fn create_table(&mut self, table: Table) -> (r: Result<(), DatabaseError>)
        requires
            old(self)@.wf(),
            table@.wf(),
        ensures
            final(self)@.wf(),
            r is Ok <==> !old(self)@.tables_map().contains_key(table@.name),
            r is Ok ==> final(self)@ == (DatabaseV {
                tables: old(self)@.tables.push(table@),
                ..old(self)@
            }) && final(self)@.tables_map() == old(self)@.tables_map().insert(
                table@.name,
                table@,
            ),
            r is Err ==> *final(self) == *old(self),
            r matches Err(e) ==> (e matches DatabaseError::TableExists(n) && n@ == table@.name),
    {
        let ghost d0 = self@;
        let ghost pairs = table_pairs(d0.tables);
        proof {
            lemma_find_iff_has_key(pairs, table@.name);
        }
        match self.find_table_index(table.get_name()) {
            Some(_) => {
                let name = table.get_name().clone();
                Err(DatabaseError::TableExists(name))
            },
            None => {
                let ghost tv = table@;
                self.tables.push(table);
                proof {
                    assert(table_pairs(self@.tables) =~= pairs.push((tv.name, tv)));
                    lemma_push_fresh(pairs, tv.name, tv);
                    assert(self@.tables_map() =~= d0.tables_map().insert(tv.name, tv));
                    assert(self@ =~= (DatabaseV { tables: d0.tables.push(tv), ..d0 }));
                }
                Ok(())
            },
        }
    }

    /// Unregisters the table of the given name, or fails with
    /// `TableDoesNotExist` if none carries it.
    pub fn drop_table(&mut self, table: &String) -> (r: Result<(), DatabaseError>)
        requires
            old(self)@.wf(),
        ensures
            final(self)@.wf(),
            r is Ok <==> old(self)@.tables_map().contains_key(table@),
            r is Ok ==> final(self)@.tables_map() == old(self)@.tables_map().remove(table@)
                && final(self)@ == (DatabaseV {
                tables: old(self)@.tables.remove(
                    first_index(table_pairs(old(self)@.tables), table@),
                ),
                ..old(self)@
            }),
            r is Err ==> *final(self) == *old(self),
            r matches Err(e) ==> (e matches DatabaseError::TableDoesNotExist(n) && n@ == table@),
    {
        let ghost d0 = self@;
        let ghost pairs = table_pairs(d0.tables);
        match self.find_table_index(table) {
            Some(i) => {
                proof {
                    lemma_index_is_binding(pairs, i as int);
                    lemma_find_iff_has_key(pairs, table@);
                }
                self.tables.remove(i);
                proof {
                    assert(table_pairs(self@.tables) =~= pairs.remove(i as int));
                    lemma_remove_at(pairs, i as int);
                    assert(pairs[i as int].0 == table@);
                    assert(first_index(pairs, table@) == i as int) by {
                        lemma_first_index(pairs, table@);
                        let f = first_index(pairs, table@);
                        if f != i as int {
                            assert(pairs[f].0 == pairs[i as int].0);
                        }
                    }
                    assert(self@.tables_map() =~= d0.tables_map().remove(table@));
                    assert(self@ =~= (DatabaseV {
                        tables: d0.tables.remove(i as int),
                        ..d0
                    }));
                }
                Ok(())
            },
            None => {
                proof {
                    lemma_find_iff_has_key(pairs, table@);
                }
                Err(DatabaseError::TableDoesNotExist(table.clone()))
            },
        }
    }

    /// Returns the names of all registered tables, in registration order.
    pub fn list_tables(&mut self) -> (r: Vec<String>)
        ensures
            *final(self) == *old(self),
            r@.len() == old(self)@.tables.len(),
            forall|i: int| 0 <= i < r@.len() ==> (#[trigger] r@[i])@ == old(self)@.tables[i].name,
    {
        let mut out: Vec<String> = Vec::new();
        let mut i: usize = 0;
        while i < self.tables.len()
            invariant
                i <= self.tables.len(),
                out@.len() == i,
                forall|j: int| 0 <= j < i ==> (#[trigger] out@[j])@ == tables_view(
                    self.tables@,
                )[j].name,
            decreases self.tables.len() - i,
        {
            let name = self.tables[i].get_name().clone();
            out.push(name);
            i += 1;
        }
        out
    }

    /// Stores a new entry in the named table, as `Table::insert` does.
    /// Fails with `TableDoesNotExist` if no table carries the name.
    pub fn insert(&mut self, table: &String, entry: Entry, now: u64) -> (r: Result<
        (),
        DatabaseError,
    >)
        requires
            old(self)@.wf(),
            entry@.wf(),
        ensures
            final(self)@.wf(),
            final(self)@.sync_interval == old(self)@.sync_interval,
            !old(self)@.tables_map().contains_key(table@) ==> (r matches Err(e)
                && e matches DatabaseError::TableDoesNotExist(n) && n@ == table@ && final(self)@ == old(self)@),
            old(self)@.tables_map().contains_key(table@) ==> {
                let t0 = old(self)@.tables_map()[table@];
                &&& (r is Ok <==> t0.conforms(entry@) && !t0.entries_map().contains_key(
                    entry@.primary,
                ))
                &&& (r is Ok ==> final(self)@.tables_map() == old(self)@.tables_map().insert(
                    table@,
                    t0.with_entry(entry@.stamped(now)),
                ))
                &&& (r is Err ==> final(self)@ == old(self)@)
                &&& validation_error_spec(t0, entry@, r)
                &&& (t0.conforms(entry@) && t0.entries_map().contains_key(entry@.primary) ==> (
                r matches Err(e) && e is EntryExists))
            },
    {
        let ghost d0 = self@;
        let idx = match self.find_table_index(table) {
            Some(i) => i,
            None => {
                return Err(DatabaseError::TableDoesNotExist(table.clone()));
            },
        };
        proof {
            lemma_index_is_binding(table_pairs(d0.tables), idx as int);
            lemma_find_iff_has_key(table_pairs(d0.tables), table@);
        }
        let mut t = self.tables.remove(idx);
        let r = t.insert(entry, now);
        self.tables.insert(idx, t);
        proof {
            assert(self@.tables =~= d0.tables.update(idx as int, t@));
            lemma_table_update_at(d0, idx as int, t@);
            assert(self@ =~= (DatabaseV { tables: d0.tables.update(idx as int, t@), ..d0 }));
            if r is Err {
                assert(self@ =~= d0);
            }
        }
        r
    }

    /// Stores an entry in the named table, replacing any entry with the
    /// same primary key, as `Table::update` does. Fails with
    /// `TableDoesNotExist` if no table carries the name.
    pub fn update(&mut self, table: &String, entry: Entry, now: u64) -> (r: Result<
        (),
        DatabaseError,
    >)
        requires
            old(self)@.wf(),
            entry@.wf(),
        ensures
            final(self)@.wf(),
            final(self)@.sync_interval == old(self)@.sync_interval,
            !old(self)@.tables_map().contains_key(table@) ==> (r matches Err(e)
                && e matches DatabaseError::TableDoesNotExist(n) && n@ == table@ && final(self)@ == old(self)@),
            old(self)@.tables_map().contains_key(table@) ==> {
                let t0 = old(self)@.tables_map()[table@];
                &&& (r is Ok <==> t0.conforms(entry@))
                &&& (r is Ok ==> final(self)@.tables_map() == old(self)@.tables_map().insert(
                    table@,
                    t0.with_entry(entry@.stamped(now)),
                ))
                &&& (r is Err ==> final(self)@ == old(self)@)
                &&& validation_error_spec(t0, entry@, r)
            },
    {
        let ghost d0 = self@;
        let idx = match self.find_table_index(table) {
            Some(i) => i,
            None => {
                return Err(DatabaseError::TableDoesNotExist(table.clone()));
            },
        };
        proof {
            lemma_index_is_binding(table_pairs(d0.tables), idx as int);
            lemma_find_iff_has_key(table_pairs(d0.tables), table@);
        }
        let mut t = self.tables.remove(idx);
        let r = t.update(entry, now);
        self.tables.insert(idx, t);
        proof {
            assert(self@.tables =~= d0.tables.update(idx as int, t@));
            lemma_table_update_at(d0, idx as int, t@);
            assert(self@ =~= (DatabaseV { tables: d0.tables.update(idx as int, t@), ..d0 }));
            if r is Err {
                assert(self@ =~= d0);
            }
        }
        r
    }

    /// Stores an entry in the named table whether or not its primary key
    /// is already present: the upsert alias of `update`.
    pub fn insert_or_update(&mut self, table: &String, entry: Entry, now: u64) -> (r: Result<
        (),
        DatabaseError,
    >)
        requires
            old(self)@.wf(),
            entry@.wf(),
        ensures
            final(self)@.wf(),
            final(self)@.sync_interval == old(self)@.sync_interval,
            !old(self)@.tables_map().contains_key(table@) ==> (r matches Err(e)
                && e matches DatabaseError::TableDoesNotExist(n) && n@ == table@ && final(self)@ == old(self)@),
            old(self)@.tables_map().contains_key(table@) ==> {
                let t0 = old(self)@.tables_map()[table@];
                &&& (r is Ok <==> t0.conforms(entry@))
                &&& (r is Ok ==> final(self)@.tables_map() == old(self)@.tables_map().insert(
                    table@,
                    t0.with_entry(entry@.stamped(now)),
                ))
                &&& (r is Err ==> final(self)@ == old(self)@)
                &&& validation_error_spec(t0, entry@, r)
            },
    {
        self.update(table, entry, now)
    }

    /// Returns a copy of the entry stored under the given primary key in
    /// the named table. Fails with `TableDoesNotExist` if no table
    /// carries the name, and with `EntryDoesNotExists` if the table holds
    /// no such entry.
    pub fn get(&self, table: &String, primary_field: &Field) -> (r: Result<Entry, DatabaseError>)
        requires
            self@.wf(),
        ensures
            !self@.tables_map().contains_key(table@) ==> (r matches Err(e)
                && e matches DatabaseError::TableDoesNotExist(n) && n@ == table@),
            self@.tables_map().contains_key(table@) ==> {
                let t0 = self@.tables_map()[table@];
                &&& (r is Ok <==> t0.entries_map().contains_key(primary_field@))
                &&& (r matches Ok(e) ==> e@ == t0.entries_map()[primary_field@])
                &&& (r matches Err(e) ==> (!t0.entries_map().contains_key(primary_field@)
                    ==> e is EntryDoesNotExists))
            },
    {
        let t = match self.get_table(table) {
            Ok(t) => t,
            Err(e) => {
                return Err(e);
            },
        };
        match t.get(primary_field) {
            Ok(e) => Ok(e.clone()),
            Err(e) => Err(e),
        }
    }

    /// Removes the entry stored under the given primary key in the named
    /// table. Fails with `TableDoesNotExist` if no table carries the
    /// name, and with `EntryDoesNotExists` if the table holds no such
    /// entry.
    pub fn delete(&mut self, table: &String, primary_field: Field) -> (r: Result<
        (),
        DatabaseError,
    >)
        requires
            old(self)@.wf(),
        ensures
            final(self)@.wf(),
            final(self)@.sync_interval == old(self)@.sync_interval,
            !old(self)@.tables_map().contains_key(table@) ==> (r matches Err(e)
                && e matches DatabaseError::TableDoesNotExist(n) && n@ == table@ && final(self)@ == old(self)@),
            old(self)@.tables_map().contains_key(table@) ==> {
                let t0 = old(self)@.tables_map()[table@];
                &&& (r is Ok <==> t0.entries_map().contains_key(primary_field@))
                &&& (r is Ok ==> final(self)@.tables_map() == old(self)@.tables_map().insert(
                    table@,
                    t0.without_entry(primary_field@),
                ))
                &&& (r is Err ==> final(self)@ == old(self)@)
                &&& (r matches Err(e) ==> (!t0.entries_map().contains_key(primary_field@)
                    ==> e is EntryDoesNotExists))
            },
    {
        let ghost d0 = self@;
        let idx = match self.find_table_index(table) {
            Some(i) => i,
            None => {
                return Err(DatabaseError::TableDoesNotExist(table.clone()));
            },
        };
        proof {
            lemma_index_is_binding(table_pairs(d0.tables), idx as int);
            lemma_find_iff_has_key(table_pairs(d0.tables), table@);
        }
        let mut t = self.tables.remove(idx);
        let r = t.delete(primary_field);
        self.tables.insert(idx, t);
        proof {
            assert(self@.tables =~= d0.tables.update(idx as int, t@));
            lemma_table_update_at(d0, idx as int, t@);
            assert(self@ =~= (DatabaseV { tables: d0.tables.update(idx as int, t@), ..d0 }));
            if r is Err {
                assert(self@ =~= d0);
            }
        }
        r
    }

    /// Removes every entry of the named table that meets the criteria and
    /// returns how many were removed. Fails with `TableDoesNotExist` if
    /// no table carries the name.
    pub fn delete_many(&mut self, table: &String, criteria: &Vec<(String, Field)>) -> (r: Result<
        u64,
        DatabaseError,
    >)
        requires
            old(self)@.wf(),
        ensures
            final(self)@.wf(),
            final(self)@.sync_interval == old(self)@.sync_interval,
            !old(self)@.tables_map().contains_key(table@) ==> (r matches Err(e)
                && e matches DatabaseError::TableDoesNotExist(n) && n@ == table@ && final(self)@ == old(self)@),
            old(self)@.tables_map().contains_key(table@) ==> {
                let t0 = old(self)@.tables_map()[table@];
                &&& (r matches Ok(n) && n == t0.entries.filter(
                    |e: EntryV| matches_criteria(e, crate::entry::pairs_view(criteria@)),
                ).len())
                &&& final(self)@.tables_map() == old(self)@.tables_map().insert(
                    table@,
                    TableV {
                        entries: t0.entries.filter(
                            |e: EntryV| !matches_criteria(e, crate::entry::pairs_view(criteria@)),
                        ),
                        ..t0
                    },
                )
            },
    {
        let ghost d0 = self@;
        let idx = match self.find_table_index(table) {
            Some(i) => i,
            None => {
                return Err(DatabaseError::TableDoesNotExist(table.clone()));
            },
        };
        proof {
            lemma_index_is_binding(table_pairs(d0.tables), idx as int);
            lemma_find_iff_has_key(table_pairs(d0.tables), table@);
        }
        let mut t = self.tables.remove(idx);
        let n = t.delete_many(criteria);
        self.tables.insert(idx, t);
        proof {
            assert(self@.tables =~= d0.tables.update(idx as int, t@));
            lemma_table_update_at(d0, idx as int, t@);
            assert(self@ =~= (DatabaseV { tables: d0.tables.update(idx as int, t@), ..d0 }));
        }
        Ok(n)
    }

    /// Returns a copy of every entry of the named table, or fails with
    /// `TableDoesNotExist` if no table carries the name.
    pub fn scan(&self, table: &String) -> (r: Result<Vec<Entry>, DatabaseError>)
        requires
            self@.wf(),
        ensures
            r is Ok <==> self@.tables_map().contains_key(table@),
            r matches Ok(v) ==> entries_view(v@) == self@.tables_map()[table@].entries,
            r matches Err(e) ==> (e matches DatabaseError::TableDoesNotExist(n) && n@ == table@),
    {
        let t = match self.get_table(table) {
            Ok(t) => t,
            Err(e) => {
                return Err(e);
            },
        };
        match t.scan() {
            Ok(v) => Ok(v),
            Err(e) => Err(e),
        }
    }

    /// Returns a copy of every entry of the named table that meets the
    /// criteria, or fails with `TableDoesNotExist` if no table carries
    /// the name.
    pub fn query(&self, table: &String, criteria: &Vec<(String, Field)>) -> (r: Result<
        Vec<Entry>,
        DatabaseError,
    >)
        requires
            self@.wf(),
        ensures
            r is Ok <==> self@.tables_map().contains_key(table@),
            r matches Ok(v) ==> entries_view(v@) == self@.tables_map()[table@].entries.filter(
                |e: EntryV| matches_criteria(e, crate::entry::pairs_view(criteria@)),
            ),
            r matches Err(e) ==> (e matches DatabaseError::TableDoesNotExist(n) && n@ == table@),
    {
        let t = match self.get_table(table) {
            Ok(t) => t,
            Err(e) => {
                return Err(e);
            },
        };
        Ok(t.query(criteria))
    }

    /// Prunes every table that has an expiration window, removing the
    /// entries whose last write lies further than the window before
    /// `now`; tables without a window are left untouched.
    pub fn prune(&mut self, now: u64)
        requires
            old(self)@.wf(),
        ensures
            final(self)@.wf(),
            final(self)@.sync_interval == old(self)@.sync_interval,
            final(self)@.tables.len() == old(self)@.tables.len(),
            forall|i: int| 0 <= i < old(self)@.tables.len() ==> final(self)@.tables[i]
                == pruned_table(#[trigger] old(self)@.tables[i], now),
    {
        let ghost d0 = self@;
        let mut i: usize = 0;
        while i < self.tables.len()
            invariant
                i <= self.tables.len(),
                d0.wf(),
                self@.sync_interval == d0.sync_interval,
                self@.tables.len() == d0.tables.len(),
                forall|j: int| 0 <= j < i ==> self@.tables[j] == pruned_table(
                    #[trigger] d0.tables[j],
                    now,
                ),
                forall|j: int| i <= j < d0.tables.len() ==> self@.tables[j] == #[trigger] d0
                    .tables[j],
                unique_keys(table_pairs(self@.tables)),
                forall|j: int| 0 <= j < self@.tables.len() ==> (#[trigger] self@.tables[j]).wf(),
            decreases self.tables.len() - i,
        {
            let ghost before = self@;
            let mut t = self.tables.remove(i);
            t.prune(now);
            self.tables.insert(i, t);
            proof {
                assert(self@.tables =~= before.tables.update(i as int, t@));
                assert(t@.name == before.tables[i as int].name);
                assert forall|a: int, b: int|
                    0 <= a < b < table_pairs(self@.tables).len() implies (
                #[trigger] table_pairs(self@.tables)[a]).0 != (#[trigger] table_pairs(
                    self@.tables,
                )[b]).0 by {
                    assert(table_pairs(self@.tables)[a].0 == table_pairs(before.tables)[a].0);
                    assert(table_pairs(self@.tables)[b].0 == table_pairs(before.tables)[b].0);
                }
            }
            i += 1;
        }
    }
}

/// Replacing the table at `i` by one with the same name keeps the
/// database well formed and rebinds that name in the registry map.
proof fn lemma_table_update_at(d0: DatabaseV, i: int, t_new: TableV)
    requires
        d0.wf(),
        0 <= i < d0.tables.len(),
        t_new.name == d0.tables[i].name,
        t_new.wf(),
    ensures
        (DatabaseV { tables: d0.tables.update(i, t_new), ..d0 }).wf(),
        (DatabaseV { tables: d0.tables.update(i, t_new), ..d0 }).tables_map()
            == d0.tables_map().insert(t_new.name, t_new),
{
    let pairs = table_pairs(d0.tables);
    let updated = d0.tables.update(i, t_new);
    assert(table_pairs(updated) =~= pairs.update(i, (pairs[i].0, t_new)));
    lemma_update_value(pairs, i, t_new);
    assert(assoc_map(table_pairs(updated)) == assoc_map(pairs).insert(t_new.name, t_new));
    assert forall|j: int| 0 <= j < updated.len() implies (#[trigger] updated[j]).wf() by {
        if j != i {
            assert(updated[j] == d0.tables[j]);
        }
    }
}

} // verus!
