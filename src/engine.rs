//! The catalogue of databases and tables, and the command handlers that run
//! Insert and Select against it. One engine owns one process's databases;
//! each command runs to completion before the next, so commands on one
//! database take effect in the order they are handled.
use vstd::prelude::*;
use crate::dml::{DbName, Insert, Select, TableName};
use crate::error::Error;
use crate::storage::{insert_accepts, keys_ascending, record_views, rows_after_all, rows_values, select_rows, Table};
use crate::predicate::find_name;
use crate::value::{labels_of, names_view, ColType, LabeledTypedTuple};

verus! {

/// A database: its name and its tables.
#[derive(Debug)]
pub struct Database {
    pub name: String,
    pub tables: Vec<Table>,
}

/// The databases of one process.
#[derive(Debug)]
pub struct Engine {
    pub databases: Vec<Database>,
}

/// The first database at or after `i` with name `n`.
pub open spec fn find_db(dbs: Seq<Database>, n: Seq<char>, i: int) -> Option<int>
    decreases dbs.len() - i,
{
    if i < 0 || i >= dbs.len() {
        None
    } else if dbs[i].name@ == n {
        Some(i)
    } else {
        find_db(dbs, n, i + 1)
    }
}

/// The first table at or after `i` with name `n`.
pub open spec fn find_table(tables: Seq<Table>, n: Seq<char>, i: int) -> Option<int>
    decreases tables.len() - i,
{
    if i < 0 || i >= tables.len() {
        None
    } else if tables[i].name@ == n {
        Some(i)
    } else {
        find_table(tables, n, i + 1)
    }
}

fn column_position(names: &Vec<String>, n: &String) -> (r: Option<usize>)
    ensures
        r matches Some(k) ==> find_name(names_view(names@), n@, 0, names@.len() as int) == Some(k as int)
            && k < names@.len(),
        r is None ==> find_name(names_view(names@), n@, 0, names@.len() as int) is None,
{
    let mut k: usize = 0;
    while k < names.len()
        invariant
            k <= names@.len(),
            find_name(names_view(names@), n@, 0, names@.len() as int) == find_name(
                names_view(names@),
                n@,
                k as int,
                names@.len() as int,
            ),
        decreases names@.len() - k,
    {
        if names[k] == *n {
            return Some(k);
        }
        k += 1;
    }
    None
}

/// The names of some column definitions.
pub open spec fn column_names_of(columns: Seq<(String, ColType)>) -> Seq<Seq<char>> {
    columns.map_values(|c: (String, ColType)| c.0@)
}

impl Engine {
    /// Every table of every database is well formed.
    pub open spec fn wf(self) -> bool {
        forall|d: int, t: int|
            0 <= d < self.databases@.len() && 0 <= t < self.databases@[d].tables@.len()
                ==> (#[trigger] self.databases@[d].tables@[t]).wf()
    }

    /// Where the catalogue holds the named table: its database's position,
    /// and its own within that database.
    pub open spec fn locate(self, db: Seq<char>, table: Seq<char>) -> Option<(int, int)> {
        match find_db(self.databases@, db, 0) {
            Some(d) => match find_table(self.databases@[d].tables@, table, 0) {
                Some(t) => Some((d, t)),
                None => None,
            },
            None => None,
        }
    }

    /// The table at a position of the catalogue.
    pub open spec fn table_at(self, at: (int, int)) -> Table {
        self.databases@[at.0].tables@[at.1]
    }

    /// `self` differs from `other` at most in the table at `at`.
    pub open spec fn same_except(self, other: Engine, at: (int, int)) -> bool {
        &&& self.databases@.len() == other.databases@.len()
        &&& forall|d: int| 0 <= d < self.databases@.len() && d != at.0 ==> #[trigger] self.databases@[d] == other.databases@[d]
        &&& self.databases@[at.0].name == other.databases@[at.0].name
        &&& self.databases@[at.0].tables@.len() == other.databases@[at.0].tables@.len()
        &&& forall|t: int|
            0 <= t < self.databases@[at.0].tables@.len() && t != at.1 ==> #[trigger] self.databases@[at.0].tables@[t]
                == other.databases@[at.0].tables@[t]
    }

    /// An engine with no databases.
    pub fn new() -> (r: Engine)
        ensures
            r.wf(),
            r.databases@.len() == 0,
    {
        Engine { databases: Vec::new() }
    }

    fn db_position(&self, n: &String) -> (r: Option<usize>)
        ensures
            r matches Some(d) ==> find_db(self.databases@, n@, 0) == Some(d as int) && d < self.databases@.len(),
            r is None ==> find_db(self.databases@, n@, 0) is None,
    {
        let mut i: usize = 0;
        while i < self.databases.len()
            invariant
                i <= self.databases@.len(),
                find_db(self.databases@, n@, 0) == find_db(self.databases@, n@, i as int),
            decreases self.databases@.len() - i,
        {
            if self.databases[i].name == *n {
                return Some(i);
            }
            i += 1;
        }
        None
    }

    fn table_position(tables: &Vec<Table>, n: &String) -> (r: Option<usize>)
        ensures
            r matches Some(t) ==> find_table(tables@, n@, 0) == Some(t as int) && t < tables@.len(),
            r is None ==> find_table(tables@, n@, 0) is None,
    {
        let mut i: usize = 0;
        while i < tables.len()
            invariant
                i <= tables@.len(),
                find_table(tables@, n@, 0) == find_table(tables@, n@, i as int),
            decreases tables@.len() - i,
        {
            if tables[i].name == *n {
                return Some(i);
            }
            i += 1;
        }
        None
    }

    fn locate_exec(&self, db: &String, table: &String) -> (r: Option<(usize, usize)>)
        ensures
            r matches Some((d, t)) ==> self.locate(db@, table@) == Some((d as int, t as int))
                && d < self.databases@.len() && t < self.databases@[d as int].tables@.len(),
            r is None ==> self.locate(db@, table@) is None,
    {
        match self.db_position(db) {
            Some(d) => match Engine::table_position(&self.databases[d].tables, table) {
                Some(t) => Some((d, t)),
                None => None,
            },
            None => None,
        }
    }

    /// Adds an empty database. Fails with `InvalidCondition` where one of
    /// that name exists, leaving the engine as it was.
    pub fn create_database(&mut self, name: DbName) -> (r: Result<(), Error>)
        requires
            old(self).wf(),
        ensures
            final(self).wf(),
            r is Err <==> find_db(old(self).databases@, name.0@, 0) is Some,
            r matches Err(e) ==> e is InvalidCondition && *final(self) == *old(self),
            r is Ok ==> final(self).databases@.len() == old(self).databases@.len() + 1
                && final(self).databases@.drop_last() == old(self).databases@
                && final(self).databases@.last().name@ == name.0@
                && final(self).databases@.last().tables@.len() == 0,
    {
        if self.db_position(&name.0).is_some() {
            return Err(Error::InvalidCondition);
        }
        let ghost before = self.databases@;
        self.databases.push(Database { name: name.0, tables: Vec::new() });
        assert(self.databases@.drop_last() =~= before);
        Ok(())
    }

    /// Adds an empty table to a database. Fails, leaving the engine as it
    /// was, with `MultiplePrimaryKeyClauses` where more than one primary key
    /// is named, then with `MissingCatalogueEntry` where the database does
    /// not exist, with `InvalidCondition` where the table already does, and
    /// with `InvalidKey` where the primary key names no column.
    pub fn create_table(
        &mut self,
        db: &DbName,
        name: TableName,
        columns: Vec<(String, ColType)>,
        primary_keys: Vec<String>,
    ) -> (r: Result<(), Error>)
        requires
            old(self).wf(),
        ensures
            final(self).wf(),
            r is Err ==> *final(self) == *old(self),
            r matches Err(e) ==> (e is MultiplePrimaryKeyClauses <==> primary_keys@.len() > 1),
            r matches Err(e) ==> (e is MissingCatalogueEntry <==> (primary_keys@.len() <= 1 && find_db(
                old(self).databases@,
                db.0@,
                0,
            ) is None)),
            r is Ok <==> {
                &&& primary_keys@.len() <= 1
                &&& find_db(old(self).databases@, db.0@, 0) matches Some(d)
                &&& find_table(old(self).databases@[d].tables@, name.0@, 0) is None
                &&& primary_keys@.len() == 1 ==> find_name(
                    column_names_of(columns@),
                    primary_keys@[0]@,
                    0,
                    columns@.len() as int,
                ) is Some
            },
            r is Ok ==> {
                let d = find_db(old(self).databases@, db.0@, 0)->Some_0;
                let t = final(self).databases@[d].tables@.last();
                &&& final(self).databases@.len() == old(self).databases@.len()
                &&& forall|e: int|
                    0 <= e < final(self).databases@.len() && e != d ==> #[trigger] final(self).databases@[e]
                        == old(self).databases@[e]
                &&& final(self).databases@[d].name == old(self).databases@[d].name
                &&& final(self).databases@[d].tables@.drop_last() == old(self).databases@[d].tables@
                &&& t.name@ == name.0@
                &&& t.names() == column_names_of(columns@)
                &&& t.types() == columns@.map_values(|c: (String, ColType)| c.1)
                &&& t.primary_key == if primary_keys@.len() == 1 {
                    Some(
                        find_name(
                            column_names_of(columns@),
                            primary_keys@[0]@,
                            0,
                            columns@.len() as int,
                        )->Some_0 as usize,
                    )
                } else {
                    None
                }
                &&& t.rows().len() == 0
            },
    {
        if primary_keys.len() > 1 {
            return Err(Error::MultiplePrimaryKeyClauses);
        }
        let d = match self.db_position(&db.0) {
            Some(d) => d,
            None => return Err(Error::MissingCatalogueEntry),
        };
        if Engine::table_position(&self.databases[d].tables, &name.0).is_some() {
            return Err(Error::InvalidCondition);
        }
        let mut names: Vec<String> = Vec::new();
        let mut types: Vec<ColType> = Vec::new();
        let mut i: usize = 0;
        while i < columns.len()
            invariant
                i <= columns@.len(),
                names@.len() == i,
                types@.len() == i,
                names_view(names@) == column_names_of(columns@.take(i as int)),
                types@ == columns@.take(i as int).map_values(|c: (String, ColType)| c.1),
            decreases columns@.len() - i,
        {
            let ghost prev = names@;
            names.push(columns[i].0.clone());
            assert(names_view(names@) =~= names_view(prev).push(columns@[i as int].0@));
            types.push(columns[i].1);
            assert(columns@.take(i + 1) =~= columns@.take(i as int).push(columns@[i as int]));
            assert(names_view(names@) =~= column_names_of(columns@.take(i + 1)));
            assert(types@ =~= columns@.take(i + 1).map_values(|c: (String, ColType)| c.1));
            i += 1;
        }
        assert(columns@.take(i as int) =~= columns@);
        let primary_key: Option<usize> = if primary_keys.len() == 1 {
            match column_position(&names, &primary_keys[0]) {
                Some(k) => Some(k),
                None => return Err(Error::InvalidKey),
            }
        } else {
            None
        };
        let table = Table::new(name.0, names, types, primary_key);
        let ghost before = *self;
        let mut database = self.databases.remove(d);
        database.tables.push(table);
        self.databases.insert(d, database);
        proof {
            assert(self.databases@[d as int].tables@.drop_last() =~= before.databases@[d as int].tables@);
            assert forall|e: int| 0 <= e < self.databases@.len() && e != d implies #[trigger] self.databases@[e]
                == before.databases@[e] by {
                if e < d {
                    assert(self.databases@[e] == before.databases@[e]);
                } else {
                    assert(self.databases@[e] == before.databases@[e]);
                }
            }
            assert forall|e: int, t: int|
                0 <= e < self.databases@.len() && 0 <= t < self.databases@[e].tables@.len() implies (
                #[trigger] self.databases@[e].tables@[t]).wf() by {
                if e != d && t < before.databases@[e].tables@.len() {
                    assert(before.databases@[e].tables@[t].wf());
                } else if e == d && t < before.databases@[e].tables@.len() {
                    assert(self.databases@[e].tables@[t] == before.databases@[e].tables@[t]);
                    assert(before.databases@[e].tables@[t].wf());
                }
            }
        }
        Ok(())
    }

    /// Runs an Insert: stores the command's records in the named table, all
    /// or none. Fails with `MissingCatalogueEntry` before touching storage
    /// where the database or the table does not exist; otherwise as the
    /// table's own insert does. Nothing but that one table changes.
    pub fn insert(&mut self, cmd: &Insert) -> (r: Result<(), Error>)
        requires
            old(self).wf(),
        ensures
            final(self).wf(),
            r matches Err(e) ==> (e is MissingCatalogueEntry <==> old(self).locate(
                cmd.db_name.0@,
                cmd.table_name.0@,
            ) is None),
            old(self).locate(cmd.db_name.0@, cmd.table_name.0@) is None ==> *final(self) == *old(self),
            old(self).locate(cmd.db_name.0@, cmd.table_name.0@) matches Some(at) ==> {
                let before = old(self).table_at(at);
                let recs = record_views(cmd.values@);
                &&& final(self).same_except(*old(self), at)
                &&& final(self).table_at(at).same_schema(before)
                &&& (r is Ok <==> insert_accepts(before.rows(), before.types(), before.primary_key, recs))
                &&& (r is Ok ==> final(self).table_at(at).rows() == rows_after_all(
                    before.rows(),
                    before.types(),
                    before.primary_key,
                    recs,
                ))
                &&& (r is Err ==> final(self).table_at(at) == before)
            },
    {
        let (d, t) = match self.locate_exec(&cmd.db_name.0, &cmd.table_name.0) {
            Some(at) => at,
            None => return Err(Error::MissingCatalogueEntry),
        };
        let ghost before = *self;
        let mut database = self.databases.remove(d);
        let mut table = database.tables.remove(t);
        assert(table == before.databases@[d as int].tables@[t as int]);
        assert(table.wf());
        let r = table.insert_records(&cmd.values);
        database.tables.insert(t, table);
        self.databases.insert(d, database);
        proof {
            assert forall|e: int| 0 <= e < self.databases@.len() && e != d implies #[trigger] self.databases@[e]
                == before.databases@[e] by {}
            assert forall|u: int|
                0 <= u < self.databases@[d as int].tables@.len() && u != t implies #[trigger] self.databases@[d as int].tables@[u]
                == before.databases@[d as int].tables@[u] by {}
            assert forall|e: int, u: int|
                0 <= e < self.databases@.len() && 0 <= u < self.databases@[e].tables@.len() implies (
                #[trigger] self.databases@[e].tables@[u]).wf() by {
                if e != d || u != t {
                    assert(self.databases@[e].tables@[u] == before.databases@[e].tables@[u]);
                    assert(before.databases@[e].tables@[u].wf());
                }
            }
        }
        r
    }

    /// Runs a Select: the rows of the named table in scan order, filtered
    /// where the command has a filter. Fails with `MissingCatalogueEntry`,
    /// and reads no storage, where the database or the table does not exist.
    pub fn select(&self, cmd: &Select) -> (r: Result<Vec<LabeledTypedTuple>, Error>)
        requires
            self.wf(),
        ensures
            r is Err <==> self.locate(cmd.db_name.0@, cmd.table_name.0@) is None,
            r matches Err(e) ==> e is MissingCatalogueEntry,
            r matches Ok(rows) ==> {
                let table = self.table_at(self.locate(cmd.db_name.0@, cmd.table_name.0@)->Some_0);
                &&& rows_values(rows@) == select_rows(table.rows(), table.types(), table.names(), cmd.filter)
                &&& table.primary_key matches Some(k) ==> keys_ascending(table.rows(), table.types(), k as int)
                &&& forall|i: int| 0 <= i < rows@.len() ==> labels_of((#[trigger] rows@[i]).0@) == table.names()
            },
    {
        match self.locate_exec(&cmd.db_name.0, &cmd.table_name.0) {
            Some((d, t)) => {
                assert(self.databases@[d as int].tables@[t as int].wf());
                Ok(self.databases[d].tables[t].scan(&cmd.filter))
            },
            None => Err(Error::MissingCatalogueEntry),
        }
    }
}

} // verus!
