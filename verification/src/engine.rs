//! The dispatcher: a cache of opened databases under one root, a reserved
//! default database, and the single entry point `execute`.
//!
//! The engine works on the in-memory images of its databases; loading them
//! from storage and writing them back is the surrounding program's charge.

use vstd::prelude::*;

use crate::database::{Database, DEFAULT_DB};
use crate::schema::{all_matched, alter_walk, cols_view, create_table_check, sort_cols, Column, Columns, Schema};
use crate::strmap::{distinct_keys, StrMap};
use crate::table::{
    coerce_walk, insert_outcome, join_res, keys_match_cols, pair_seq, proj_view, select_res,
    select_rows, tombstone_rows, update_walk, ColumnSet, Table,
};
use crate::types::{ErrV, PoorlyError, TableMethod, TypedValue, Val};

verus! {

/// One request against the engine, the interface every front end speaks.
pub enum Query {
    Select { db: String, from: String, columns: Vec<String>, conditions: ColumnSet },
    Insert { db: String, into: String, values: ColumnSet },
    Update { db: String, table: String, set: ColumnSet, conditions: ColumnSet },
    Delete { db: String, from: String, conditions: ColumnSet },
    Create { db: String, table: String, columns: Columns },
    CreateDb { name: String },
    Drop { db: String, table: String },
    DropDb { name: String },
    Alter { db: String, table: String, rename: StrMap<String> },
    ShowTables { db: String },
    Join {
        db: String,
        table1: String,
        table2: String,
        columns: Vec<String>,
        conditions: ColumnSet,
        join_on: StrMap<String>,
    },
}

impl View for Database {
    type V = Database;

    open spec fn view(&self) -> Database {
        *self
    }
}

/// The table a database presents under a name: the cached one, or a fresh
/// empty one over the declared columns on first reference. The model is the
/// table's name, columns, counter and rows.
pub open spec fn table_model(d: Database, tn: Seq<char>) -> Result<
    (Seq<char>, Seq<(Seq<char>, crate::types::DataType)>, u32, Seq<(bool, Seq<Val>)>),
    ErrV,
> {
    if !d.schema.tables@.contains_key(tn) {
        Err(ErrV::TableNotFound(tn))
    } else if d.tables@.contains_key(tn) {
        Ok(
            (
                d.tables@[tn].spec_name(),
                d.tables@[tn].spec_columns(),
                d.tables@[tn].spec_serial(),
                d.tables@[tn].spec_rows(),
            ),
        )
    } else if distinct_keys(cols_view(d.schema.tables@[tn])) {
        Ok((tn, cols_view(d.schema.tables@[tn]), 0, Seq::empty()))
    } else {
        Err(ErrV::IoError("table declaration holds a duplicate column name"@))
    }
}

pub struct Poorly {
    pub databases: StrMap<Database>,
}

impl Poorly {
    /// An engine with no database opened yet.
    pub fn open() -> (r: Poorly)
        ensures
            r.databases@ == Map::<Seq<char>, Database>::empty(),
    {
        Poorly { databases: StrMap::new() }
    }

    /// Creates a database: a fresh empty schema under the name.
    pub fn create_db(&mut self, name: String) -> (r: Result<(), PoorlyError>)
        ensures
            old(self).databases@.contains_key(name@) ==> (r matches Err(e) && e@
                == ErrV::DatabaseAlreadyExists(name@) && *final(self) == *old(self)),
            !old(self).databases@.contains_key(name@) ==> r is Ok && final(self).databases@
                == old(self).databases@.insert(name@, final(self).databases@[name@]) && final(self).databases@.contains_key(name@) && final(self).databases@[name@].schema.tables@
                == Map::<Seq<char>, Seq<Column>>::empty() && final(self).databases@[name@].tables@ == Map::<Seq<char>, Table>::empty(),
    {
        if self.databases.contains_key(name.as_str()) {
            return Err(PoorlyError::DatabaseAlreadyExists(name));
        }
        let schema = Schema::new_poorly(name.clone());
        let db = Database::new(name.clone(), schema);
        self.databases.insert(name, db);
        Ok(())
    }

    /// Makes sure the reserved default database exists; doing it twice
    /// changes nothing.
    pub fn init(&mut self) -> (r: Result<(), PoorlyError>)
        ensures
            r is Ok,
            final(self).databases@.contains_key(DEFAULT_DB@),
            old(self).databases@.contains_key(DEFAULT_DB@) ==> *final(self) == *old(self),
            !old(self).databases@.contains_key(DEFAULT_DB@) ==> final(self).databases@[DEFAULT_DB@].schema.tables@ == Map::<Seq<char>, Seq<Column>>::empty()
                && final(self).databases@[DEFAULT_DB@].tables@ == Map::<Seq<char>, Table>::empty()
                && final(self).databases@.remove(DEFAULT_DB@) == old(self).databases@.remove(DEFAULT_DB@),
    {
        if self.databases.contains_key(DEFAULT_DB) {
            return Ok(());
        }
        match self.create_db(DEFAULT_DB.to_owned()) {
            Ok(u) => Ok(()),
            Err(e) => Ok(()),
        }
    }

    /// Drops a whole database; the reserved default one is protected.
    pub fn drop_db(&mut self, name: String) -> (r: Result<(), PoorlyError>)
        ensures
            !old(self).databases@.contains_key(name@) ==> (r matches Err(e) && e@
                == ErrV::DatabaseNotFound(name@) && *final(self) == *old(self)),
            old(self).databases@.contains_key(name@) && name@ == DEFAULT_DB@ ==> (r matches Err(e)
                && e@ == ErrV::CannotDropDefaultDb && *final(self) == *old(self)),
            old(self).databases@.contains_key(name@) && name@ != DEFAULT_DB@ ==> r is Ok && final(self).databases@ == old(self).databases@.remove(name@),
    {
        if !self.databases.contains_key(name.as_str()) {
            return Err(PoorlyError::DatabaseNotFound(name));
        }
        if crate::text::str_eq(name.as_str(), DEFAULT_DB) {
            return Err(PoorlyError::CannotDropDefaultDb);
        }
        self.databases.remove(name.as_str());
        Ok(())
    }

    /// Takes a database out of the cache for an operation; `put_db` gives it
    /// back. A database that was never created or loaded is not found.
    fn take_db(&mut self, name: &str) -> (r: Result<Database, PoorlyError>)
        ensures
            !old(self).databases@.contains_key(name@) ==> (r matches Err(e) && e@
                == ErrV::DatabaseNotFound(name@) && *final(self) == *old(self)),
            old(self).databases@.contains_key(name@) ==> (r matches Ok(d) && d == old(self).databases@[name@] && final(self).databases@ == old(self).databases@.remove(name@)),
    {
        match self.databases.remove(name) {
            Some(d) => Ok(d),
            Option::None => Err(PoorlyError::DatabaseNotFound(name.to_owned())),
        }
    }

    /// Gives a database back to the cache under the name it was taken from.
    fn put_db(&mut self, key: String, db: Database) -> (u: ())
        ensures
            final(self).databases@ == old(self).databases@.insert(key@, db),
    {
        self.databases.insert(key, db);
    }
}

impl Poorly {
    /// Declares a table in a database's schema.
    pub fn create_table(&mut self, db: String, table_name: String, columns: Columns) -> (r: Result<
        (),
        PoorlyError,
    >)
        ensures
            !old(self).databases@.contains_key(db@) ==> (r matches Err(e) && e@
                == ErrV::DatabaseNotFound(db@) && *final(self) == *old(self)),
            old(self).databases@.contains_key(db@) ==> (r is Ok <==> create_table_check(
                old(self).databases@[db@].schema.tables@,
                table_name@,
                columns@,
            ) is None),
            r matches Err(e) ==> old(self).databases@.contains_key(db@) ==> (Some(e@)
                == create_table_check(
                old(self).databases@[db@].schema.tables@,
                table_name@,
                columns@,
            ) && final(self).databases@ == old(self).databases@),
            old(self).databases@.contains_key(db@) && r is Ok ==> final(self).databases@.contains_key(db@) && final(self).databases@[db@].schema.tables@ == old(self).databases@[db@].schema.tables@.insert(table_name@, sort_cols(columns@)) && final(self).databases@[db@].tables@ == old(self).databases@[db@].tables@ && final(self).databases@.remove(db@) == old(self).databases@.remove(db@),
    {
        let mut d = match self.take_db(db.as_str()) {
            Err(e) => {
                return Err(e);
            },
            Ok(d) => d,
        };
        let ghost d0 = d;
        let res = d.schema.create_table(table_name, columns);
        let ghost d1 = d;
        self.put_db(db, d);
        proof {
            if res is Err {
                assert(d1 == d0);
                assert(old(self).databases@.remove(db@).insert(db@, d0) =~= old(self).databases@);
            } else {
                assert(final(self).databases@.remove(db@) =~= old(self).databases@.remove(db@));
            }
        }
        res
    }

    /// Removes a table: its schema entry and its cached contents.
    pub fn drop_table(&mut self, db: String, table_name: String) -> (r: Result<(), PoorlyError>)
        ensures
            !old(self).databases@.contains_key(db@) ==> (r matches Err(e) && e@
                == ErrV::DatabaseNotFound(db@) && *final(self) == *old(self)),
            old(self).databases@.contains_key(db@) && !old(self).databases@[db@].schema.tables@.contains_key(table_name@) ==> (r matches Err(e) && e@
                == ErrV::TableNotFound(table_name@) && final(self).databases@ == old(self).databases@),
            old(self).databases@.contains_key(db@) && old(self).databases@[db@].schema.tables@.contains_key(table_name@) ==> r is Ok && final(self).databases@.contains_key(db@) && final(self).databases@[db@].schema.tables@ == old(self).databases@[db@].schema.tables@.remove(table_name@) && final(self).databases@[db@].tables@ == old(self).databases@[db@].tables@.remove(table_name@)
                && final(self).databases@.remove(db@) == old(self).databases@.remove(db@),
    {
        let mut d = match self.take_db(db.as_str()) {
            Err(e) => {
                return Err(e);
            },
            Ok(d) => d,
        };
        let ghost d0 = d;
        let res = d.schema.drop_table(table_name.clone());
        match res {
            Err(e) => {
                self.put_db(db, d);
                proof {
                    assert(old(self).databases@.remove(db@).insert(db@, d0) =~= old(self).databases@);
                }
                Err(e)
            },
            Ok(u) => {
                d.tables.remove(table_name.as_str());
                self.put_db(db, d);
                proof {
                    assert(final(self).databases@.remove(db@) =~= old(self).databases@.remove(
                        db@,
                    ));
                }
                Ok(())
            },
        }
    }
}

impl Poorly {
    /// Renames columns of a table, in the schema and in the cached table.
    pub fn alter_table(&mut self, db: String, table_name: String, rename: StrMap<String>) -> (r:
        Result<(), PoorlyError>)
        ensures
            !old(self).databases@.contains_key(db@) ==> (r matches Err(e) && e@
                == ErrV::DatabaseNotFound(db@) && *final(self) == *old(self)),
            old(self).databases@.contains_key(db@) ==> (r is Ok <==> (old(self).databases@[db@].schema.tables@.contains_key(table_name@) && alter_walk(
                cols_view(old(self).databases@[db@].schema.tables@[table_name@]),
                0,
                rename@,
                table_name@,
                Seq::empty(),
            ) is Ok && all_matched(
                rename@,
                cols_view(old(self).databases@[db@].schema.tables@[table_name@]),
            ))),
            old(self).databases@.contains_key(db@) && !old(self).databases@[db@].schema.tables@.contains_key(table_name@) ==> (r matches Err(e) && e@
                == ErrV::TableNotFound(table_name@) && final(self).databases@ == old(self).databases@),
            alter_walk(
                cols_view(old(self).databases@[db@].schema.tables@[table_name@]),
                0,
                rename@,
                table_name@,
                Seq::empty(),
            ) matches Err(we) ==> old(self).databases@.contains_key(db@) ==> old(self).databases@[db@].schema.tables@.contains_key(table_name@) ==> (r matches Err(e) && e@
                == we && final(self).databases@ == old(self).databases@),
            alter_walk(
                cols_view(old(self).databases@[db@].schema.tables@[table_name@]),
                0,
                rename@,
                table_name@,
                Seq::empty(),
            ) matches Ok(nc) ==> old(self).databases@.contains_key(db@) ==> old(self).databases@[db@].schema.tables@.contains_key(table_name@) ==> ((!all_matched(
                rename@,
                cols_view(old(self).databases@[db@].schema.tables@[table_name@]),
            ) ==> (r matches Err(e) && (e@ matches ErrV::ColumnNotFound(k, t) && t == table_name@
                && rename@.contains_key(k)) && final(self).databases@ == old(self).databases@))
                && (all_matched(
                rename@,
                cols_view(old(self).databases@[db@].schema.tables@[table_name@]),
            ) ==> (r is Ok && final(self).databases@.contains_key(db@) && final(self).databases@[db@].schema.tables@.contains_key(table_name@) && cols_view(
                final(self).databases@[db@].schema.tables@[table_name@],
            ) == nc && final(self).databases@[db@].schema.tables@.remove(table_name@) == old(self).databases@[db@].schema.tables@.remove(table_name@) && final(self).databases@.remove(db@) == old(self).databases@.remove(db@) && (!old(self).databases@[db@].tables@.contains_key(table_name@) ==> final(self).databases@[db@].tables@ == old(self).databases@[db@].tables@) && (old(self).databases@[db@].tables@.contains_key(table_name@) ==> (final(self).databases@[db@].tables@.remove(table_name@) == old(self).databases@[db@].tables@.remove(table_name@) && final(self).databases@[db@].tables@.contains_key(table_name@) && ((crate::strmap::distinct_keys(
                nc,
            ) && nc.len() == old(self).databases@[db@].tables@[table_name@].spec_columns().len()) ==> (final(self).databases@[db@].tables@[table_name@].spec_columns() == nc && final(self).databases@[db@].tables@[table_name@].spec_name() == old(self).databases@[db@].tables@[table_name@].spec_name() && final(self).databases@[db@].tables@[table_name@].spec_serial() == old(self).databases@[db@].tables@[table_name@].spec_serial() && final(self).databases@[db@].tables@[table_name@].spec_rows() == old(self).databases@[db@].tables@[table_name@].spec_rows())) && (!(
            crate::strmap::distinct_keys(nc) && nc.len() == old(self).databases@[db@].tables@[table_name@].spec_columns().len()) ==> final(self).databases@[db@].tables@[table_name@] == old(self).databases@[db@].tables@[table_name@])))))),
    {
        let mut d = match self.take_db(db.as_str()) {
            Err(e) => {
                return Err(e);
            },
            Ok(d) => d,
        };
        let ghost d0 = d;
        match d.schema.alter_table(table_name.clone(), rename) {
            Err(e) => {
                self.put_db(db, d);
                proof {
                    assert(old(self).databases@.remove(db@).insert(db@, d0) =~= old(self).databases@);
                }
                Err(e)
            },
            Ok(u) => {
                // refresh the cached table's columns, if it is opened
                match d.tables.remove(table_name.as_str()) {
                    Option::None => {},
                    Some(mut t) => {
                        let decl = match d.schema.tables.get(table_name.as_str()) {
                            Some(c) => c,
                            Option::None => {
                                proof {
                                    assert(false);
                                }
                                return Err(PoorlyError::TableNotFound(table_name));
                            },
                        };
                        // copy the new declaration; its names are distinct by
                        // the rename's own collision check, verified here
                        let mut cols: Columns = Vec::new();
                        let n = decl.len();
                        let mut i: usize = 0;
                        while i < n
                            invariant
                                i <= n == decl@.len(),
                                cols@.len() == i,
                                forall|j: int|
                                    0 <= j < i ==> #[trigger] cols_view(cols@)[j] == cols_view(
                                        decl@,
                                    )[j],
                            decreases n - i,
                        {
                            proof {
                                assert(cols_view(decl@)[i as int] == (
                                    decl@[i as int].0@,
                                    decl@[i as int].1,
                                ));
                            }
                            let nm = decl[i].0.clone();
                            let dt = decl[i].1;
                            let ghost cols0 = cols@;
                            cols.push((nm, dt));
                            proof {
                                assert forall|j: int| 0 <= j < i + 1 implies #[trigger] cols_view(
                                    cols@,
                                )[j] == cols_view(decl@)[j] by {
                                    if j < i {
                                        assert(cols@[j] == cols0[j]);
                                        assert(cols_view(cols0)[j] == cols_view(decl@)[j]);
                                    } else {
                                        assert(cols_view(cols@)[j] == (cols@[j].0@, cols@[j].1));
                                    }
                                }
                            }
                            i = i + 1;
                        }
                        proof {
                            assert(cols_view(cols@) =~= cols_view(decl@));
                        }
                        let mut distinct = true;
                        let mut a: usize = 0;
                        while a < n
                            invariant
                                a <= n == cols@.len(),
                                distinct ==> forall|x: int, y: int|
                                    0 <= x < a && 0 <= y < n && x != y ==> (#[trigger] cols_view(
                                        cols@,
                                    )[x]).0 != (#[trigger] cols_view(cols@)[y]).0,
                                !distinct ==> !distinct_keys(cols_view(cols@)),
                            decreases n - a,
                        {
                            let mut b: usize = 0;
                            while b < n
                                invariant
                                    a < n == cols@.len(),
                                    b <= n,
                                    distinct ==> forall|x: int, y: int|
                                        0 <= x < a && 0 <= y < n && x != y ==> (
                                        #[trigger] cols_view(cols@)[x]).0 != (#[trigger] cols_view(
                                            cols@,
                                        )[y]).0,
                                    distinct ==> forall|y: int|
                                        0 <= y < b && y != a ==> (#[trigger] cols_view(cols@)[y]).0
                                            != cols_view(cols@)[a as int].0,
                                    !distinct ==> !distinct_keys(cols_view(cols@)),
                                decreases n - b,
                            {
                                proof {
                                    assert(cols_view(cols@)[a as int] == (
                                        cols@[a as int].0@,
                                        cols@[a as int].1,
                                    ));
                                    assert(cols_view(cols@)[b as int] == (
                                        cols@[b as int].0@,
                                        cols@[b as int].1,
                                    ));
                                }
                                if b != a && crate::text::str_eq(
                                    cols[b].0.as_str(),
                                    cols[a].0.as_str(),
                                ) {
                                    proof {
                                        assert(cols_view(cols@)[b as int].0 == cols_view(
                                            cols@,
                                        )[a as int].0);
                                        assert(!distinct_keys(cols_view(cols@)));
                                    }
                                    distinct = false;
                                }
                                b = b + 1;
                            }
                            a = a + 1;
                        }
                        let cols_len = cols.len();
                        if distinct && cols_len == t.columns_len() {
                            proof {
                                assert(distinct_keys(cols_view(cols@)));
                            }
                            t.set_columns(cols);
                            d.put_table(table_name, t);
                        } else {
                            // a corrupt cache: leave the table as it was
                            d.put_table(table_name, t);
                        }
                    },
                }
                self.put_db(db, d);
                Ok(())
            },
        }
    }
}

impl Poorly {
    /// Joins two tables of one database; a table joined with itself is
    /// allowed and sees the same rows on both sides.
    pub fn join(
        &mut self,
        db: String,
        table1: String,
        table2: String,
        columns: Vec<String>,
        conditions: ColumnSet,
        join_on: StrMap<String>,
    ) -> (r: Result<Vec<ColumnSet>, PoorlyError>)
        ensures
            !old(self).databases@.contains_key(db@) ==> (r matches Err(e) && e@
                == ErrV::DatabaseNotFound(db@)),
            table_model(old(self).databases@[db@], table1@) matches Err(te) ==> old(self).databases@.contains_key(db@) ==> (r matches Err(e) && e@ == te),
            table_model(old(self).databases@[db@], table1@) matches Ok(m1) ==> table_model(
                old(self).databases@[db@],
                table2@,
            ) matches Err(te2) ==> old(self).databases@.contains_key(db@) ==> (r matches Err(e)
                && e@ == te2),
            table_model(old(self).databases@[db@], table1@) matches Ok(m1) ==> table_model(
                old(self).databases@[db@],
                table2@,
            ) matches Ok(m2) ==> old(self).databases@.contains_key(db@) ==> ((join_res(
                m1.0,
                m1.1,
                m1.3,
                m2.0,
                m2.1,
                m2.3,
                pair_seq(join_on),
                conditions.entry_seq(),
                proj_view(columns@),
            ) is Err ==> (r matches Err(e) && e@ == join_res(
                m1.0,
                m1.1,
                m1.3,
                m2.0,
                m2.1,
                m2.3,
                pair_seq(join_on),
                conditions.entry_seq(),
                proj_view(columns@),
            )->Err_0)) && (join_res(
                m1.0,
                m1.1,
                m1.3,
                m2.0,
                m2.1,
                m2.3,
                pair_seq(join_on),
                conditions.entry_seq(),
                proj_view(columns@),
            ) is Ok ==> (r matches Ok(v) && v@.map_values(|cs: ColumnSet| cs@) == join_res(
                m1.0,
                m1.1,
                m1.3,
                m2.0,
                m2.1,
                m2.3,
                pair_seq(join_on),
                conditions.entry_seq(),
                proj_view(columns@),
            )->Ok_0))),
    {
        let mut d = match self.take_db(db.as_str()) {
            Err(e) => {
                return Err(e);
            },
            Ok(d) => d,
        };
        let t1 = match d.get_table(table1.as_str()) {
            Err(e) => {
                self.put_db(db, d);
                return Err(e);
            },
            Ok(t) => t,
        };
        if crate::text::str_eq(table1.as_str(), table2.as_str()) {
            let res = t1.join(&t1, columns, conditions, join_on);
            d.put_table(table1, t1);
            self.put_db(db, d);
            res
        } else {
            let t2 = match d.get_table(table2.as_str()) {
                Err(e) => {
                    d.put_table(table1, t1);
                    self.put_db(db, d);
                    return Err(e);
                },
                Ok(t) => t,
            };
            let res = t1.join(&t2, columns, conditions, join_on);
            d.put_table(table2, t2);
            d.put_table(table1, t1);
            self.put_db(db, d);
            res
        }
    }
}

/// The synthetic single row `ShowTables` returns: each declared table name
/// mapped to an empty string.
pub open spec fn tables_row(keys: Seq<Seq<char>>) -> Map<Seq<char>, Val> {
    crate::strmap::assoc_map(Seq::new(keys.len(), |i: int| (keys[i], Val::Str(Seq::empty()))))
}

impl Poorly {
    /// The single entry point: routes the query to the owning database and
    /// table. Mutation-only queries normalize to an empty row list; all
    /// others return the resulting rows.
    pub fn execute(&mut self, query: Query) -> (r: Result<Vec<ColumnSet>, PoorlyError>)
        ensures
            query matches Query::Select { db, from, columns, conditions } ==> ((!old(self).databases@.contains_key(db@) ==> (r matches Err(e) && e@ == ErrV::DatabaseNotFound(
                db@,
            ))) && (table_model(old(self).databases@[db@], from@) is Err ==> old(self).databases@.contains_key(db@) ==> (r matches Err(e) && e@ == table_model(
                old(self).databases@[db@],
                from@,
            )->Err_0))),
            query matches Query::Select { db, from, columns, conditions } ==> (table_model(
                old(self).databases@[db@],
                from@,
            ) matches Ok(tm) ==> old(self).databases@.contains_key(db@) ==> ((coerce_walk(
                tm.1,
                0,
                conditions@,
                TableMethod::Select,
                Map::empty(),
            ) matches Err(we) ==> (r matches Err(e) && e@ == we)) && (coerce_walk(
                tm.1,
                0,
                conditions@,
                TableMethod::Select,
                Map::empty(),
            ) matches Ok(cm) ==> ((keys_match_cols(conditions@, tm.1) && select_res(
                tm.1,
                tm.0,
                tm.3,
                proj_view(columns@),
                cm,
            ) is Ok) ==> (r matches Ok(v) && v@.map_values(|cs: ColumnSet| cs@) == select_res(
                tm.1,
                tm.0,
                tm.3,
                proj_view(columns@),
                cm,
            )->Ok_0))))),
            query matches Query::Select { db, from, columns, conditions } ==> (table_model(
                old(self).databases@[db@],
                from@,
            ) matches Ok(tm) ==> coerce_walk(
                tm.1,
                0,
                conditions@,
                TableMethod::Select,
                Map::empty(),
            ) matches Ok(cm) ==> old(self).databases@.contains_key(db@) ==> ((!keys_match_cols(
                conditions@,
                tm.1,
            ) ==> (r matches Err(e) && e@ matches ErrV::ColumnNotFound(k, t) && t == tm.0
                && conditions@.contains_key(k))) && ((keys_match_cols(conditions@, tm.1)
                && select_res(tm.1, tm.0, tm.3, proj_view(columns@), cm) is Err) ==> (r
                matches Err(e) && e@ == select_res(
                tm.1,
                tm.0,
                tm.3,
                proj_view(columns@),
                cm,
            )->Err_0)))),
            query matches Query::Insert { db, into, values } ==> ((!old(self).databases@.contains_key(db@) ==> (r matches Err(e) && e@ == ErrV::DatabaseNotFound(
                db@,
            ))) && (table_model(old(self).databases@[db@], into@) is Err ==> old(self).databases@.contains_key(db@) ==> (r matches Err(e) && e@ == table_model(
                old(self).databases@[db@],
                into@,
            )->Err_0))),
            query matches Query::Insert { db, into, values } ==> (table_model(
                old(self).databases@[db@],
                into@,
            ) matches Ok(tm) ==> coerce_walk(
                tm.1,
                0,
                values@,
                TableMethod::Insert,
                Map::empty(),
            ) matches Err(we) ==> old(self).databases@.contains_key(db@) ==> (r matches Err(e)
                && e@ == we)),
            query matches Query::Insert { db, into, values } ==> (table_model(
                old(self).databases@[db@],
                into@,
            ) matches Ok(tm) ==> coerce_walk(
                tm.1,
                0,
                values@,
                TableMethod::Insert,
                Map::empty(),
            ) matches Ok(m) ==> old(self).databases@.contains_key(db@) ==> ((!keys_match_cols(
                values@,
                tm.1,
            ) ==> (r matches Err(e) && e@ matches ErrV::ColumnNotFound(k, t) && t == tm.0
                && values@.contains_key(k))) && ((keys_match_cols(values@, tm.1) && insert_outcome(
                tm.1,
                tm.0,
                tm.3,
                tm.2,
                m,
            ) is Err) ==> (r matches Err(e) && e@ == insert_outcome(
                tm.1,
                tm.0,
                tm.3,
                tm.2,
                m,
            )->Err_0)))),
            query matches Query::Insert { db, into, values } ==> (table_model(
                old(self).databases@[db@],
                into@,
            ) matches Ok(tm) ==> old(self).databases@.contains_key(db@) ==> (coerce_walk(
                tm.1,
                0,
                values@,
                TableMethod::Insert,
                Map::empty(),
            ) matches Ok(m) ==> ((keys_match_cols(values@, tm.1) && insert_outcome(
                tm.1,
                tm.0,
                tm.3,
                tm.2,
                m,
            ) is Ok) ==> (r matches Ok(v) && v@.len() == 1 && v@[0]@ == insert_outcome(
                tm.1,
                tm.0,
                tm.3,
                tm.2,
                m,
            )->Ok_0.2 && table_model(final(self).databases@[db@], into@) == Ok::<
                (Seq<char>, Seq<(Seq<char>, crate::types::DataType)>, u32, Seq<(bool, Seq<Val>)>),
                ErrV,
            >(
                (
                    tm.0,
                    tm.1,
                    insert_outcome(tm.1, tm.0, tm.3, tm.2, m)->Ok_0.1,
                    insert_outcome(tm.1, tm.0, tm.3, tm.2, m)->Ok_0.0,
                ),
            ))))),
            query matches Query::Update { db, table, set, conditions } ==> ((!old(self).databases@.contains_key(db@) ==> (r matches Err(e) && e@ == ErrV::DatabaseNotFound(
                db@,
            ))) && (table_model(old(self).databases@[db@], table@) is Err ==> old(self).databases@.contains_key(db@) ==> (r matches Err(e) && e@ == table_model(
                old(self).databases@[db@],
                table@,
            )->Err_0))),
            query matches Query::Update { db, table, set, conditions } ==> (table_model(
                old(self).databases@[db@],
                table@,
            ) matches Ok(tm) ==> coerce_walk(
                tm.1,
                0,
                set@,
                TableMethod::Update,
                Map::empty(),
            ) matches Err(we) ==> old(self).databases@.contains_key(db@) ==> (r matches Err(e)
                && e@ == we)),
            query matches Query::Update { db, table, set, conditions } ==> (table_model(
                old(self).databases@[db@],
                table@,
            ) matches Ok(tm) ==> coerce_walk(
                tm.1,
                0,
                set@,
                TableMethod::Update,
                Map::empty(),
            ) matches Ok(sm) ==> old(self).databases@.contains_key(db@) ==> (!keys_match_cols(
                set@,
                tm.1,
            ) ==> (r matches Err(e) && e@ matches ErrV::ColumnNotFound(k, t) && t == tm.0
                && set@.contains_key(k)))),
            query matches Query::Update { db, table, set, conditions } ==> (table_model(
                old(self).databases@[db@],
                table@,
            ) matches Ok(tm) ==> coerce_walk(
                tm.1,
                0,
                conditions@,
                TableMethod::Unchecked,
                Map::empty(),
            ) matches Err(we2) ==> old(self).databases@.contains_key(db@) ==> ((coerce_walk(
                tm.1,
                0,
                set@,
                TableMethod::Update,
                Map::empty(),
            ) is Ok && keys_match_cols(set@, tm.1)) ==> (r matches Err(e) && e@ == we2))),
            query matches Query::Update { db, table, set, conditions } ==> (table_model(
                old(self).databases@[db@],
                table@,
            ) matches Ok(tm) ==> coerce_walk(
                tm.1,
                0,
                conditions@,
                TableMethod::Unchecked,
                Map::empty(),
            ) matches Ok(cm) ==> old(self).databases@.contains_key(db@) ==> ((coerce_walk(
                tm.1,
                0,
                set@,
                TableMethod::Update,
                Map::empty(),
            ) is Ok && keys_match_cols(set@, tm.1) && !keys_match_cols(conditions@, tm.1)) ==> (r
                matches Err(e) && e@ matches ErrV::ColumnNotFound(k2, t2) && t2 == tm.0
                && conditions@.contains_key(k2)))),
            query matches Query::Update { db, table, set, conditions } ==> (table_model(
                old(self).databases@[db@],
                table@,
            ) matches Ok(tm) ==> old(self).databases@.contains_key(db@) ==> (coerce_walk(
                tm.1,
                0,
                set@,
                TableMethod::Update,
                Map::empty(),
            ) matches Ok(sm) ==> coerce_walk(
                tm.1,
                0,
                conditions@,
                TableMethod::Unchecked,
                Map::empty(),
            ) matches Ok(cm) ==> ((keys_match_cols(set@, tm.1) && keys_match_cols(
                conditions@,
                tm.1,
            )) ==> (r matches Ok(v) && v@.map_values(|cs: ColumnSet| cs@) == update_walk(
                tm.1,
                tm.3,
                0,
                tm.3.len() as int,
                sm,
                cm,
            ).1 && table_model(final(self).databases@[db@], table@) == Ok::<
                (Seq<char>, Seq<(Seq<char>, crate::types::DataType)>, u32, Seq<(bool, Seq<Val>)>),
                ErrV,
            >((tm.0, tm.1, tm.2, update_walk(tm.1, tm.3, 0, tm.3.len() as int, sm, cm).0)))))),
            query matches Query::Delete { db, from, conditions } ==> ((!old(self).databases@.contains_key(db@) ==> (r matches Err(e) && e@ == ErrV::DatabaseNotFound(
                db@,
            ))) && (table_model(old(self).databases@[db@], from@) is Err ==> old(self).databases@.contains_key(db@) ==> (r matches Err(e) && e@ == table_model(
                old(self).databases@[db@],
                from@,
            )->Err_0))),
            query matches Query::Delete { db, from, conditions } ==> (table_model(
                old(self).databases@[db@],
                from@,
            ) matches Ok(tm) ==> coerce_walk(
                tm.1,
                0,
                conditions@,
                TableMethod::Delete,
                Map::empty(),
            ) matches Err(we) ==> old(self).databases@.contains_key(db@) ==> (r matches Err(e)
                && e@ == we)),
            query matches Query::Delete { db, from, conditions } ==> (table_model(
                old(self).databases@[db@],
                from@,
            ) matches Ok(tm) ==> coerce_walk(
                tm.1,
                0,
                conditions@,
                TableMethod::Delete,
                Map::empty(),
            ) matches Ok(cm) ==> old(self).databases@.contains_key(db@) ==> (!keys_match_cols(
                conditions@,
                tm.1,
            ) ==> (r matches Err(e) && e@ matches ErrV::ColumnNotFound(k, t) && t == tm.0
                && conditions@.contains_key(k)))),
            query matches Query::Delete { db, from, conditions } ==> (table_model(
                old(self).databases@[db@],
                from@,
            ) matches Ok(tm) ==> old(self).databases@.contains_key(db@) ==> (coerce_walk(
                tm.1,
                0,
                conditions@,
                TableMethod::Delete,
                Map::empty(),
            ) matches Ok(cm) ==> (keys_match_cols(conditions@, tm.1) ==> (r matches Ok(v)
                && v@.map_values(|cs: ColumnSet| cs@) == select_rows(tm.1, tm.3, 0, cm, Seq::empty())
                && table_model(final(self).databases@[db@], from@) == Ok::<
                (Seq<char>, Seq<(Seq<char>, crate::types::DataType)>, u32, Seq<(bool, Seq<Val>)>),
                ErrV,
            >((tm.0, tm.1, tm.2, tombstone_rows(tm.1, tm.3, cm))))))),
            query matches Query::Create { db, table, columns } ==> ((!old(self).databases@.contains_key(db@) ==> (r matches Err(e) && e@ == ErrV::DatabaseNotFound(
                db@,
            ))) && (old(self).databases@.contains_key(db@) ==> ((r is Ok <==> create_table_check(
                old(self).databases@[db@].schema.tables@,
                table@,
                columns@,
            ) is None) && (r matches Ok(v) ==> v@.len() == 0)))),
            query matches Query::Drop { db, table } ==> ((!old(self).databases@.contains_key(db@)
                ==> (r matches Err(e) && e@ == ErrV::DatabaseNotFound(db@))) && (old(self).databases@.contains_key(db@) ==> ((r is Ok <==> old(self).databases@[db@].schema.tables@.contains_key(table@)) && (r matches Ok(v) ==> v@.len()
                == 0)))),
            query matches Query::CreateDb { name } ==> ((old(self).databases@.contains_key(name@)
                ==> (r matches Err(e) && e@ == ErrV::DatabaseAlreadyExists(name@))) && (!old(self).databases@.contains_key(name@) ==> (r matches Ok(v) && v@.len() == 0 && final(self).databases@.contains_key(name@) && final(self).databases@[name@].schema.tables@ == Map::<Seq<char>, Seq<Column>>::empty() && final(self).databases@[name@].tables@ == Map::<Seq<char>, Table>::empty() && final(self).databases@.remove(name@) == old(self).databases@.remove(name@)))),
            query matches Query::DropDb { name } ==> ((!old(self).databases@.contains_key(name@)
                ==> (r matches Err(e) && e@ == ErrV::DatabaseNotFound(name@))) && ((old(self).databases@.contains_key(name@) && name@ == crate::database::DEFAULT_DB@) ==> (r
                matches Err(e) && e@ == ErrV::CannotDropDefaultDb)) && ((old(self).databases@.contains_key(name@) && name@ != crate::database::DEFAULT_DB@) ==> (r
                matches Ok(v) && v@.len() == 0 && final(self).databases@ == old(self).databases@.remove(name@)))),
            query matches Query::Alter { db, table, rename } ==> ((!old(self).databases@.contains_key(db@) ==> (r matches Err(e) && e@ == ErrV::DatabaseNotFound(
                db@,
            ))) && (r matches Ok(v) ==> v@.len() == 0) && (old(self).databases@.contains_key(db@)
                ==> (r is Ok <==> (old(self).databases@[db@].schema.tables@.contains_key(table@)
                && alter_walk(
                cols_view(old(self).databases@[db@].schema.tables@[table@]),
                0,
                rename@,
                table@,
                Seq::empty(),
            ) is Ok && all_matched(
                rename@,
                cols_view(old(self).databases@[db@].schema.tables@[table@]),
            )))) && ((old(self).databases@.contains_key(db@) && !old(self).databases@[db@].schema.tables@.contains_key(table@)) ==> (r matches Err(e) && e@
                == ErrV::TableNotFound(table@)))),
            query matches Query::Alter { db, table, rename } ==> (alter_walk(
                cols_view(old(self).databases@[db@].schema.tables@[table@]),
                0,
                rename@,
                table@,
                Seq::empty(),
            ) matches Err(we) ==> old(self).databases@.contains_key(db@) ==> old(self).databases@[db@].schema.tables@.contains_key(table@) ==> (r matches Err(e) && e@
                == we)),
            query matches Query::Alter { db, table, rename } ==> (alter_walk(
                cols_view(old(self).databases@[db@].schema.tables@[table@]),
                0,
                rename@,
                table@,
                Seq::empty(),
            ) matches Ok(nc) ==> old(self).databases@.contains_key(db@) ==> old(self).databases@[db@].schema.tables@.contains_key(table@) ==> ((!all_matched(
                rename@,
                cols_view(old(self).databases@[db@].schema.tables@[table@]),
            ) ==> (r matches Err(e) && (e@ matches ErrV::ColumnNotFound(k, t) && t == table@
                && rename@.contains_key(k)))) && (all_matched(
                rename@,
                cols_view(old(self).databases@[db@].schema.tables@[table@]),
            ) ==> (final(self).databases@.contains_key(db@) && final(self).databases@[db@].schema.tables@.contains_key(table@) && cols_view(
                final(self).databases@[db@].schema.tables@[table@],
            ) == nc && final(self).databases@[db@].schema.tables@.remove(table@) == old(self).databases@[db@].schema.tables@.remove(table@))))),
            query matches Query::ShowTables { db } ==> ((!old(self).databases@.contains_key(db@)
                ==> (r matches Err(e) && e@ == ErrV::DatabaseNotFound(db@))) && (old(self).databases@.contains_key(db@) ==> (r matches Ok(v) && v@.len() == 1 && v@[0]@
                == tables_row(old(self).databases@[db@].schema.tables.keys())))),
            query matches Query::Join { db, table1, table2, columns, conditions, join_on } ==> ((
            !old(self).databases@.contains_key(db@) ==> (r matches Err(e) && e@
                == ErrV::DatabaseNotFound(db@))) && (table_model(old(self).databases@[db@], table1@)
                is Err ==> old(self).databases@.contains_key(db@) ==> (r matches Err(e) && e@
                == table_model(old(self).databases@[db@], table1@)->Err_0))),
            query matches Query::Join { db, table1, table2, columns, conditions, join_on }
                ==> (table_model(old(self).databases@[db@], table1@) matches Ok(m1)
                ==> table_model(old(self).databases@[db@], table2@) matches Err(te2) ==> old(self).databases@.contains_key(db@) ==> (r matches Err(e) && e@ == te2)),
            query matches Query::Join { db, table1, table2, columns, conditions, join_on }
                ==> (table_model(old(self).databases@[db@], table1@) matches Ok(m1)
                ==> table_model(old(self).databases@[db@], table2@) matches Ok(m2) ==> old(self).databases@.contains_key(db@) ==> ((join_res(
                m1.0,
                m1.1,
                m1.3,
                m2.0,
                m2.1,
                m2.3,
                pair_seq(join_on),
                conditions.entry_seq(),
                proj_view(columns@),
            ) is Err ==> (r matches Err(e) && e@ == join_res(
                m1.0,
                m1.1,
                m1.3,
                m2.0,
                m2.1,
                m2.3,
                pair_seq(join_on),
                conditions.entry_seq(),
                proj_view(columns@),
            )->Err_0)) && (join_res(
                m1.0,
                m1.1,
                m1.3,
                m2.0,
                m2.1,
                m2.3,
                pair_seq(join_on),
                conditions.entry_seq(),
                proj_view(columns@),
            ) is Ok ==> (r matches Ok(v) && v@.map_values(|cs: ColumnSet| cs@) == join_res(
                m1.0,
                m1.1,
                m1.3,
                m2.0,
                m2.1,
                m2.3,
                pair_seq(join_on),
                conditions.entry_seq(),
                proj_view(columns@),
            )->Ok_0)))),
    {
        match query {
            Query::Select { db, from, columns, conditions } => {
                let mut d = match self.take_db(db.as_str()) {
                    Err(e) => {
                        return Err(e);
                    },
                    Ok(d) => d,
                };
                let t = match d.get_table(from.as_str()) {
                    Err(e) => {
                        self.put_db(db, d);
                        return Err(e);
                    },
                    Ok(t) => t,
                };
                let res = t.select(columns, conditions);
                d.put_table(from, t);
                self.put_db(db, d);
                res
            },
            Query::Insert { db, into, values } => {
                let mut d = match self.take_db(db.as_str()) {
                    Err(e) => {
                        return Err(e);
                    },
                    Ok(d) => d,
                };
                let mut t = match d.get_table(into.as_str()) {
                    Err(e) => {
                        self.put_db(db, d);
                        return Err(e);
                    },
                    Ok(t) => t,
                };
                let res = t.insert(values);
                d.put_table(into, t);
                self.put_db(db, d);
                match res {
                    Ok(cs) => {
                        let mut v: Vec<ColumnSet> = Vec::new();
                        v.push(cs);
                        Ok(v)
                    },
                    Err(e) => Err(e),
                }
            },
            Query::Update { db, table, set, conditions } => {
                let mut d = match self.take_db(db.as_str()) {
                    Err(e) => {
                        return Err(e);
                    },
                    Ok(d) => d,
                };
                let mut t = match d.get_table(table.as_str()) {
                    Err(e) => {
                        self.put_db(db, d);
                        return Err(e);
                    },
                    Ok(t) => t,
                };
                let res = t.update(set, conditions);
                d.put_table(table, t);
                self.put_db(db, d);
                res
            },
            Query::Delete { db, from, conditions } => {
                let mut d = match self.take_db(db.as_str()) {
                    Err(e) => {
                        return Err(e);
                    },
                    Ok(d) => d,
                };
                let mut t = match d.get_table(from.as_str()) {
                    Err(e) => {
                        self.put_db(db, d);
                        return Err(e);
                    },
                    Ok(t) => t,
                };
                let res = t.delete(conditions);
                d.put_table(from, t);
                self.put_db(db, d);
                res
            },
            Query::Create { db, table, columns } => {
                match self.create_table(db, table, columns) {
                    Ok(u) => Ok(Vec::new()),
                    Err(e) => Err(e),
                }
            },
            Query::Drop { db, table } => {
                match self.drop_table(db, table) {
                    Ok(u) => Ok(Vec::new()),
                    Err(e) => Err(e),
                }
            },
            Query::CreateDb { name } => {
                match self.create_db(name) {
                    Ok(u) => Ok(Vec::new()),
                    Err(e) => Err(e),
                }
            },
            Query::DropDb { name } => {
                match self.drop_db(name) {
                    Ok(u) => Ok(Vec::new()),
                    Err(e) => Err(e),
                }
            },
            Query::Alter { db, table, rename } => {
                match self.alter_table(db, table, rename) {
                    Ok(u) => Ok(Vec::new()),
                    Err(e) => Err(e),
                }
            },
            Query::ShowTables { db } => {
                let d = match self.take_db(db.as_str()) {
                    Err(e) => {
                        return Err(e);
                    },
                    Ok(d) => d,
                };
                let names = d.get_tables();
                let ghost keys = d.schema.tables.keys();
                let mut cs: ColumnSet = StrMap::new();
                let ghost pairs = Seq::new(keys.len(), |i: int| (keys[i], Val::Str(Seq::empty())));
                let n = names.len();
                let mut i: usize = 0;
                proof {
                    assert(cs@ =~= crate::strmap::assoc_map(pairs.take(0)));
                }
                while i < n
                    invariant
                        i <= n == names@.len(),
                        n == keys.len(),
                        keys == d.schema.tables.keys(),
                        forall|j: int| 0 <= j < n ==> (#[trigger] names@[j])@ == keys[j],
                        pairs == Seq::new(keys.len(), |x: int| (keys[x], Val::Str(Seq::empty()))),
                        cs@ == crate::strmap::assoc_map(pairs.take(i as int)),
                    decreases n - i,
                {
                    proof {
                        assert(pairs.take(i as int + 1).drop_last() =~= pairs.take(i as int));
                    }
                    cs.insert(names[i].clone(), TypedValue::String(String::new()));
                    i = i + 1;
                }
                let mut v: Vec<ColumnSet> = Vec::new();
                proof {
                    assert(pairs.take(n as int) =~= pairs);
                }
                v.push(cs);
                self.put_db(db, d);
                Ok(v)
            },
            Query::Join { db, table1, table2, columns, conditions, join_on } => {
                self.join(db, table1, table2, columns, conditions, join_on)
            },
        }
    }
}

} // verus!
