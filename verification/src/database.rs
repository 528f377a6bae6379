//! One logical database: its schema and its cache of opened tables. A table
//! is opened on first reference and stays cached; the cache is the working
//! copy of the table's contents, and persistence of the images is the
//! caller's charge.

use vstd::prelude::*;

use crate::schema::{cols_view, create_table_check, sort_cols, Column, Columns, Schema};
use crate::strmap::{distinct_keys, StrMap};
use crate::table::Table;
use crate::types::{ErrV, PoorlyError, Val};

verus! {

/// The reserved default database, which cannot be dropped.
pub const DEFAULT_DB: &'static str = "poorly";

pub struct Database {
    pub name: String,
    pub schema: Schema,
    pub tables: StrMap<Table>,
}

impl Database {
    /// A database over a loaded schema, with no table opened yet.
    pub fn new(name: String, schema: Schema) -> (r: Database)
        ensures
            r.name@ == name@,
            r.schema == schema,
            r.tables@ == Map::<Seq<char>, <Table as View>::V>::empty(),
            r.tables.keys() == Seq::<Seq<char>>::empty(),
    {
        Database { name, schema, tables: StrMap::new() }
    }

    /// The declared table names, whether or not each is opened.
    pub fn get_tables(&self) -> (r: Vec<String>)
        ensures
            r@.map_values(|s: String| s@) == self.schema.tables.keys(),
    {
        let mut out: Vec<String> = Vec::new();
        let n = self.schema.tables.len();
        let mut i: usize = 0;
        while i < n
            invariant
                i <= n == self.schema.tables.keys().len(),
                out@.len() == i,
                forall|j: int|
                    0 <= j < i ==> (#[trigger] out@[j])@ == self.schema.tables.keys()[j],
            decreases n - i,
        {
            out.push(self.schema.tables.key_at(i).clone());
            i = i + 1;
        }
        proof {
            assert(out@.map_values(|s: String| s@) =~= self.schema.tables.keys());
        }
        out
    }

    /// Takes the table out of the cache for an operation, opening a fresh
    /// empty one on first reference; `put_table` gives it back. A table not
    /// declared in the schema is a table-not-found failure; duplicate column
    /// names in a declaration mean a corrupt schema.
    pub fn get_table(&mut self, table_name: &str) -> (r: Result<Table, PoorlyError>)
        ensures
            final(self).name == old(self).name && final(self).schema == old(self).schema,
            !old(self).schema.tables@.contains_key(table_name@) ==> (r matches Err(e) && e@
                == ErrV::TableNotFound(table_name@) && *final(self) == *old(self)),
            old(self).schema.tables@.contains_key(table_name@) && old(self).tables@.contains_key(
                table_name@,
            ) ==> (r matches Ok(t) && t == old(self).tables@[table_name@] && final(self).tables@
                == old(self).tables@.remove(table_name@)),
            old(self).schema.tables@.contains_key(table_name@) && !old(self).tables@.contains_key(
                table_name@,
            ) && distinct_keys(cols_view(old(self).schema.tables@[table_name@])) ==> (r matches Ok(t) && t.spec_name() == table_name@ && t.spec_columns() == cols_view(
                old(self).schema.tables@[table_name@],
            ) && t.spec_serial() == 0 && t.spec_rows() == Seq::<(bool, Seq<Val>)>::empty() && final(self).tables@ == old(self).tables@),
            old(self).schema.tables@.contains_key(table_name@) && !old(self).tables@.contains_key(
                table_name@,
            ) && !distinct_keys(cols_view(old(self).schema.tables@[table_name@])) ==> (r
                matches Err(e) && e@ == ErrV::IoError(
                "table declaration holds a duplicate column name"@,
            ) && *final(self) == *old(self)),
    {
        if !self.schema.tables.contains_key(table_name) {
            return Err(PoorlyError::TableNotFound(table_name.to_owned()));
        }
        match self.tables.remove(table_name) {
            Some(t) => Ok(t),
            Option::None => {
                let decl = match self.schema.tables.get(table_name) {
                    Some(c) => c,
                    Option::None => {
                        proof {
                            assert(false);
                        }
                        return Err(PoorlyError::TableNotFound(table_name.to_owned()));
                    },
                };
                let ghost dv = cols_view(decl@);
                // copy the declaration and check its names are distinct
                let mut cols: Columns = Vec::new();
                let n = decl.len();
                let mut i: usize = 0;
                while i < n
                    invariant
                        i <= n == decl@.len(),
                        dv == cols_view(decl@),
                        *self == *old(self),
                        old(self).schema.tables@.contains_key(table_name@),
                        !old(self).tables@.contains_key(table_name@),
                        dv == cols_view(old(self).schema.tables@[table_name@]),
                        cols@.len() == i,
                        forall|j: int| 0 <= j < i ==> #[trigger] cols_view(cols@)[j] == dv[j],
                        forall|a: int, b: int|
                            0 <= a < b < i ==> (#[trigger] dv[a]).0 != (#[trigger] dv[b]).0,
                    decreases n - i,
                {
                    proof {
                        assert(dv[i as int] == (decl@[i as int].0@, decl@[i as int].1));
                    }
                    let mut dup = false;
                    let mut k: usize = 0;
                    while k < i
                        invariant
                            k <= i < n == decl@.len(),
                            dv == cols_view(decl@),
                            dup == exists|y: int| 0 <= y < k && #[trigger] dv[y].0 == dv[i as int].0,
                        decreases i - k,
                    {
                        proof {
                            assert(dv[k as int] == (decl@[k as int].0@, decl@[k as int].1));
                            assert(dv[i as int] == (decl@[i as int].0@, decl@[i as int].1));
                        }
                        let same = crate::text::str_eq(decl[k].0.as_str(), decl[i].0.as_str());
                        proof {
                            assert(same == (dv[k as int].0 == dv[i as int].0));
                            if same {
                                assert(exists|y: int|
                                    0 <= y < k + 1 && #[trigger] dv[y].0 == dv[i as int].0);
                            }
                        }
                        if same {
                            dup = true;
                        }
                        k = k + 1;
                    }
                    if dup {
                        proof {
                            let y = choose|y: int|
                                0 <= y < i && #[trigger] dv[y].0 == dv[i as int].0;
                            assert(!distinct_keys(dv));
                        }
                        return Err(
                            PoorlyError::IoError(
                                "table declaration holds a duplicate column name".to_owned(),
                            ),
                        );
                    }
                    let nm = decl[i].0.clone();
                    let dt = decl[i].1;
                    let ghost cols0 = cols@;
                    cols.push((nm, dt));
                    proof {
                        assert forall|j: int| 0 <= j < i + 1 implies #[trigger] cols_view(cols@)[j]
                            == dv[j] by {
                            if j < i {
                                assert(cols@[j] == cols0[j]);
                                assert(cols_view(cols0)[j] == dv[j]);
                            } else {
                                assert(cols_view(cols@)[j] == (cols@[j].0@, cols@[j].1));
                            }
                        }
                        assert(forall|y: int| 0 <= y < i ==> (#[trigger] dv[y]).0 != dv[i as int].0);
                    }
                    i = i + 1;
                }
                proof {
                    assert(cols_view(cols@) =~= dv);
                    assert forall|a: int, b: int|
                        0 <= a < dv.len() && 0 <= b < dv.len() && a != b implies (
                    #[trigger] dv[a]).0 != (#[trigger] dv[b]).0 by {
                        if a < b {
                            assert(dv[a].0 != dv[b].0);
                        } else {
                            assert(dv[b].0 != dv[a].0);
                        }
                    }
                    assert(distinct_keys(cols_view(cols@)));
                }
                Ok(Table::new(table_name.to_owned(), cols))
            },
        }
    }

    /// Gives a table back to the cache under the name it was taken from.
    pub fn put_table(&mut self, key: String, table: Table) -> (u: ())
        ensures
            final(self).tables@ == old(self).tables@.insert(key@, table),
            final(self).name == old(self).name && final(self).schema == old(self).schema,
    {
        self.tables.insert(key, table);
    }
}

impl Database {
    /// Declares a table in this database's schema.
    pub fn create_table(&mut self, table_name: String, columns: Columns) -> (r: Result<
        (),
        PoorlyError,
    >)
        ensures
            r is Ok <==> create_table_check(
                old(self).schema.tables@,
                table_name@,
                columns@,
            ) is None,
            r matches Err(e) ==> Some(e@) == create_table_check(
                old(self).schema.tables@,
                table_name@,
                columns@,
            ) && *final(self) == *old(self),
            r is Ok ==> final(self).schema.tables@ == old(self).schema.tables@.insert(
                table_name@,
                sort_cols(columns@),
            ) && final(self).tables@ == old(self).tables@,
            final(self).name == old(self).name,
    {
        self.schema.create_table(table_name, columns)
    }

    /// Removes a table: its schema entry and its cached contents.
    pub fn drop_table(&mut self, table_name: String) -> (r: Result<(), PoorlyError>)
        ensures
            r is Ok <==> old(self).schema.tables@.contains_key(table_name@),
            r matches Err(e) ==> e@ == ErrV::TableNotFound(table_name@) && *final(self) == *old(
                self,
            ),
            r is Ok ==> final(self).schema.tables@ == old(self).schema.tables@.remove(table_name@)
                && final(self).tables@ == old(self).tables@.remove(table_name@),
            final(self).name == old(self).name,
    {
        match self.schema.drop_table(table_name.clone()) {
            Err(e) => Err(e),
            Ok(u) => {
                self.tables.remove(table_name.as_str());
                Ok(())
            },
        }
    }
}

} // verus!
