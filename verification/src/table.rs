//! The table storage engine: rows in insertion order with tombstone deletes
//! and a persisted auto-increment counter, scanned in full for every
//! operation.
//!
//! A table's durable image is `[4-byte little-endian next-serial][row]*`,
//! each row `[1-byte tombstone flag][encoded values in column order]`; a
//! tombstone of 1 marks a logically deleted row that stays physically
//! present. `open` parses such an image and `to_bytes` writes one.

use vstd::prelude::*;

use joinable::JoinableGrouped;

use crate::codec::{decode_value, encode_value, value_from_bytes, value_to_bytes};
use vstd::bytes::{spec_u32_from_le_bytes, spec_u32_to_le_bytes, u32_from_le_bytes, u32_to_le_bytes};
use crate::schema::{cols_view, Columns};
use crate::strmap::{assoc_map, distinct_keys, insert_entries, lemma_assoc_map_contains, lemma_assoc_map_index, lemma_insert_entries_union, StrMap};
use crate::text::lex_cmp;
use vstd::string::StringExecFns;
use crate::types::{
    coerce_spec, validate_spec, DataType, ErrV, PoorlyError, TableMethod, TypedValue, Val,
};

verus! {

/// A map from column name to value: the uniform shape for insert payloads,
/// update sets, filters and returned rows.
pub type ColumnSet = StrMap<TypedValue>;

/// One stored row: its tombstone flag and its values in column order.
pub struct Row {
    pub deleted: bool,
    pub values: Vec<TypedValue>,
}

/// The mathematical image of a row.
pub open spec fn row_view(r: Row) -> (bool, Seq<Val>) {
    (r.deleted, r.values@.map_values(|v: TypedValue| v@))
}

/// The row as the map callers see it: column names to values.
pub open spec fn row_map(cols: Seq<(Seq<char>, DataType)>, vals: Seq<Val>) -> Map<Seq<char>, Val> {
    assoc_map(Seq::new(cols.len(), |i: int| (cols[i].0, vals[i])))
}

/// Whether a row satisfies every equality condition.
pub open spec fn cond_match(row: Map<Seq<char>, Val>, conds: Map<Seq<char>, Val>) -> bool {
    forall|k: Seq<char>|
        #[trigger] conds.contains_key(k) ==> row.contains_key(k) && row[k] == conds[k]
}

pub struct Table {
    pub name: String,
    columns: Columns,
    nullables: Vec<bool>,
    serial: u32,
    rows: Vec<Row>,
}

impl View for Table {
    type V = Table;

    open spec fn view(&self) -> Table {
        *self
    }
}

impl Table {
    /// The table's name.
    pub closed spec fn spec_name(self) -> Seq<char> {
        self.name@
    }

    /// The declared columns, in their permanent order.
    pub closed spec fn spec_columns(self) -> Seq<(Seq<char>, DataType)> {
        cols_view(self.columns@)
    }

    /// The next-serial counter.
    pub closed spec fn spec_serial(self) -> u32 {
        self.serial
    }

    /// The stored rows, in file order: tombstone flag and values.
    pub closed spec fn spec_rows(self) -> Seq<(bool, Seq<Val>)> {
        self.rows@.map_values(|r: Row| row_view(r))
    }

    /// Column names are distinct and every row has one value per column.
    #[verifier::type_invariant]
    closed spec fn wf(self) -> bool {
        &&& distinct_keys(cols_view(self.columns@))
        &&& self.nullables@.len() == self.columns@.len()
        &&& forall|i: int|
            0 <= i < self.columns@.len() ==> (#[trigger] self.nullables@[i]) == (
            self.columns@[i].1 == DataType::Serial)
        &&& forall|i: int|
            0 <= i < self.rows@.len() ==> (#[trigger] self.rows@[i]).values@.len()
                == self.columns@.len()
    }

    /// Facts every caller may rely on: distinct column names, and row
    /// shapes that match the columns.
    pub proof fn lemma_shape(self)
        requires
            self.wf_pub(),
        ensures
            distinct_keys(self.spec_columns()),
            forall|i: int|
                0 <= i < self.spec_rows().len() ==> (#[trigger] self.spec_rows()[i]).1.len()
                    == self.spec_columns().len(),
    {
        assert forall|i: int| 0 <= i < self.spec_rows().len() implies (
        #[trigger] self.spec_rows()[i]).1.len() == self.spec_columns().len() by {
            assert(self.spec_rows()[i] == row_view(self.rows@[i]));
        }
    }

    /// The invariant under a public name, for use with `use_type_invariant`.
    pub closed spec fn wf_pub(self) -> bool {
        self.wf()
    }

    /// The number of declared columns.
    pub fn columns_len(&self) -> (r: usize)
        ensures
            r == self.spec_columns().len(),
    {
        self.columns.len()
    }

    /// The table's name, for callers outside this module.
    pub fn get_name(&self) -> (r: &String)
        ensures
            r@ == self.spec_name(),
    {
        &self.name
    }

    /// Replaces the declared columns after a rename: the count must be kept
    /// and the new names distinct, so every stored row still lines up.
    pub fn set_columns(&mut self, columns: Columns)
        requires
            distinct_keys(cols_view(columns@)),
            columns@.len() == old(self).spec_columns().len(),
        ensures
            final(self).spec_name() == old(self).spec_name(),
            final(self).spec_serial() == old(self).spec_serial(),
            final(self).spec_rows() == old(self).spec_rows(),
            final(self).spec_columns() == cols_view(columns@),
    {
        proof {
            use_type_invariant(&*self);
            assert(cols_view(columns@).len() == columns@.len());
        }
        let name_copy = self.name.clone();
        let mut fresh = Table::new(name_copy, columns);
        core::mem::swap(self, &mut fresh);
        proof {
            use_type_invariant(&fresh);
            use_type_invariant(&*self);
        }
        self.serial = fresh.serial;
        core::mem::swap(&mut self.rows, &mut fresh.rows);
        proof {
            assert(self.spec_rows() == old(self).spec_rows());
        }
    }

    /// An empty table over the given columns, with the counter at zero.
    /// Column names are distinct within a table, the schema invariant.
    pub fn new(name: String, columns: Columns) -> (r: Table)
        requires
            distinct_keys(cols_view(columns@)),
        ensures
            r.spec_name() == name@,
            r.spec_columns() == cols_view(columns@),
            r.spec_serial() == 0,
            r.spec_rows() == Seq::<(bool, Seq<Val>)>::empty(),
    {
        let mut nullables: Vec<bool> = Vec::new();
        let n = columns.len();
        let mut i: usize = 0;
        while i < n
            invariant
                i <= n == columns@.len(),
                nullables@.len() == i,
                forall|j: int|
                    0 <= j < i ==> (#[trigger] nullables@[j]) == (columns@[j].1
                        == DataType::Serial),
            decreases n - i,
        {
            nullables.push(columns[i].1 == DataType::Serial);
            i = i + 1;
        }
        let r = Table { name, columns, nullables, serial: 0, rows: Vec::new() };
        proof {
            assert(r.spec_rows() =~= Seq::<(bool, Seq<Val>)>::empty());
        }
        r
    }
}

/// The serial-column restriction: writes to a Serial column are refused for
/// insert and update payloads.
pub open spec fn restricted(dt: DataType, method: TableMethod) -> bool {
    dt == DataType::Serial && (method == TableMethod::Insert || method == TableMethod::Update)
}

/// The walk `check_and_coerce` takes over the columns: each value supplied
/// for a column is checked against the serial restriction, coerced to the
/// column's type and validated.
pub open spec fn coerce_walk(
    cols: Seq<(Seq<char>, DataType)>,
    i: int,
    set: Map<Seq<char>, Val>,
    method: TableMethod,
    acc: Map<Seq<char>, Val>,
) -> Result<Map<Seq<char>, Val>, ErrV>
    decreases cols.len() - i,
{
    if i < 0 || i >= cols.len() {
        Ok(acc)
    } else if !set.contains_key(cols[i].0) {
        coerce_walk(cols, i + 1, set, method, acc)
    } else if restricted(cols[i].1, method) {
        Err(ErrV::InvalidOperation("Cannot insert to or update serial column"@))
    } else {
        match coerce_spec(set[cols[i].0], cols[i].1) {
            None => Err(ErrV::InvalidValue(set[cols[i].0], cols[i].1)),
            Some(v) => if !validate_spec(v) {
                Err(ErrV::InvalidEmail)
            } else {
                coerce_walk(cols, i + 1, set, method, acc.insert(cols[i].0, v))
            },
        }
    }
}

/// Whether every key of the set names some column.
pub open spec fn keys_match_cols(
    set: Map<Seq<char>, Val>,
    cols: Seq<(Seq<char>, DataType)>,
) -> bool {
    forall|k: Seq<char>|
        set.contains_key(k) ==> exists|j: int| 0 <= j < cols.len() && (#[trigger] cols[j]).0 == k
}

impl Table {
    /// Checks a caller-supplied column set against the declared columns:
    /// unknown columns are refused, the serial restriction applies, and each
    /// value is coerced to its column's type and validated.
    pub fn check_and_coerce(&self, set: &ColumnSet, method: TableMethod) -> (r: Result<
        ColumnSet,
        PoorlyError,
    >)
        ensures
            coerce_walk(self.spec_columns(), 0, set@, method, Map::empty()) matches Err(we) ==> (
            r matches Err(e) && e@ == we),
            coerce_walk(self.spec_columns(), 0, set@, method, Map::empty()) matches Ok(m) ==> ((
            keys_match_cols(set@, self.spec_columns()) ==> (r matches Ok(cs) && cs@ == m)) && (
            !keys_match_cols(set@, self.spec_columns()) ==> (r matches Err(e) && (e@
                matches ErrV::ColumnNotFound(k, t) && t == self.spec_name() && set@.contains_key(k)
                && !exists|j: int|
                0 <= j < self.spec_columns().len() && (#[trigger] self.spec_columns()[j]).0
                    == k)))),
    {
        let ghost cv = self.spec_columns();
        let mut out: ColumnSet = StrMap::new();
        let n = self.columns.len();
        let mut i: usize = 0;
        while i < n
            invariant
                i <= n == self.columns@.len(),
                cv == self.spec_columns(),
                coerce_walk(cv, 0, set@, method, Map::empty()) == coerce_walk(
                    cv,
                    i as int,
                    set@,
                    method,
                    out@,
                ),
            decreases n - i,
        {
            proof {
                assert(cv[i as int] == (self.columns@[i as int].0@, self.columns@[i as int].1));
            }
            let cname = &self.columns[i].0;
            let dt = self.columns[i].1;
            match set.get(cname.as_str()) {
                None => {},
                Some(v) => {
                    let is_write = match method {
                        TableMethod::Insert => true,
                        TableMethod::Update => true,
                        _ => false,
                    };
                    if is_write && dt == DataType::Serial {
                        proof {
                            assert(restricted(cv[i as int].1, method));
                        }
                        return Err(
                            PoorlyError::InvalidOperation(
                                "Cannot insert to or update serial column".to_owned(),
                            ),
                        );
                    }
                    proof {
                        assert(!restricted(cv[i as int].1, method));
                    }
                    let vv = v.clone();
                    match vv.coerce(dt) {
                        Err(e) => {
                            return Err(e);
                        },
                        Ok(w) => {
                            match w.validate() {
                                Err(e2) => {
                                    return Err(e2);
                                },
                                Ok(u) => {
                                    out.insert(cname.clone(), w);
                                },
                            }
                        },
                    }
                },
            }
            i = i + 1;
        }
        // every supplied key must name some column
        let kn = set.len();
        let mut q: usize = 0;
        while q < kn
            invariant
                q <= kn == set.keys().len(),
                cv == self.spec_columns(),
                n == self.columns@.len(),
                coerce_walk(cv, 0, set@, method, Map::empty()) == Ok::<
                    Map<Seq<char>, Val>,
                    ErrV,
                >(out@),
                forall|x: int|
                    0 <= x < q ==> exists|j: int|
                        0 <= j < cv.len() && (#[trigger] cv[j]).0 == #[trigger] set.keys()[x],
            decreases kn - q,
        {
            let key = set.key_at(q);
            let mut hit = false;
            let mut j: usize = 0;
            while j < n
                invariant
                    j <= n == self.columns@.len(),
                    cv == self.spec_columns(),
                    hit == exists|y: int| 0 <= y < j && (#[trigger] cv[y]).0 == key@,
                decreases n - j,
            {
                proof {
                    assert(cv[j as int].0 == self.columns@[j as int].0@);
                }
                if crate::text::str_eq(self.columns[j].0.as_str(), key) {
                    hit = true;
                }
                j = j + 1;
            }
            if !hit {
                let missing = key.clone();
                proof {
                    use_type_invariant(set);
                    set.lemma_model();
                    assert(set@.contains_key(missing@));
                    assert(!keys_match_cols(set@, cv));
                }
                return Err(PoorlyError::ColumnNotFound(missing, self.name.clone()));
            }
            q = q + 1;
        }
        proof {
            use_type_invariant(set);
            set.lemma_model();
            assert forall|kk: Seq<char>| set@.contains_key(kk) implies exists|j: int|
                0 <= j < cv.len() && (#[trigger] cv[j]).0 == kk by {
                let x = choose|x: int|
                    0 <= x < set.keys().len() && #[trigger] set.keys()[x] == kk;
                assert(exists|j: int| 0 <= j < cv.len() && (#[trigger] cv[j]).0 == set.keys()[x]);
            }
            assert(keys_match_cols(set@, cv));
        }
        Ok(out)
    }
}

/// The first column, in order, that an insert payload fails to supply;
/// serial columns are engine-assigned and never required.
pub open spec fn first_missing(
    cols: Seq<(Seq<char>, DataType)>,
    i: int,
    m: Map<Seq<char>, Val>,
) -> Option<Seq<char>>
    decreases cols.len() - i,
{
    if i < 0 || i >= cols.len() {
        None
    } else if cols[i].1 != DataType::Serial && !m.contains_key(cols[i].0) {
        Some(cols[i].0)
    } else {
        first_missing(cols, i + 1, m)
    }
}

/// The values of a freshly inserted row, in column order: the current
/// next-serial value for serial columns, the coerced payload elsewhere.
pub open spec fn insert_vals(
    cols: Seq<(Seq<char>, DataType)>,
    m: Map<Seq<char>, Val>,
    ser: u32,
) -> Seq<Val> {
    Seq::new(
        cols.len(),
        |i: int|
            if cols[i].1 == DataType::Serial {
                Val::Serial(ser)
            } else {
                m[cols[i].0]
            },
    )
}

/// What a checked, complete insert does: the coerced-and-assigned row is
/// appended live, the counter moves up, and the full row image is returned.
pub open spec fn insert_outcome(
    cols: Seq<(Seq<char>, DataType)>,
    name: Seq<char>,
    rows: Seq<(bool, Seq<Val>)>,
    ser: u32,
    m: Map<Seq<char>, Val>,
) -> Result<(Seq<(bool, Seq<Val>)>, u32, Map<Seq<char>, Val>), ErrV> {
    match first_missing(cols, 0, m) {
        Some(c) => Err(ErrV::IncompleteData(c, name)),
        None => if ser == u32::MAX {
            Err(ErrV::InvalidOperation("serial counter exhausted"@))
        } else {
            Ok(
                (
                    rows.push((false, insert_vals(cols, m, ser))),
                    (ser + 1) as u32,
                    row_map(cols, insert_vals(cols, m, ser)),
                ),
            )
        },
    }
}

impl Table {
    /// Inserts a row: the payload is checked and coerced, serial columns get
    /// the counter's value, every other column must be supplied, and the new
    /// row is appended live at the end.
    pub fn insert(&mut self, values: ColumnSet) -> (r: Result<ColumnSet, PoorlyError>)
        ensures
            final(self).spec_name() == old(self).spec_name() && final(self).spec_columns() == old(self).spec_columns(),
            coerce_walk(old(self).spec_columns(), 0, values@, TableMethod::Insert, Map::empty())
                matches Err(we) ==> (r matches Err(e) && e@ == we && *final(self) == *old(self)),
            coerce_walk(old(self).spec_columns(), 0, values@, TableMethod::Insert, Map::empty())
                matches Ok(m) ==> ((!keys_match_cols(values@, old(self).spec_columns()) ==> (r
                matches Err(e) && e@ matches ErrV::ColumnNotFound(k, t) && t == old(self).spec_name() && values@.contains_key(k) && *final(self) == *old(self))) && (
            keys_match_cols(values@, old(self).spec_columns()) ==> ((insert_outcome(
                old(self).spec_columns(),
                old(self).spec_name(),
                old(self).spec_rows(),
                old(self).spec_serial(),
                m,
            ) is Err ==> (r matches Err(e) && e@ == insert_outcome(
                old(self).spec_columns(),
                old(self).spec_name(),
                old(self).spec_rows(),
                old(self).spec_serial(),
                m,
            )->Err_0 && *final(self) == *old(self))) && (insert_outcome(
                old(self).spec_columns(),
                old(self).spec_name(),
                old(self).spec_rows(),
                old(self).spec_serial(),
                m,
            ) is Ok ==> (r matches Ok(cs) && cs@ == insert_outcome(
                old(self).spec_columns(),
                old(self).spec_name(),
                old(self).spec_rows(),
                old(self).spec_serial(),
                m,
            )->Ok_0.2 && final(self).spec_rows() == insert_outcome(
                old(self).spec_columns(),
                old(self).spec_name(),
                old(self).spec_rows(),
                old(self).spec_serial(),
                m,
            )->Ok_0.0 && final(self).spec_serial() == insert_outcome(
                old(self).spec_columns(),
                old(self).spec_name(),
                old(self).spec_rows(),
                old(self).spec_serial(),
                m,
            )->Ok_0.1))))),
    {
        proof {
            use_type_invariant(&*self);
        }
        let ghost cv = self.spec_columns();
        let m = match self.check_and_coerce(&values, TableMethod::Insert) {
            Err(e) => {
                return Err(e);
            },
            Ok(m) => m,
        };
        let ghost mm = m@;
        proof {
            let w = coerce_walk(cv, 0, values@, TableMethod::Insert, Map::empty());
            if w is Err {
                assert(false);
            }
            if !keys_match_cols(values@, cv) {
                assert(false);
            }
            assert(mm == w->Ok_0);
        }
        let mut rowvals: Vec<TypedValue> = Vec::new();
        let n = self.columns.len();
        let mut i: usize = 0;
        while i < n
            invariant
                i <= n == self.columns@.len(),
                *self == *old(self),
                cv == self.spec_columns(),
                coerce_walk(cv, 0, values@, TableMethod::Insert, Map::empty()) == Ok::<
                    Map<Seq<char>, Val>,
                    ErrV,
                >(mm),
                keys_match_cols(values@, cv),
                mm == m@,
                rowvals@.len() == i,
                first_missing(cv, 0, mm) == first_missing(cv, i as int, mm),
                forall|j: int|
                    0 <= j < i ==> (#[trigger] rowvals@[j])@ == (if cv[j].1 == DataType::Serial {
                        Val::Serial(old(self).spec_serial())
                    } else {
                        mm[cv[j].0]
                    }),
            decreases n - i,
        {
            proof {
                assert(cv[i as int] == (self.columns@[i as int].0@, self.columns@[i as int].1));
            }
            let dt = self.columns[i].1;
            if dt == DataType::Serial {
                rowvals.push(TypedValue::Serial(self.serial));
            } else {
                match m.get(self.columns[i].0.as_str()) {
                    None => {
                        proof {
                            assert(cv.len() == self.columns@.len());
                            assert(cv[i as int].1 != DataType::Serial);
                            assert(!mm.contains_key(cv[i as int].0));
                            assert(first_missing(cv, i as int, mm) == Some(cv[i as int].0));
                        }
                        return Err(
                            PoorlyError::IncompleteData(
                                self.columns[i].0.clone(),
                                self.name.clone(),
                            ),
                        );
                    },
                    Some(v) => {
                        rowvals.push(v.clone());
                    },
                }
            }
            proof {
                assert(first_missing(cv, i as int, mm) == first_missing(cv, i as int + 1, mm));
            }
            i = i + 1;
        }
        if self.serial == u32::MAX {
            // the 32-bit counter has no next value to assign
            return Err(PoorlyError::InvalidOperation("serial counter exhausted".to_owned()));
        }
        let ghost vals = rowvals@.map_values(|v: TypedValue| v@);
        proof {
            assert(vals =~= insert_vals(cv, mm, old(self).spec_serial()));
        }
        // the returned image: every column's stored value, in column order
        let mut out: ColumnSet = StrMap::new();
        let ghost pairs = Seq::new(cv.len(), |j: int| (cv[j].0, vals[j]));
        let mut k: usize = 0;
        proof {
            assert(out@ =~= assoc_map(pairs.take(0)));
        }
        while k < n
            invariant
                k <= n == self.columns@.len(),
                *self == *old(self),
                cv == self.spec_columns(),
                coerce_walk(cv, 0, values@, TableMethod::Insert, Map::empty()) == Ok::<
                    Map<Seq<char>, Val>,
                    ErrV,
                >(mm),
                keys_match_cols(values@, cv),
                first_missing(cv, 0, mm) is None,
                vals == insert_vals(cv, mm, old(self).spec_serial()),
                old(self).spec_serial() < u32::MAX,
                rowvals@.len() == n,
                vals == rowvals@.map_values(|v: TypedValue| v@),
                pairs == Seq::new(cv.len(), |j: int| (cv[j].0, vals[j])),
                out@ == assoc_map(pairs.take(k as int)),
            decreases n - k,
        {
            proof {
                assert(cv[k as int] == (self.columns@[k as int].0@, self.columns@[k as int].1));
                assert(pairs.take(k as int + 1).drop_last() =~= pairs.take(k as int));
            }
            out.insert(self.columns[k].0.clone(), rowvals[k].clone());
            k = k + 1;
        }
        proof {
            assert(pairs.take(n as int) =~= pairs);
            assert(out@ == row_map(cv, vals));
        }
        let new_serial = self.serial + 1;
        self.serial = new_serial;
        let mut rows: Vec<Row> = Vec::new();
        core::mem::swap(&mut rows, &mut self.rows);
        rows.push(Row { deleted: false, values: rowvals });
        proof {
            use_type_invariant(&*self);
        }
        self.rows = rows;
        proof {
            assert(self.spec_rows() =~= old(self).spec_rows().push((false, vals)));
        }
        Ok(out)
    }
}

/// With distinct column names, the row map reads back exactly the stored
/// values.
pub proof fn lemma_row_map(cols: Seq<(Seq<char>, DataType)>, vals: Seq<Val>)
    requires
        distinct_keys(cols),
        vals.len() == cols.len(),
    ensures
        forall|i: int|
            0 <= i < cols.len() ==> row_map(cols, vals).contains_key(#[trigger] cols[i].0)
                && row_map(cols, vals)[cols[i].0] == vals[i],
        forall|k: Seq<char>|
            row_map(cols, vals).contains_key(k) ==> exists|i: int|
                0 <= i < cols.len() && (#[trigger] cols[i]).0 == k,
{
    let pairs = Seq::new(cols.len(), |i: int| (cols[i].0, vals[i]));
    assert(distinct_keys(pairs));
    assert forall|i: int| 0 <= i < cols.len() implies row_map(cols, vals).contains_key(
        #[trigger] cols[i].0,
    ) && row_map(cols, vals)[cols[i].0] == vals[i] by {
        lemma_assoc_map_index(pairs, i);
    }
    assert forall|k: Seq<char>| row_map(cols, vals).contains_key(k) implies exists|i: int|
        0 <= i < cols.len() && (#[trigger] cols[i]).0 == k by {
        lemma_assoc_map_contains(pairs, k);
        let i = choose|i: int| 0 <= i < pairs.len() && (#[trigger] pairs[i].0) == k;
        assert(cols[i].0 == k);
    }
}

/// The first requested projection column that names no column of the table.
pub open spec fn first_unknown(
    proj: Seq<Seq<char>>,
    cols: Seq<(Seq<char>, DataType)>,
) -> Option<Seq<char>> {
    first_unknown_from(proj, cols, 0)
}

pub open spec fn first_unknown_from(
    proj: Seq<Seq<char>>,
    cols: Seq<(Seq<char>, DataType)>,
    i: int,
) -> Option<Seq<char>>
    decreases proj.len() - i,
{
    if i < 0 || i >= proj.len() {
        None
    } else if !(exists|j: int| 0 <= j < cols.len() && (#[trigger] cols[j]).0 == proj[i]) {
        Some(proj[i])
    } else {
        first_unknown_from(proj, cols, i + 1)
    }
}

/// A returned row: the whole row map, or only the requested columns.
pub open spec fn project(rm: Map<Seq<char>, Val>, proj: Seq<Seq<char>>) -> Map<Seq<char>, Val> {
    if proj.len() == 0 {
        rm
    } else {
        rm.restrict(proj.to_set())
    }
}

/// The row maps of the live rows from `i` on that satisfy the conditions,
/// projected, in file order.
pub open spec fn select_rows(
    cols: Seq<(Seq<char>, DataType)>,
    rows: Seq<(bool, Seq<Val>)>,
    i: int,
    conds: Map<Seq<char>, Val>,
    proj: Seq<Seq<char>>,
) -> Seq<Map<Seq<char>, Val>>
    decreases rows.len() - i,
{
    if i < 0 || i >= rows.len() {
        Seq::empty()
    } else if !rows[i].0 && cond_match(row_map(cols, rows[i].1), conds) {
        seq![project(row_map(cols, rows[i].1), proj)] + select_rows(cols, rows, i + 1, conds, proj)
    } else {
        select_rows(cols, rows, i + 1, conds, proj)
    }
}

/// What a select with checked conditions yields: the projected matching
/// rows, unless a row matches while a requested column is unknown.
pub open spec fn select_res(
    cols: Seq<(Seq<char>, DataType)>,
    name: Seq<char>,
    rows: Seq<(bool, Seq<Val>)>,
    proj: Seq<Seq<char>>,
    conds: Map<Seq<char>, Val>,
) -> Result<Seq<Map<Seq<char>, Val>>, ErrV> {
    if select_rows(cols, rows, 0, conds, Seq::empty()).len() > 0 && first_unknown(
        proj,
        cols,
    ) is Some {
        Err(ErrV::ColumnNotFound(first_unknown(proj, cols)->Some_0, name))
    } else {
        Ok(select_rows(cols, rows, 0, conds, proj))
    }
}

/// The projection names as character sequences.
pub open spec fn proj_view(proj: Seq<String>) -> Seq<Seq<char>> {
    proj.map_values(|s: String| s@)
}

impl Table {
    /// The index of the column with this name, if any.
    fn find_col(&self, key: &str) -> (r: Option<usize>)
        ensures
            match r {
                Some(j) => j < self.spec_columns().len() && self.spec_columns()[j as int].0 == key@,
                None => !exists|j: int|
                    0 <= j < self.spec_columns().len() && (#[trigger] self.spec_columns()[j]).0
                        == key@,
            },
    {
        let ghost cv = self.spec_columns();
        let n = self.columns.len();
        let mut j: usize = 0;
        while j < n
            invariant
                j <= n == self.columns@.len(),
                cv == self.spec_columns(),
                forall|y: int| 0 <= y < j ==> (#[trigger] cv[y]).0 != key@,
            decreases n - j,
        {
            proof {
                assert(cv[j as int].0 == self.columns@[j as int].0@);
            }
            if crate::text::str_eq(self.columns[j].0.as_str(), key) {
                return Some(j);
            }
            j = j + 1;
        }
        None
    }

    /// Whether the row satisfies every condition; the condition keys must
    /// all name columns.
    fn row_matches(&self, row: &Row, conds: &ColumnSet) -> (r: bool)
        requires
            self.wf_pub(),
            distinct_keys(self.spec_columns()),
            row.values@.len() == self.spec_columns().len(),
            keys_match_cols(conds@, self.spec_columns()),
        ensures
            r == cond_match(row_map(self.spec_columns(), row_view(*row).1), conds@),
    {
        let ghost cv = self.spec_columns();
        let ghost vals = row_view(*row).1;
        let ghost rm = row_map(cv, vals);
        proof {
            lemma_row_map(cv, vals);
            use_type_invariant(conds);
            conds.lemma_model();
        }
        let kn = conds.len();
        let mut q: usize = 0;
        while q < kn
            invariant
                q <= kn == conds.keys().len(),
                cv == self.spec_columns(),
                self.wf_pub(),
                distinct_keys(cv),
                vals == row_view(*row).1,
                vals.len() == cv.len(),
                rm == row_map(cv, vals),
                keys_match_cols(conds@, cv),
                forall|x: int|
                    0 <= x < q ==> rm.contains_key(#[trigger] conds.keys()[x]) && rm[conds.keys()[x]]
                        == conds@[conds.keys()[x]],
            decreases kn - q,
        {
            proof {
                use_type_invariant(conds);
                conds.lemma_model();
                lemma_row_map(cv, vals);
            }
            let key = conds.key_at(q);
            let cval = conds.value_at(q);
            let j = match self.find_col(key.as_str()) {
                Some(j) => j,
                None => {
                    proof {
                        assert(conds@.contains_key(key@));
                        assert(false);
                    }
                    0
                },
            };
            proof {
                assert(rm[key@] == vals[j as int]);
                assert(row.values@[j as int]@ == vals[j as int]);
            }
            if !(&row.values[j] == cval) {
                proof {
                    assert(rm[conds.keys()[q as int]] != conds@[conds.keys()[q as int]]);
                }
                return false;
            }
            q = q + 1;
        }
        proof {
            use_type_invariant(conds);
            conds.lemma_model();
            assert forall|k: Seq<char>| #[trigger] conds@.contains_key(k) implies rm.contains_key(k)
                && rm[k] == conds@[k] by {
                let x = choose|x: int|
                    0 <= x < conds.keys().len() && #[trigger] conds.keys()[x] == k;
                assert(rm.contains_key(conds.keys()[x]));
            }
        }
        true
    }

    /// Builds the returned image of a row: the requested columns, or all of
    /// them for an empty projection.
    fn project_row(&self, row: &Row, proj: &Vec<String>) -> (r: ColumnSet)
        requires
            self.wf_pub(),
            distinct_keys(self.spec_columns()),
            row.values@.len() == self.spec_columns().len(),
        ensures
            r@ == project(row_map(self.spec_columns(), row_view(*row).1), proj_view(proj@)),
    {
        let ghost cv = self.spec_columns();
        let ghost vals = row_view(*row).1;
        let ghost rm = row_map(cv, vals);
        let ghost pv = proj_view(proj@);
        proof {
            lemma_row_map(cv, vals);
        }
        let mut out: ColumnSet = StrMap::new();
        let n = self.columns.len();
        let keep_all = proj.len() == 0;
        let mut i: usize = 0;
        while i < n
            invariant
                i <= n == self.columns@.len(),
                cv == self.spec_columns(),
                self.wf_pub(),
                distinct_keys(cv),
                vals == row_view(*row).1,
                vals.len() == cv.len(),
                rm == row_map(cv, vals),
                pv == proj_view(proj@),
                keep_all == (pv.len() == 0),
                row.values@.len() == cv.len(),
                forall|k: Seq<char>|
                    #[trigger] out@.contains_key(k) ==> rm.contains_key(k) && out@[k] == rm[k] && (
                    keep_all || pv.to_set().contains(k)),
                forall|j: int|
                    0 <= j < i && (keep_all || pv.to_set().contains(#[trigger] cv[j].0))
                        ==> out@.contains_key(cv[j].0),
            decreases n - i,
        {
            proof {
                lemma_row_map(cv, vals);
                assert(cv[i as int] == (self.columns@[i as int].0@, self.columns@[i as int].1));
                assert(row.values@[i as int]@ == vals[i as int]);
            }
            let mut keep = keep_all;
            if !keep {
                let pn = proj.len();
                let mut t: usize = 0;
                while t < pn
                    invariant
                        t <= pn == proj@.len(),
                        pv == proj_view(proj@),
                        i < n == self.columns@.len(),
                        cv == self.spec_columns(),
                        cv[i as int].0 == self.columns@[i as int].0@,
                        keep == exists|y: int| 0 <= y < t && #[trigger] pv[y] == cv[i as int].0,
                    decreases pn - t,
                {
                    proof {
                        assert(pv[t as int] == proj@[t as int]@);
                    }
                    if crate::text::str_eq(proj[t].as_str(), self.columns[i].0.as_str()) {
                        keep = true;
                    }
                    t = t + 1;
                }
                proof {
                    if keep {
                        assert(pv.to_set().contains(cv[i as int].0));
                    } else {
                        if pv.to_set().contains(cv[i as int].0) {
                            let y = choose|y: int| 0 <= y < pv.len() && #[trigger] pv[y] == cv[
                                i as int].0;
                            assert(false);
                        }
                    }
                }
            }
            if keep {
                out.insert(self.columns[i].0.clone(), row.values[i].clone());
                proof {
                    assert(out@[cv[i as int].0] == vals[i as int]);
                    assert(rm[cv[i as int].0] == vals[i as int]);
                }
            }
            i = i + 1;
        }
        proof {
            lemma_row_map(cv, vals);
            if keep_all {
                assert forall|k: Seq<char>| rm.contains_key(k) implies out@.contains_key(k) by {
                    let j = choose|j: int| 0 <= j < cv.len() && (#[trigger] cv[j]).0 == k;
                    assert(out@.contains_key(cv[j].0));
                }
                assert(out@ =~= rm);
            } else {
                assert forall|k: Seq<char>|
                    rm.contains_key(k) && pv.to_set().contains(k) implies out@.contains_key(k) by {
                    let j = choose|j: int| 0 <= j < cv.len() && (#[trigger] cv[j]).0 == k;
                    assert(out@.contains_key(cv[j].0));
                }
                assert(out@ =~= rm.restrict(pv.to_set()));
            }
        }
        out
    }
}

/// A checked set only holds keys that name columns.
pub proof fn lemma_coerce_walk_keys(
    cols: Seq<(Seq<char>, DataType)>,
    i: int,
    set: Map<Seq<char>, Val>,
    method: TableMethod,
    acc: Map<Seq<char>, Val>,
)
    requires
        keys_match_cols(acc, cols),
    ensures
        coerce_walk(cols, i, set, method, acc) matches Ok(m) ==> keys_match_cols(m, cols),
    decreases cols.len() - i,
{
    if 0 <= i < cols.len() {
        if !set.contains_key(cols[i].0) {
            lemma_coerce_walk_keys(cols, i + 1, set, method, acc);
        } else if !restricted(cols[i].1, method) {
            match coerce_spec(set[cols[i].0], cols[i].1) {
                None => {},
                Some(v) => {
                    if validate_spec(v) {
                        assert(keys_match_cols(acc.insert(cols[i].0, v), cols));
                        lemma_coerce_walk_keys(cols, i + 1, set, method, acc.insert(cols[i].0, v));
                    }
                },
            }
        }
    }
}

impl Table {
    /// Selects rows: the conditions are coerced against the column types,
    /// live rows are scanned in file order, all conditions are required to
    /// hold, and the requested columns (all, for an empty request) of each
    /// matching row come back in file order.
    pub fn select(&self, columns: Vec<String>, conditions: ColumnSet) -> (r: Result<
        Vec<ColumnSet>,
        PoorlyError,
    >)
        ensures
            coerce_walk(self.spec_columns(), 0, conditions@, TableMethod::Select, Map::empty())
                matches Err(we) ==> (r matches Err(e) && e@ == we),
            coerce_walk(self.spec_columns(), 0, conditions@, TableMethod::Select, Map::empty())
                matches Ok(cm) ==> ((!keys_match_cols(conditions@, self.spec_columns()) ==> (r
                matches Err(e) && e@ matches ErrV::ColumnNotFound(k, t) && t == self.spec_name()
                && conditions@.contains_key(k))) && (keys_match_cols(
                conditions@,
                self.spec_columns(),
            ) ==> ((select_res(
                self.spec_columns(),
                self.spec_name(),
                self.spec_rows(),
                proj_view(columns@),
                cm,
            ) is Err ==> (r matches Err(e) && e@ == select_res(
                self.spec_columns(),
                self.spec_name(),
                self.spec_rows(),
                proj_view(columns@),
                cm,
            )->Err_0)) && (select_res(
                self.spec_columns(),
                self.spec_name(),
                self.spec_rows(),
                proj_view(columns@),
                cm,
            ) is Ok ==> (r matches Ok(v) && v@.map_values(|cs: ColumnSet| cs@) == select_res(
                self.spec_columns(),
                self.spec_name(),
                self.spec_rows(),
                proj_view(columns@),
                cm,
            )->Ok_0))))),
    {
        proof {
            use_type_invariant(&*self);
            self.lemma_shape();
        }
        let ghost cv = self.spec_columns();
        let ghost rv = self.spec_rows();
        let ghost pv = proj_view(columns@);
        let cm = match self.check_and_coerce(&conditions, TableMethod::Select) {
            Err(e) => {
                return Err(e);
            },
            Ok(cm) => cm,
        };
        let ghost cmm = cm@;
        proof {
            let w = coerce_walk(cv, 0, conditions@, TableMethod::Select, Map::empty());
            if w is Err {
                assert(false);
            }
            if !keys_match_cols(conditions@, cv) {
                assert(false);
            }
            assert(cmm == w->Ok_0);
            lemma_coerce_walk_keys(cv, 0, conditions@, TableMethod::Select, Map::empty());
        }
        // the first requested column that names no column, if any
        let pn = columns.len();
        let mut unknown: Option<usize> = Option::None;
        let mut t: usize = 0;
        while t < pn && unknown.is_none()
            invariant
                t <= pn == columns@.len(),
                pv == proj_view(columns@),
                cv == self.spec_columns(),
                unknown is None ==> first_unknown_from(pv, cv, 0) == first_unknown_from(
                    pv,
                    cv,
                    t as int,
                ),
                unknown matches Some(x) ==> t < pn && x == t && first_unknown(pv, cv) == Some(
                    pv[t as int],
                ),
            decreases pn - t + (if unknown is None { 1int } else { 0int }),
        {
            proof {
                assert(pv[t as int] == columns@[t as int]@);
            }
            match self.find_col(columns[t].as_str()) {
                Some(j) => {
                    t = t + 1;
                },
                None => {
                    unknown = Option::Some(t);
                },
            }
        }
        proof {
            if unknown is None {
                assert(first_unknown(pv, cv) is None);
            }
        }
        let mut out: Vec<ColumnSet> = Vec::new();
        let nrows = self.rows.len();
        let mut ri: usize = 0;
        while ri < nrows
            invariant
                ri <= nrows == self.rows@.len(),
                cv == self.spec_columns(),
                rv == self.spec_rows(),
                pv == proj_view(columns@),
                pn == columns@.len(),
                self.wf_pub(),
                distinct_keys(cv),
                keys_match_cols(cmm, cv),
                keys_match_cols(conditions@, cv),
                coerce_walk(cv, 0, conditions@, TableMethod::Select, Map::empty()) == Ok::<
                    Map<Seq<char>, Val>,
                    ErrV,
                >(cmm),
                cmm == cm@,
                unknown is None ==> first_unknown(pv, cv) is None,
                unknown matches Some(x) ==> x < pn && first_unknown(pv, cv) == Some(pv[x as int]),
                unknown is Some ==> select_rows(cv, rv, 0, cmm, Seq::empty()).len() == select_rows(
                    cv,
                    rv,
                    ri as int,
                    cmm,
                    Seq::empty(),
                ).len(),
                select_rows(cv, rv, 0, cmm, pv) == out@.map_values(|cs: ColumnSet| cs@)
                    + select_rows(cv, rv, ri as int, cmm, pv),
                unknown is Some ==> out@.len() == 0,
            decreases nrows - ri,
        {
            proof {
                use_type_invariant(&*self);
                self.lemma_shape();
                assert(rv[ri as int] == row_view(self.rows@[ri as int]));
            }
            let row = &self.rows[ri];
            let is_match = if row.deleted {
                false
            } else {
                self.row_matches(row, &cm)
            };
            if is_match {
                proof {
                    assert(select_rows(cv, rv, ri as int, cmm, Seq::empty()).len() > 0);
                }
                match unknown {
                    Option::Some(x) => {
                        return Err(
                            PoorlyError::ColumnNotFound(columns[x].clone(), self.name.clone()),
                        );
                    },
                    Option::None => {},
                }
                let cs = self.project_row(row, &columns);
                let ghost out0 = out@;
                out.push(cs);
                proof {
                    assert(out@.map_values(|cs: ColumnSet| cs@) =~= out0.map_values(
                        |cs: ColumnSet| cs@,
                    ).push(project(row_map(cv, rv[ri as int].1), pv)));
                    assert(select_rows(cv, rv, ri as int, cmm, pv) == seq![
                        project(row_map(cv, rv[ri as int].1), pv),
                    ] + select_rows(cv, rv, ri as int + 1, cmm, pv));
                    assert(out0.map_values(|cs: ColumnSet| cs@) + select_rows(
                        cv,
                        rv,
                        ri as int,
                        cmm,
                        pv,
                    ) =~= out@.map_values(|cs: ColumnSet| cs@) + select_rows(
                        cv,
                        rv,
                        ri as int + 1,
                        cmm,
                        pv,
                    ));
                }
            }
            ri = ri + 1;
        }
        proof {
            assert(select_rows(cv, rv, nrows as int, cmm, pv) =~= Seq::empty());
            assert(out@.map_values(|cs: ColumnSet| cs@) + select_rows(cv, rv, nrows as int, cmm, pv)
                =~= out@.map_values(|cs: ColumnSet| cs@));
            if unknown is Some {
                assert(select_rows(cv, rv, nrows as int, cmm, Seq::empty()).len() == 0);
                assert(select_rows(cv, rv, 0, cmm, Seq::empty()).len() == 0);
            }
        }
        Ok(out)
    }
}

/// The rows after a delete: every live row that satisfies the conditions is
/// tombstoned in place.
pub open spec fn tombstone_rows(
    cols: Seq<(Seq<char>, DataType)>,
    rows: Seq<(bool, Seq<Val>)>,
    cm: Map<Seq<char>, Val>,
) -> Seq<(bool, Seq<Val>)> {
    Seq::new(
        rows.len(),
        |j: int|
            if !rows[j].0 && cond_match(row_map(cols, rows[j].1), cm) {
                (true, rows[j].1)
            } else {
                rows[j]
            },
    )
}

impl Table {
    /// Deletes rows: the conditions are coerced, every live matching row is
    /// tombstoned, and the removed images come back in file order.
    pub fn delete(&mut self, conditions: ColumnSet) -> (r: Result<Vec<ColumnSet>, PoorlyError>)
        ensures
            final(self).spec_name() == old(self).spec_name() && final(self).spec_columns() == old(self).spec_columns() && final(self).spec_serial() == old(self).spec_serial(),
            coerce_walk(old(self).spec_columns(), 0, conditions@, TableMethod::Delete, Map::empty())
                matches Err(we) ==> (r matches Err(e) && e@ == we && *final(self) == *old(self)),
            coerce_walk(old(self).spec_columns(), 0, conditions@, TableMethod::Delete, Map::empty())
                matches Ok(cm) ==> ((!keys_match_cols(conditions@, old(self).spec_columns()) ==> (r
                matches Err(e) && e@ matches ErrV::ColumnNotFound(k, t) && t == old(self).spec_name() && conditions@.contains_key(k) && *final(self) == *old(self))) && (
            keys_match_cols(conditions@, old(self).spec_columns()) ==> (r matches Ok(v) && final(self).spec_rows() == tombstone_rows(old(self).spec_columns(), old(self).spec_rows(), cm)
                && v@.map_values(|cs: ColumnSet| cs@) == select_rows(
                old(self).spec_columns(),
                old(self).spec_rows(),
                0,
                cm,
                Seq::empty(),
            )))),
    {
        proof {
            use_type_invariant(&*self);
            self.lemma_shape();
        }
        let ghost cv = self.spec_columns();
        let ghost rv = self.spec_rows();
        let cm = match self.check_and_coerce(&conditions, TableMethod::Delete) {
            Err(e) => {
                return Err(e);
            },
            Ok(cm) => cm,
        };
        let ghost cmm = cm@;
        proof {
            let w = coerce_walk(cv, 0, conditions@, TableMethod::Delete, Map::empty());
            if w is Err {
                assert(false);
            }
            if !keys_match_cols(conditions@, cv) {
                assert(false);
            }
            assert(cmm == w->Ok_0);
            lemma_coerce_walk_keys(cv, 0, conditions@, TableMethod::Delete, Map::empty());
        }
        let no_proj: Vec<String> = Vec::new();
        let mut out: Vec<ColumnSet> = Vec::new();
        let mut rows: Vec<Row> = Vec::new();
        core::mem::swap(&mut rows, &mut self.rows);
        let nrows = rows.len();
        let mut i: usize = 0;
        while i < nrows
            invariant
                i <= nrows == rows@.len(),
                nrows == rv.len(),
                cv == self.spec_columns(),
                self.wf_pub(),
                distinct_keys(cv),
                keys_match_cols(cmm, cv),
                cmm == cm@,
                no_proj@.len() == 0,
                self.rows@.len() == 0,
                self.name == old(self).name,
                self.columns == old(self).columns,
                self.nullables == old(self).nullables,
                self.serial == old(self).serial,
                forall|j: int| i <= j < nrows ==> row_view(#[trigger] rows@[j]) == rv[j],
                forall|j: int|
                    0 <= j < nrows ==> (#[trigger] rows@[j]).values@.len() == cv.len(),
                forall|j: int|
                    0 <= j < i ==> row_view(#[trigger] rows@[j]) == tombstone_rows(cv, rv, cmm)[j],
                select_rows(cv, rv, 0, cmm, Seq::empty()) == out@.map_values(|cs: ColumnSet| cs@)
                    + select_rows(cv, rv, i as int, cmm, Seq::empty()),
            decreases nrows - i,
    {
            proof {
                assert(row_view(rows@[i as int]) == rv[i as int]);
            }
            let is_match = if rows[i].deleted {
                false
            } else {
                self.row_matches(&rows[i], &cm)
            };
            if is_match {
                let img = self.project_row(&rows[i], &no_proj);
                let ghost out0 = out@;
                out.push(img);
                proof {
                    assert(proj_view(no_proj@) =~= Seq::<Seq<char>>::empty());
                    assert(out@.map_values(|cs: ColumnSet| cs@) =~= out0.map_values(
                        |cs: ColumnSet| cs@,
                    ).push(project(row_map(cv, rv[i as int].1), Seq::empty())));
                    assert(out0.map_values(|cs: ColumnSet| cs@) + select_rows(
                        cv,
                        rv,
                        i as int,
                        cmm,
                        Seq::empty(),
                    ) =~= out@.map_values(|cs: ColumnSet| cs@) + select_rows(
                        cv,
                        rv,
                        i as int + 1,
                        cmm,
                        Seq::empty(),
                    ));
                }
                let rr = vstd::std_specs::vec::vec_index_mut(&mut rows, i);
                rr.deleted = true;
                proof {
                    assert(row_view(rows@[i as int]) == (true, rv[i as int].1));
                }
            }
            i = i + 1;
        }
        self.rows = rows;
        proof {
            assert(self.spec_rows() =~= tombstone_rows(cv, rv, cmm));
            assert(select_rows(cv, rv, nrows as int, cmm, Seq::empty()) =~= Seq::empty());
            assert(out@.map_values(|cs: ColumnSet| cs@) + select_rows(
                cv,
                rv,
                nrows as int,
                cmm,
                Seq::empty(),
            ) =~= out@.map_values(|cs: ColumnSet| cs@));
        }
        Ok(out)
    }
}

/// A row's values with the update set applied, in column order.
pub open spec fn merge_vals(
    cols: Seq<(Seq<char>, DataType)>,
    vals: Seq<Val>,
    m: Map<Seq<char>, Val>,
) -> Seq<Val> {
    Seq::new(
        vals.len(),
        |j: int|
            if j < cols.len() && m.contains_key(cols[j].0) {
                m[cols[j].0]
            } else {
                vals[j]
            },
    )
}

/// What an update does to the rows scanned up to the old end of the table:
/// each live matching row whose image the set actually changes is tombstoned
/// and its new image appended, in scan order; the new images are returned.
pub open spec fn update_walk(
    cols: Seq<(Seq<char>, DataType)>,
    rows: Seq<(bool, Seq<Val>)>,
    i: int,
    end: int,
    m: Map<Seq<char>, Val>,
    cm: Map<Seq<char>, Val>,
) -> (Seq<(bool, Seq<Val>)>, Seq<Map<Seq<char>, Val>>)
    decreases end - i,
{
    if i < 0 || i >= end || end > rows.len() {
        (rows, Seq::empty())
    } else {
        let row = rows[i];
        let merged = merge_vals(cols, row.1, m);
        if !row.0 && cond_match(row_map(cols, row.1), cm) && merged != row.1 {
            let rows1 = rows.update(i, (true, row.1)).push((false, merged));
            let rec = update_walk(cols, rows1, i + 1, end, m, cm);
            (rec.0, seq![row_map(cols, merged)] + rec.1)
        } else {
            update_walk(cols, rows, i + 1, end, m, cm)
        }
    }
}

impl Table {
    /// Updates rows, copy-on-write: the set and the conditions are coerced,
    /// and every live matching row that the set actually changes is
    /// tombstoned and rewritten at the end of the table; rows appended
    /// during the call are not revisited. The new images come back in scan
    /// order. A rewritten row keeps its serial values and the counter does
    /// not move: the set cannot name a serial column, so the row's identity
    /// survives the rewrite.
    pub fn update(&mut self, set: ColumnSet, conditions: ColumnSet) -> (r: Result<
        Vec<ColumnSet>,
        PoorlyError,
    >)
        ensures
            final(self).spec_name() == old(self).spec_name() && final(self).spec_columns() == old(
                self,
            ).spec_columns() && final(self).spec_serial() == old(self).spec_serial(),
            coerce_walk(old(self).spec_columns(), 0, set@, TableMethod::Update, Map::empty())
                matches Err(we) ==> (r matches Err(e) && e@ == we && *final(self) == *old(self)),
            coerce_walk(old(self).spec_columns(), 0, set@, TableMethod::Update, Map::empty())
                matches Ok(sm) ==> ((!keys_match_cols(set@, old(self).spec_columns()) ==> (r
                matches Err(e) && e@ matches ErrV::ColumnNotFound(k, t) && t == old(
                self).spec_name() && set@.contains_key(k) && *final(self) == *old(self))) && (
            keys_match_cols(set@, old(self).spec_columns()) ==> ((coerce_walk(
                old(self).spec_columns(),
                0,
                conditions@,
                TableMethod::Unchecked,
                Map::empty(),
            ) matches Err(we2) ==> (r matches Err(e) && e@ == we2 && *final(self) == *old(self)))
                && (coerce_walk(
                old(self).spec_columns(),
                0,
                conditions@,
                TableMethod::Unchecked,
                Map::empty(),
            ) matches Ok(cm) ==> ((!keys_match_cols(conditions@, old(self).spec_columns()) ==> (r
                matches Err(e) && e@ matches ErrV::ColumnNotFound(k2, t2) && t2 == old(
                self).spec_name() && conditions@.contains_key(k2) && *final(self) == *old(self)))
                && (keys_match_cols(conditions@, old(self).spec_columns()) ==> (r matches Ok(v)
                && final(self).spec_rows() == update_walk(
                old(self).spec_columns(),
                old(self).spec_rows(),
                0,
                old(self).spec_rows().len() as int,
                sm,
                cm,
            ).0 && v@.map_values(|cs: ColumnSet| cs@) == update_walk(
                old(self).spec_columns(),
                old(self).spec_rows(),
                0,
                old(self).spec_rows().len() as int,
                sm,
                cm,
            ).1))))))),
    {
        proof {
            use_type_invariant(&*self);
            self.lemma_shape();
        }
        let ghost cv = self.spec_columns();
        let ghost rv = self.spec_rows();
        let sm = match self.check_and_coerce(&set, TableMethod::Update) {
            Err(e) => {
                return Err(e);
            },
            Ok(sm) => sm,
        };
        let cm = match self.check_and_coerce(&conditions, TableMethod::Unchecked) {
            Err(e) => {
                return Err(e);
            },
            Ok(cm) => cm,
        };
        let ghost smm = sm@;
        let ghost cmm = cm@;
        proof {
            let ws = coerce_walk(cv, 0, set@, TableMethod::Update, Map::empty());
            if ws is Err {
                assert(false);
            }
            if !keys_match_cols(set@, cv) {
                assert(false);
            }
            assert(smm == ws->Ok_0);
            let wc = coerce_walk(cv, 0, conditions@, TableMethod::Unchecked, Map::empty());
            if wc is Err {
                assert(false);
            }
            if !keys_match_cols(conditions@, cv) {
                assert(false);
            }
            assert(cmm == wc->Ok_0);
            lemma_coerce_walk_keys(cv, 0, conditions@, TableMethod::Unchecked, Map::empty());
        }
        let no_proj: Vec<String> = Vec::new();
        let mut out: Vec<ColumnSet> = Vec::new();
        let mut rows: Vec<Row> = Vec::new();
        core::mem::swap(&mut rows, &mut self.rows);
        let end = rows.len();
        let n = self.columns.len();
        let mut i: usize = 0;
        while i < end
            invariant
                i <= end == rv.len(),
                end <= rows@.len(),
                n == self.columns@.len(),
                cv == self.spec_columns(),
                self.wf_pub(),
                distinct_keys(cv),
                keys_match_cols(cmm, cv),
                cmm == cm@,
                smm == sm@,
                no_proj@.len() == 0,
                self.rows@.len() == 0,
                self.name == old(self).name,
                self.columns == old(self).columns,
                self.nullables == old(self).nullables,
                self.serial == old(self).serial,
                forall|j: int| i <= j < end ==> row_view(#[trigger] rows@[j]) == rv[j],
                forall|j: int|
                    0 <= j < rows@.len() ==> (#[trigger] rows@[j]).values@.len() == cv.len(),
                update_walk(cv, rv, 0, end as int, smm, cmm).0 == update_walk(
                    cv,
                    rows@.map_values(|rr: Row| row_view(rr)),
                    i as int,
                    end as int,
                    smm,
                    cmm,
                ).0,
                update_walk(cv, rv, 0, end as int, smm, cmm).1 == out@.map_values(
                    |cs: ColumnSet| cs@,
                ) + update_walk(
                    cv,
                    rows@.map_values(|rr: Row| row_view(rr)),
                    i as int,
                    end as int,
                    smm,
                    cmm,
                ).1,
            decreases end - i,
        {
            let ghost cur = rows@.map_values(|rr: Row| row_view(rr));
            proof {
                assert(cur[i as int] == row_view(rows@[i as int]));
                assert(cur[i as int] == rv[i as int]);
            }
            let is_match = if rows[i].deleted {
                false
            } else {
                self.row_matches(&rows[i], &cm)
            };
            if is_match {
                // merge the set into the row's values
                let mut merged: Vec<TypedValue> = Vec::new();
                let mut changed = false;
                let mut j: usize = 0;
                while j < n
                    invariant
                        j <= n == self.columns@.len(),
                        cv == self.spec_columns(),
                        smm == sm@,
                        i < end <= rows@.len(),
                        rows@[i as int].values@.len() == cv.len(),
                        cur == rows@.map_values(|rr: Row| row_view(rr)),
                        cur[i as int] == rv[i as int],
                        i < rv.len(),
                        merged@.len() == j,
                        forall|x: int|
                            0 <= x < j ==> (#[trigger] merged@[x])@ == merge_vals(
                                cv,
                                rv[i as int].1,
                                smm,
                            )[x],
                        changed == exists|x: int|
                            0 <= x < j && merge_vals(cv, rv[i as int].1, smm)[x] != rv[i as int].1[x],
                    decreases n - j,
                {
                    proof {
                        assert(cv[j as int] == (
                            self.columns@[j as int].0@,
                            self.columns@[j as int].1,
                        ));
                        assert(rv[i as int].1[j as int] == rows@[i as int].values@[j as int]@);
                    }
                    let newv: TypedValue = match sm.get(self.columns[j].0.as_str()) {
                        Some(v) => v.clone(),
                        Option::None => rows[i].values[j].clone(),
                    };
                    if !(&newv == &rows[i].values[j]) {
                        changed = true;
                    }
                    merged.push(newv);
                    j = j + 1;
                }
                let ghost mvals = merge_vals(cv, rv[i as int].1, smm);
                proof {
                    assert(merged@.map_values(|v: TypedValue| v@) =~= mvals);
                    if changed {
                        assert(mvals != rv[i as int].1);
                    } else {
                        assert(mvals =~= rv[i as int].1);
                    }
                }
                if changed {
                    let new_row = Row { deleted: false, values: merged };
                    let img = self.project_row(&new_row, &no_proj);
                    let ghost out0 = out@;
                    out.push(img);
                    let rr = vstd::std_specs::vec::vec_index_mut(&mut rows, i);
                    rr.deleted = true;
                    rows.push(new_row);
                    proof {
                        let cur1 = rows@.map_values(|rr: Row| row_view(rr));
                        assert(cur1 =~= cur.update(i as int, (true, rv[i as int].1)).push(
                            (false, mvals),
                        ));
                        assert(proj_view(no_proj@) =~= Seq::<Seq<char>>::empty());
                        assert(out@.map_values(|cs: ColumnSet| cs@) =~= out0.map_values(
                            |cs: ColumnSet| cs@,
                        ).push(row_map(cv, mvals)));
                        assert(update_walk(cv, cur, i as int, end as int, smm, cmm).1 == seq![
                            row_map(cv, mvals),
                        ] + update_walk(cv, cur1, i as int + 1, end as int, smm, cmm).1);
                        assert(out0.map_values(|cs: ColumnSet| cs@) + update_walk(
                            cv,
                            cur,
                            i as int,
                            end as int,
                            smm,
                            cmm,
                        ).1 =~= out@.map_values(|cs: ColumnSet| cs@) + update_walk(
                            cv,
                            cur1,
                            i as int + 1,
                            end as int,
                            smm,
                            cmm,
                        ).1);
                    }
                }
            }
            i = i + 1;
        }
        self.rows = rows;
        proof {
            let cur = rows@.map_values(|rr: Row| row_view(rr));
            assert(update_walk(cv, cur, end as int, end as int, smm, cmm).0 == cur);
            assert(self.spec_rows() =~= cur);
            assert(update_walk(cv, cur, end as int, end as int, smm, cmm).1 =~= Seq::empty());
            assert(out@.map_values(|cs: ColumnSet| cs@) + update_walk(
                cv,
                cur,
                end as int,
                end as int,
                smm,
                cmm,
            ).1 =~= out@.map_values(|cs: ColumnSet| cs@));
        }
        Ok(out)
    }
}

/// The order of the value tags, as the join comparison ranks them.
pub open spec fn tag_rank(v: Val) -> int {
    match v {
        Val::Int(_) => 0,
        Val::Float(_) => 1,
        Val::Char(_) => 2,
        Val::Str(_) => 3,
        Val::Serial(_) => 4,
        Val::Email(_) => 5,
    }
}

/// A total three-way order on values: by tag, then by payload; Float
/// payloads compare as bit patterns.
pub open spec fn val_cmp(a: Val, b: Val) -> int {
    if tag_rank(a) != tag_rank(b) {
        if tag_rank(a) < tag_rank(b) {
            -1
        } else {
            1
        }
    } else {
        match (a, b) {
            (Val::Int(x), Val::Int(y)) => if x < y {
                -1
            } else if x > y {
                1
            } else {
                0
            },
            (Val::Float(x), Val::Float(y)) => if x < y {
                -1
            } else if x > y {
                1
            } else {
                0
            },
            (Val::Char(x), Val::Char(y)) => if (x as u32) < (y as u32) {
                -1
            } else if (x as u32) > (y as u32) {
                1
            } else {
                0
            },
            (Val::Str(x), Val::Str(y)) => lex_cmp(x, y),
            (Val::Serial(x), Val::Serial(y)) => if x < y {
                -1
            } else if x > y {
                1
            } else {
                0
            },
            (Val::Email(x), Val::Email(y)) => lex_cmp(x, y),
            _ => 0,
        }
    }
}

/// An absent operand sorts below any present one; two absent operands are
/// equal.
pub open spec fn opt_val_cmp(a: Option<Val>, b: Option<Val>) -> int {
    match (a, b) {
        (Option::None, Option::None) => 0,
        (Option::None, Option::Some(_)) => -1,
        (Option::Some(_), Option::None) => 1,
        (Option::Some(x), Option::Some(y)) => val_cmp(x, y),
    }
}

/// The join pairs in their given order: left field name to right field name.
pub open spec fn pair_seq(jo: StrMap<String>) -> Seq<(Seq<char>, Seq<char>)> {
    Seq::new(jo.entry_seq().len(), |q: int| (jo.entry_seq()[q].0, jo.entry_seq()[q].1))
}

/// Rows compare pair by pair in join order, short-circuiting on the first
/// unequal comparison; a missing operand is less.
pub open spec fn row_cmp_spec(
    r1: Map<Seq<char>, Val>,
    r2: Map<Seq<char>, Val>,
    pairs: Seq<(Seq<char>, Seq<char>)>,
    q: int,
) -> int
    decreases pairs.len() - q,
{
    if q < 0 || q >= pairs.len() {
        0
    } else {
        let v1 = if r1.contains_key(pairs[q].0) {
            Option::Some(r1[pairs[q].0])
        } else {
            Option::None
        };
        let v2 = if r2.contains_key(pairs[q].1) {
            Option::Some(r2[pairs[q].1])
        } else {
            Option::None
        };
        let c = opt_val_cmp(v1, v2);
        if c != 0 {
            c
        } else {
            row_cmp_spec(r1, r2, pairs, q + 1)
        }
    }
}

/// Compares two values three ways, as `val_cmp` says.
fn val_cmp_exec(a: &TypedValue, b: &TypedValue) -> (r: i8)
    ensures
        r as int == val_cmp(a@, b@),
{
    match (a, b) {
        (TypedValue::Int(x), TypedValue::Int(y)) => if *x < *y {
            -1
        } else if *x > *y {
            1
        } else {
            0
        },
        (TypedValue::Float(x), TypedValue::Float(y)) => if *x < *y {
            -1
        } else if *x > *y {
            1
        } else {
            0
        },
        (TypedValue::Char(x), TypedValue::Char(y)) => if (*x as u32) < (*y as u32) {
            -1
        } else if (*x as u32) > (*y as u32) {
            1
        } else {
            0
        },
        (TypedValue::String(x), TypedValue::String(y)) => crate::text::str_cmp(
            x.as_str(),
            y.as_str(),
        ),
        (TypedValue::Serial(x), TypedValue::Serial(y)) => if *x < *y {
            -1
        } else if *x > *y {
            1
        } else {
            0
        },
        (TypedValue::Email(x), TypedValue::Email(y)) => crate::text::str_cmp(
            x.as_str(),
            y.as_str(),
        ),
        _ => {
            let ra = rank_exec(a);
            let rb = rank_exec(b);
            if ra < rb {
                -1
            } else {
                1
            }
        },
    }
}

/// The tag rank of a value.
fn rank_exec(a: &TypedValue) -> (r: u8)
    ensures
        r as int == tag_rank(a@),
{
    match a {
        TypedValue::Int(_) => 0,
        TypedValue::Float(_) => 1,
        TypedValue::Char(_) => 2,
        TypedValue::String(_) => 3,
        TypedValue::Serial(_) => 4,
        TypedValue::Email(_) => 5,
    }
}

/// Compares two rows over the join pairs, as `row_cmp_spec` says.
pub fn row_cmp(r1: &ColumnSet, r2: &ColumnSet, jo: &StrMap<String>) -> (c: i8)
    ensures
        c as int == row_cmp_spec(r1@, r2@, pair_seq(*jo), 0),
{
    let ghost pairs = pair_seq(*jo);
    proof {
        use_type_invariant(jo);
        jo.lemma_model();
    }
    let n = jo.len();
    let mut q: usize = 0;
    while q < n
        invariant
            q <= n == jo.keys().len(),
            pairs == pair_seq(*jo),
            pairs.len() == n,
            row_cmp_spec(r1@, r2@, pairs, 0) == row_cmp_spec(r1@, r2@, pairs, q as int),
        decreases n - q,
    {
        proof {
            use_type_invariant(jo);
            jo.lemma_model();
            assert(pairs[q as int] == (jo.entry_seq()[q as int].0, jo.entry_seq()[q as int].1));
            assert(jo.keys()[q as int] == jo.entry_seq()[q as int].0);
            assert(jo@[jo.keys()[q as int]] == jo.entry_seq()[q as int].1);
        }
        let k1 = jo.key_at(q);
        let k2 = jo.value_at(q);
        let v1 = r1.get(k1.as_str());
        let v2 = r2.get(k2.as_str());
        let c: i8 = match (v1, v2) {
            (Option::None, Option::None) => 0,
            (Option::None, Option::Some(_)) => -1,
            (Option::Some(_), Option::None) => 1,
            (Option::Some(x), Option::Some(y)) => val_cmp_exec(x, y),
        };
        if c != 0 {
            return c;
        }
        q = q + 1;
    }
    0
}

/// The right rows, in order, that compare equal to the left row.
pub open spec fn matches_of(
    l: Map<Seq<char>, Val>,
    rs: Seq<Map<Seq<char>, Val>>,
    pairs: Seq<(Seq<char>, Seq<char>)>,
    i: int,
) -> Seq<Map<Seq<char>, Val>>
    decreases rs.len() - i,
{
    if i < 0 || i >= rs.len() {
        Seq::empty()
    } else if row_cmp_spec(l, rs[i], pairs, 0) == 0 {
        seq![rs[i]] + matches_of(l, rs, pairs, i + 1)
    } else {
        matches_of(l, rs, pairs, i + 1)
    }
}

/// Each left row, in order, with its group of matching right rows; left rows
/// without matches are dropped.
pub open spec fn groups_spec(
    ls: Seq<Map<Seq<char>, Val>>,
    rs: Seq<Map<Seq<char>, Val>>,
    pairs: Seq<(Seq<char>, Seq<char>)>,
    i: int,
) -> Seq<(Map<Seq<char>, Val>, Seq<Map<Seq<char>, Val>>)>
    decreases ls.len() - i,
{
    if i < 0 || i >= ls.len() {
        Seq::empty()
    } else {
        let g = matches_of(ls[i], rs, pairs, 0);
        if g.len() > 0 {
            seq![(ls[i], g)] + groups_spec(ls, rs, pairs, i + 1)
        } else {
            groups_spec(ls, rs, pairs, i + 1)
        }
    }
}

/// Relies on joinable's `inner_join_grouped` over an unsorted right-hand
/// side: each left row, in order, is paired with the right rows that the
/// predicate ranks equal, in order, and left rows with no match are dropped.
/// The predicate is the verified `row_cmp`.
#[verifier::external_body]
fn join_groups(lhs: Vec<ColumnSet>, rhs: &Vec<ColumnSet>, jo: &StrMap<String>) -> (r: Vec<
    (ColumnSet, Vec<ColumnSet>),
>)
    ensures
        r@.len() == groups_spec(
            lhs@.map_values(|cs: ColumnSet| cs@),
            rhs@.map_values(|cs: ColumnSet| cs@),
            pair_seq(*jo),
            0,
        ).len(),
        forall|i: int|
            0 <= i < r@.len() ==> (#[trigger] r@[i]).0@ == groups_spec(
                lhs@.map_values(|cs: ColumnSet| cs@),
                rhs@.map_values(|cs: ColumnSet| cs@),
                pair_seq(*jo),
                0,
            )[i].0 && r@[i].1@.map_values(|cs: ColumnSet| cs@) == groups_spec(
                lhs@.map_values(|cs: ColumnSet| cs@),
                rhs@.map_values(|cs: ColumnSet| cs@),
                pair_seq(*jo),
                0,
            )[i].1,
{
    lhs.into_iter()
        .inner_join_grouped(
            &rhs[..],
            |l: &ColumnSet, r: &ColumnSet| match row_cmp(l, r, jo) {
                -1 => core::cmp::Ordering::Less,
                0 => core::cmp::Ordering::Equal,
                _ => core::cmp::Ordering::Greater,
            },
        )
        .map(|(l, g)| (l, g.into_iter().cloned().collect()))
        .collect()
}

/// A merged result row: the left row's fields, overridden by each matching
/// right row's fields in turn.
pub open spec fn merge_all(
    base: Map<Seq<char>, Val>,
    gs: Seq<Map<Seq<char>, Val>>,
    i: int,
) -> Map<Seq<char>, Val>
    decreases gs.len() - i,
{
    if i < 0 || i >= gs.len() {
        base
    } else {
        merge_all(base.union_prefer_right(gs[i]), gs, i + 1)
    }
}

/// The post-join condition check: each condition value is coerced to the
/// merged field's runtime type and compared; a missing field is a
/// column-not-found failure, and a failed coercion an invalid value.
pub open spec fn join_conds(
    row: Map<Seq<char>, Val>,
    conds: Seq<(Seq<char>, Val)>,
    i: int,
    ok: bool,
    tname: Seq<char>,
) -> Result<bool, ErrV>
    decreases conds.len() - i,
{
    if i < 0 || i >= conds.len() {
        Ok(ok)
    } else if !row.contains_key(conds[i].0) {
        Err(ErrV::ColumnNotFound(conds[i].0, tname))
    } else {
        match coerce_spec(conds[i].1, row[conds[i].0].data_type()) {
            Option::None => Err(
                ErrV::InvalidValue(conds[i].1, row[conds[i].0].data_type()),
            ),
            Option::Some(cv) => join_conds(
                row,
                conds,
                i + 1,
                ok && row[conds[i].0] == cv,
                tname,
            ),
        }
    }
}

/// What the join returns for the computed groups: each group merged, kept if
/// the conditions hold of it, projected.
pub open spec fn join_walk(
    groups: Seq<(Map<Seq<char>, Val>, Seq<Map<Seq<char>, Val>>)>,
    i: int,
    conds: Seq<(Seq<char>, Val)>,
    proj: Seq<Seq<char>>,
    tname: Seq<char>,
) -> Result<Seq<Map<Seq<char>, Val>>, ErrV>
    decreases groups.len() - i,
{
    if i < 0 || i >= groups.len() {
        Ok(Seq::empty())
    } else {
        let merged = merge_all(groups[i].0, groups[i].1, 0);
        match join_conds(merged, conds, 0, true, tname) {
            Err(e) => Err(e),
            Ok(b) => match join_walk(groups, i + 1, conds, proj, tname) {
                Err(e) => Err(e),
                Ok(rest) => Ok(
                    if b {
                        seq![project(merged, proj)] + rest
                    } else {
                        rest
                    },
                ),
            },
        }
    }
}

/// The column names of a table as join fields: `<table>.<column>`.
pub open spec fn prefix_cols(
    tname: Seq<char>,
    cols: Seq<(Seq<char>, DataType)>,
) -> Seq<(Seq<char>, DataType)> {
    cols.map_values(|c: (Seq<char>, DataType)| (tname + "."@ + c.0, c.1))
}

/// The live rows of a table, as maps under the prefixed field names.
pub open spec fn prefixed_rows(
    tname: Seq<char>,
    cols: Seq<(Seq<char>, DataType)>,
    rows: Seq<(bool, Seq<Val>)>,
) -> Seq<Map<Seq<char>, Val>> {
    select_rows(prefix_cols(tname, cols), rows, 0, Map::empty(), Seq::empty())
}

/// The whole join: both tables' live rows under prefixed names, grouped by
/// the join pairs, merged, filtered by the conditions, projected.
pub open spec fn join_res(
    t1name: Seq<char>,
    cols1: Seq<(Seq<char>, DataType)>,
    rows1: Seq<(bool, Seq<Val>)>,
    t2name: Seq<char>,
    cols2: Seq<(Seq<char>, DataType)>,
    rows2: Seq<(bool, Seq<Val>)>,
    pairs: Seq<(Seq<char>, Seq<char>)>,
    conds: Seq<(Seq<char>, Val)>,
    proj: Seq<Seq<char>>,
) -> Result<Seq<Map<Seq<char>, Val>>, ErrV> {
    join_walk(
        groups_spec(
            prefixed_rows(t1name, cols1, rows1),
            prefixed_rows(t2name, cols2, rows2),
            pairs,
            0,
        ),
        0,
        conds,
        proj,
        t1name,
    )
}

impl Table {
    /// The live rows, as column sets under `<table>.<column>` field names,
    /// in file order.
    fn prefixed_live_rows(&self) -> (r: Vec<ColumnSet>)
        ensures
            r@.map_values(|cs: ColumnSet| cs@) == prefixed_rows(
                self.spec_name(),
                self.spec_columns(),
                self.spec_rows(),
            ),
    {
        proof {
            use_type_invariant(&*self);
            self.lemma_shape();
        }
        let ghost cv = self.spec_columns();
        let ghost rv = self.spec_rows();
        let ghost pcv = prefix_cols(self.spec_name(), cv);
        let ghost noconds = Map::<Seq<char>, Val>::empty();
        proof {
            assert(noconds =~= Map::<Seq<char>, Val>::empty());
        }
        let mut out: Vec<ColumnSet> = Vec::new();
        let nrows = self.rows.len();
        let n = self.columns.len();
        let mut ri: usize = 0;
        while ri < nrows
            invariant
                ri <= nrows == self.rows@.len(),
                n == self.columns@.len(),
                cv == self.spec_columns(),
                rv == self.spec_rows(),
                pcv == prefix_cols(self.spec_name(), cv),
                noconds == Map::<Seq<char>, Val>::empty(),
                self.wf_pub(),
                select_rows(pcv, rv, 0, noconds, Seq::empty()) == out@.map_values(
                    |cs: ColumnSet| cs@,
                ) + select_rows(pcv, rv, ri as int, noconds, Seq::empty()),
            decreases nrows - ri,
        {
            proof {
                use_type_invariant(&*self);
                self.lemma_shape();
                assert(rv[ri as int] == row_view(self.rows@[ri as int]));
            }
            let row = &self.rows[ri];
            if !row.deleted {
                let ghost vals = row_view(*row).1;
                let mut cs: ColumnSet = StrMap::new();
                let ghost pairs = Seq::new(pcv.len(), |j: int| (pcv[j].0, vals[j]));
                let mut k: usize = 0;
                proof {
                    assert(cs@ =~= assoc_map(pairs.take(0)));
                }
                while k < n
                    invariant
                        k <= n == self.columns@.len(),
                        cv == self.spec_columns(),
                        pcv == prefix_cols(self.spec_name(), cv),
                        ri < self.rows@.len(),
                        row == self.rows@[ri as int],
                        vals == row_view(*row).1,
                        vals.len() == cv.len(),
                        pairs == Seq::new(pcv.len(), |j: int| (pcv[j].0, vals[j])),
                        cs@ == assoc_map(pairs.take(k as int)),
                    decreases n - k,
                {
                    proof {
                        assert(cv[k as int] == (
                            self.columns@[k as int].0@,
                            self.columns@[k as int].1,
                        ));
                        assert(pcv[k as int].0 == self.name@ + "."@ + cv[k as int].0);
                        assert(row.values@[k as int]@ == vals[k as int]);
                        assert(pairs.take(k as int + 1).drop_last() =~= pairs.take(k as int));
                    }
                    let key = self.name.clone().concat(".").concat(self.columns[k].0.as_str());
                    cs.insert(key, row.values[k].clone());
                    k = k + 1;
                }
                let ghost out0 = out@;
                out.push(cs);
                proof {
                    assert(pairs.take(n as int) =~= pairs);
                    assert(cond_match(row_map(pcv, vals), noconds)) by {
                        assert(noconds.dom() =~= Set::<Seq<char>>::empty());
                    }
                    assert(out@.map_values(|c: ColumnSet| c@) =~= out0.map_values(
                        |c: ColumnSet| c@,
                    ).push(row_map(pcv, vals)));
                    assert(select_rows(pcv, rv, ri as int, noconds, Seq::empty()) == seq![
                        project(row_map(pcv, rv[ri as int].1), Seq::empty()),
                    ] + select_rows(pcv, rv, ri as int + 1, noconds, Seq::empty()));
                    assert(out0.map_values(|c: ColumnSet| c@) + select_rows(
                        pcv,
                        rv,
                        ri as int,
                        noconds,
                        Seq::empty(),
                    ) =~= out@.map_values(|c: ColumnSet| c@) + select_rows(
                        pcv,
                        rv,
                        ri as int + 1,
                        noconds,
                        Seq::empty(),
                    ));
                }
            }
            ri = ri + 1;
        }
        proof {
            assert(select_rows(pcv, rv, nrows as int, noconds, Seq::empty()) =~= Seq::empty());
            assert(out@.map_values(|cs: ColumnSet| cs@) + select_rows(
                pcv,
                rv,
                nrows as int,
                noconds,
                Seq::empty(),
            ) =~= out@.map_values(|cs: ColumnSet| cs@));
        }
        out
    }
}

/// Merges a group of matching rows into the left row, later fields winning.
fn merge_group(l: ColumnSet, group: Vec<ColumnSet>) -> (r: ColumnSet)
    ensures
        r@ == merge_all(l@, group@.map_values(|cs: ColumnSet| cs@), 0),
{
    let ghost gv = group@.map_values(|cs: ColumnSet| cs@);
    let mut merged = l;
    let mut g = group;
    let ghost gi: int = 0;
    while g.len() > 0
        invariant
            g@.map_values(|cs: ColumnSet| cs@) =~= gv.skip(gv.len() - g@.len()),
            g@.len() <= gv.len(),
            merge_all(l@, gv, 0) == merge_all(merged@, gv, gv.len() - g@.len()),
        decreases g@.len(),
    {
        let ghost at = gv.len() - g@.len();
        let ghost g0 = g@;
        let cs = g.remove(0);
        proof {
            assert(cs == g0[0]);
            assert(g0.map_values(|cs: ColumnSet| cs@)[0] == g0[0]@);
            assert(g0.map_values(|cs: ColumnSet| cs@) =~= gv.skip(at));
            assert(gv.skip(at)[0] == gv[at]);
            assert(cs@ == gv[at]);
            assert forall|i: int| 0 <= i < g@.len() implies g@.map_values(|cs: ColumnSet| cs@)[i]
                == (#[trigger] gv.skip(at + 1)[i]) by {
                assert(g@[i] == g0[i + 1]);
                assert(g@.map_values(|cs: ColumnSet| cs@)[i] == g@[i]@);
                assert(gv.skip(at + 1)[i] == gv[at + 1 + i]);
                assert(g0.map_values(|cs: ColumnSet| cs@)[i + 1] == g0[i + 1]@);
                assert(gv.skip(at)[i + 1] == gv[at + 1 + i]);
            }
            assert(g@.map_values(|cs: ColumnSet| cs@) =~= gv.skip(at + 1));
        }
        let ghost m0 = merged@;
        let ghost csv = cs@;
        let ghost cseq0 = cs.entry_seq();
        let mut entries = cs.take_entries();
        let ghost es0 = Seq::new(entries@.len(), |i: int| (entries@[i].0@, entries@[i].1@));
        proof {
            assert(es0 =~= cseq0);
            assert(assoc_map(es0) == csv);
            assert(assoc_map(es0) == gv[at]);
        }
        while entries.len() > 0
            invariant
                entries@.len() <= es0.len(),
                forall|i: int|
                    0 <= i < entries@.len() ==> ((#[trigger] entries@[i]).0@, entries@[i].1@)
                        == es0[es0.len() - entries@.len() + i],
                insert_entries(m0, es0, 0) == insert_entries(
                    merged@,
                    es0,
                    es0.len() - entries@.len(),
                ),
            decreases entries@.len(),
        {
            let ghost ei = es0.len() - entries@.len();
            let (key, v) = entries.remove(0);
            proof {
                assert((key@, v@) == es0[ei]);
            }
            merged.insert(key, v);
        }
        proof {
            assert(insert_entries(m0, es0, 0) == merged@);
            lemma_insert_entries_union(m0, es0);
            assert(merged@ == m0.union_prefer_right(gv[at]));
            assert(merge_all(merged@, gv, at + 1) == merge_all(m0, gv, at));
        }
    }
    proof {
        assert(gv.len() - g@.len() == gv.len());
        assert(merge_all(merged@, gv, gv.len() as int) == merged@);
    }
    merged
}

impl Table {
    /// Checks the post-join conditions of one merged row, as `join_conds`
    /// says: every condition key must be a field, and its value is coerced
    /// to the field's runtime type before the comparison.
    fn check_join_conds(&self, merged: &ColumnSet, conds: &ColumnSet) -> (r: Result<
        bool,
        PoorlyError,
    >)
        ensures
            r matches Ok(b) ==> join_conds(merged@, conds.entry_seq(), 0, true, self.spec_name())
                == Ok::<bool, ErrV>(b),
            r matches Err(e) ==> join_conds(merged@, conds.entry_seq(), 0, true, self.spec_name())
                == Err::<bool, ErrV>(e@),
    {
        let ghost cseq = conds.entry_seq();
        proof {
            use_type_invariant(conds);
            conds.lemma_model();
        }
        let kn = conds.len();
        let mut ok = true;
        let mut q: usize = 0;
        while q < kn
            invariant
                q <= kn == conds.keys().len(),
                kn == cseq.len(),
                cseq == conds.entry_seq(),
                join_conds(merged@, cseq, 0, true, self.spec_name()) == join_conds(
                    merged@,
                    cseq,
                    q as int,
                    ok,
                    self.spec_name(),
                ),
            decreases kn - q,
        {
            proof {
                use_type_invariant(conds);
                conds.lemma_model();
                assert(cseq[q as int] == (conds.keys()[q as int], conds@[conds.keys()[q as int]]));
            }
            let key = conds.key_at(q);
            let cval = conds.value_at(q);
            match merged.get(key.as_str()) {
                Option::None => {
                    return Err(PoorlyError::ColumnNotFound(key.clone(), self.name.clone()));
                },
                Option::Some(fv) => {
                    let dt = fv.data_type();
                    match cval.clone().coerce(dt) {
                        Err(e) => {
                            return Err(e);
                        },
                        Ok(cv) => {
                            if !(fv == &cv) {
                                ok = false;
                            }
                        },
                    }
                },
            }
            q = q + 1;
        }
        Ok(ok)
    }

    /// Keeps the requested fields of a merged row; an empty request keeps
    /// them all.
    fn filter_set(&self, cs: &ColumnSet, proj: &Vec<String>) -> (r: ColumnSet)
        ensures
            r@ == project(cs@, proj_view(proj@)),
    {
        let ghost pv = proj_view(proj@);
        proof {
            use_type_invariant(cs);
            cs.lemma_model();
        }
        let mut out: ColumnSet = StrMap::new();
        let kn = cs.len();
        let keep_all = proj.len() == 0;
        let mut q: usize = 0;
        while q < kn
            invariant
                q <= kn == cs.keys().len(),
                pv == proj_view(proj@),
                keep_all == (pv.len() == 0),
                forall|k: Seq<char>|
                    #[trigger] out@.contains_key(k) ==> cs@.contains_key(k) && out@[k] == cs@[k]
                        && (keep_all || pv.to_set().contains(k)),
                forall|x: int|
                    0 <= x < q && (keep_all || pv.to_set().contains(#[trigger] cs.keys()[x]))
                        ==> out@.contains_key(cs.keys()[x]),
            decreases kn - q,
        {
            proof {
                use_type_invariant(cs);
                cs.lemma_model();
            }
            let key = cs.key_at(q);
            let cval = cs.value_at(q);
            let mut keep = keep_all;
            if !keep {
                let pn = proj.len();
                let mut t: usize = 0;
                while t < pn
                    invariant
                        t <= pn == proj@.len(),
                        pv == proj_view(proj@),
                        q < cs.keys().len(),
                        key@ == cs.keys()[q as int],
                        keep == exists|y: int| 0 <= y < t && #[trigger] pv[y] == key@,
                    decreases pn - t,
                {
                    proof {
                        assert(pv[t as int] == proj@[t as int]@);
                    }
                    if crate::text::str_eq(proj[t].as_str(), key.as_str()) {
                        keep = true;
                    }
                    t = t + 1;
                }
                proof {
                    if keep {
                        assert(pv.to_set().contains(key@));
                    } else {
                        if pv.to_set().contains(key@) {
                            let y = choose|y: int| 0 <= y < pv.len() && #[trigger] pv[y] == key@;
                            assert(false);
                        }
                    }
                }
            }
            if keep {
                out.insert(key.clone(), cval.clone());
            }
            q = q + 1;
        }
        proof {
            use_type_invariant(cs);
            cs.lemma_model();
            if keep_all {
                assert forall|k: Seq<char>| cs@.contains_key(k) implies out@.contains_key(k) by {
                    let x = choose|x: int|
                        0 <= x < cs.keys().len() && #[trigger] cs.keys()[x] == k;
                    assert(out@.contains_key(cs.keys()[x]));
                }
                assert(out@ =~= cs@);
            } else {
                assert forall|k: Seq<char>|
                    cs@.contains_key(k) && pv.to_set().contains(k) implies out@.contains_key(
                    k,
                ) by {
                    let x = choose|x: int|
                        0 <= x < cs.keys().len() && #[trigger] cs.keys()[x] == k;
                    assert(out@.contains_key(cs.keys()[x]));
                }
                assert(out@ =~= cs@.restrict(pv.to_set()));
            }
        }
        out
    }

    /// Joins this table with another: the live rows of both, under prefixed
    /// field names, are grouped by the join pairs in order, each group is
    /// merged into one row, the conditions are checked against it with
    /// coercion, and the requested fields of the kept rows come back.
    pub fn join(
        &self,
        other: &Table,
        columns: Vec<String>,
        conditions: ColumnSet,
        join_on: StrMap<String>,
    ) -> (r: Result<Vec<ColumnSet>, PoorlyError>)
        ensures
            join_res(
                self.spec_name(),
                self.spec_columns(),
                self.spec_rows(),
                other.spec_name(),
                other.spec_columns(),
                other.spec_rows(),
                pair_seq(join_on),
                conditions.entry_seq(),
                proj_view(columns@),
            ) matches Err(we) ==> (r matches Err(e) && e@ == we),
            join_res(
                self.spec_name(),
                self.spec_columns(),
                self.spec_rows(),
                other.spec_name(),
                other.spec_columns(),
                other.spec_rows(),
                pair_seq(join_on),
                conditions.entry_seq(),
                proj_view(columns@),
            ) matches Ok(res) ==> (r matches Ok(v) && v@.map_values(|cs: ColumnSet| cs@) == res),
    {
        let ghost cseq = conditions.entry_seq();
        let ghost pv = proj_view(columns@);
        let ghost pairs = pair_seq(join_on);
        let rows1 = self.prefixed_live_rows();
        let rows2 = other.prefixed_live_rows();
        let ghost ls = rows1@.map_values(|cs: ColumnSet| cs@);
        let ghost rs = rows2@.map_values(|cs: ColumnSet| cs@);
        let ghost gs = groups_spec(ls, rs, pairs, 0);
        let mut groups = join_groups(rows1, &rows2, &join_on);
        let mut out: Vec<ColumnSet> = Vec::new();
        proof {
            if join_walk(gs, 0, cseq, pv, self.spec_name()) is Ok {
                assert(out@.map_values(|cs: ColumnSet| cs@) + join_walk(
                    gs,
                    0,
                    cseq,
                    pv,
                    self.spec_name(),
                )->Ok_0 =~= join_walk(gs, 0, cseq, pv, self.spec_name())->Ok_0);
            }
        }
        while groups.len() > 0
            invariant
                groups@.len() <= gs.len(),
                cseq == conditions.entry_seq(),
                pv == proj_view(columns@),
                gs == groups_spec(
                    prefixed_rows(self.spec_name(), self.spec_columns(), self.spec_rows()),
                    prefixed_rows(other.spec_name(), other.spec_columns(), other.spec_rows()),
                    pair_seq(join_on),
                    0,
                ),
                forall|i: int|
                    0 <= i < groups@.len() ==> (#[trigger] groups@[i]).0@ == gs[gs.len()
                        - groups@.len() + i].0 && groups@[i].1@.map_values(|cs: ColumnSet| cs@)
                        == gs[gs.len() - groups@.len() + i].1,
                join_walk(gs, gs.len() - groups@.len(), cseq, pv, self.spec_name()) is Err
                    ==> join_walk(gs, 0, cseq, pv, self.spec_name()) == join_walk(
                    gs,
                    gs.len() - groups@.len(),
                    cseq,
                    pv,
                    self.spec_name(),
                ),
                join_walk(gs, gs.len() - groups@.len(), cseq, pv, self.spec_name()) is Ok
                    ==> join_walk(gs, 0, cseq, pv, self.spec_name()) is Ok && join_walk(
                    gs,
                    0,
                    cseq,
                    pv,
                    self.spec_name(),
                )->Ok_0 == out@.map_values(|cs: ColumnSet| cs@) + join_walk(
                    gs,
                    gs.len() - groups@.len(),
                    cseq,
                    pv,
                    self.spec_name(),
                )->Ok_0,
            decreases groups@.len(),
        {
            let ghost gi = gs.len() - groups@.len();
            let ghost grp0 = groups@;
            let (l, g) = groups.remove(0);
            proof {
                assert((l, g) == grp0[0]);
                assert(l@ == gs[gi].0);
                assert(g@.map_values(|cs: ColumnSet| cs@) == gs[gi].1);
                assert(forall|i: int|
                    0 <= i < groups@.len() ==> (#[trigger] groups@[i]) == grp0[i + 1]);
            }
            let merged = merge_group(l, g);
            proof {
                assert(merged@ == merge_all(gs[gi].0, gs[gi].1, 0));
            }
            match self.check_join_conds(&merged, &conditions) {
                Err(e) => {
                    proof {
                        assert(join_walk(gs, gi, cseq, pv, self.spec_name()) == Err::<
                            Seq<Map<Seq<char>, Val>>,
                            ErrV,
                        >(e@));
                    }
                    return Err(e);
                },
                Ok(b) => {
                    if b {
                        let ghost out0 = out@;
                        let img = self.filter_set(&merged, &columns);
                        out.push(img);
                        proof {
                            assert(out@.map_values(|cs: ColumnSet| cs@) =~= out0.map_values(
                                |cs: ColumnSet| cs@,
                            ).push(project(merged@, pv)));
                            if join_walk(gs, 0, cseq, pv, self.spec_name()) is Ok {
                                assert(out0.map_values(|cs: ColumnSet| cs@) + (seq![
                                    project(merged@, pv),
                                ] + join_walk(gs, gi + 1, cseq, pv, self.spec_name())->Ok_0)
                                    =~= out@.map_values(|cs: ColumnSet| cs@) + join_walk(
                                    gs,
                                    gi + 1,
                                    cseq,
                                    pv,
                                    self.spec_name(),
                                )->Ok_0);
                            }
                        }
                    }
                },
            }
        }
        proof {
            assert(join_walk(gs, gs.len() as int, cseq, pv, self.spec_name()) == Ok::<
                Seq<Map<Seq<char>, Val>>,
                ErrV,
            >(Seq::empty()));
            if join_walk(gs, 0, cseq, pv, self.spec_name()) is Ok {
                assert(out@.map_values(|cs: ColumnSet| cs@) + Seq::<Map<Seq<char>, Val>>::empty()
                    =~= out@.map_values(|cs: ColumnSet| cs@));
            }
        }
        Ok(out)
    }

    /// Empties the table: all rows are discarded and the counter starts
    /// over, as a freshly created backing file would.
    pub fn drop(&mut self) -> (r: Result<(), PoorlyError>)
        ensures
            r is Ok,
            final(self).spec_name() == old(self).spec_name(),
            final(self).spec_columns() == old(self).spec_columns(),
            final(self).spec_serial() == 0,
            final(self).spec_rows() == Seq::<(bool, Seq<Val>)>::empty(),
    {
        proof {
            use_type_invariant(&*self);
        }
        self.serial = 0;
        let mut rows: Vec<Row> = Vec::new();
        core::mem::swap(&mut rows, &mut self.rows);
        proof {
            assert(self.spec_rows() =~= Seq::<(bool, Seq<Val>)>::empty());
        }
        Ok(())
    }
}

/// The encoded values of one row, in column order.
pub open spec fn encode_vals(vals: Seq<Val>) -> Seq<u8>
    decreases vals.len(),
{
    if vals.len() == 0 {
        Seq::empty()
    } else {
        encode_vals(vals.drop_last()) + encode_value(vals.last())
    }
}

/// One stored row: the tombstone byte, then the values.
pub open spec fn encode_row(r: (bool, Seq<Val>)) -> Seq<u8> {
    seq![if r.0 {
        1u8
    } else {
        0u8
    }] + encode_vals(r.1)
}

/// The rows of the table image, in order.
pub open spec fn encode_rows(rows: Seq<(bool, Seq<Val>)>) -> Seq<u8>
    decreases rows.len(),
{
    if rows.len() == 0 {
        Seq::empty()
    } else {
        encode_rows(rows.drop_last()) + encode_row(rows.last())
    }
}

/// The whole durable image: the 4-byte little-endian next-serial counter,
/// then the rows.
pub open spec fn encode_table(serial: u32, rows: Seq<(bool, Seq<Val>)>) -> Seq<u8> {
    spec_u32_to_le_bytes(serial) + encode_rows(rows)
}

/// The values of one row read back from the image.
pub open spec fn decode_vals(
    cols: Seq<(Seq<char>, DataType)>,
    j: int,
    bytes: Seq<u8>,
    pos: int,
) -> Option<(Seq<Val>, int)>
    decreases cols.len() - j,
{
    if j < 0 || j >= cols.len() {
        Some((Seq::empty(), pos))
    } else {
        match decode_value(cols[j].1, bytes, pos) {
            Option::None => Option::None,
            Some((v, p2)) => match decode_vals(cols, j + 1, bytes, p2) {
                Option::None => Option::None,
                Some((rest, p3)) => Some((seq![v] + rest, p3)),
            },
        }
    }
}

/// The rows read back from the image, from `pos` to its end.
pub open spec fn decode_rows(
    cols: Seq<(Seq<char>, DataType)>,
    bytes: Seq<u8>,
    pos: int,
) -> Option<Seq<(bool, Seq<Val>)>>
    decreases bytes.len() - pos,
{
    if pos < 0 || pos > bytes.len() {
        Option::None
    } else if pos == bytes.len() {
        Some(Seq::empty())
    } else {
        let deleted = bytes[pos] != 0;
        match decode_vals(cols, 0, bytes, pos + 1) {
            Option::None => Option::None,
            Some((vals, p2)) => if pos < p2 <= bytes.len() {
                match decode_rows(cols, bytes, p2) {
                    Option::None => Option::None,
                    Some(rest) => Some(seq![(deleted, vals)] + rest),
                }
            } else {
                Option::None
            },
        }
    }
}

/// What an image holds: the counter and the rows. An image too short for
/// the counter reads as a fresh table, as a newly created file would.
pub open spec fn decode_table(cols: Seq<(Seq<char>, DataType)>, bytes: Seq<u8>) -> Option<
    (u32, Seq<(bool, Seq<Val>)>),
> {
    if bytes.len() < 4 {
        Some((0u32, Seq::empty()))
    } else {
        match decode_rows(cols, bytes, 4) {
            Option::None => Option::None,
            Some(rows) => Some((spec_u32_from_le_bytes(bytes.subrange(0, 4)), rows)),
        }
    }
}

impl Table {
    /// Writes the table's durable image.
    pub fn to_bytes(&self) -> (r: Vec<u8>)
        ensures
            r@ == encode_table(self.spec_serial(), self.spec_rows()),
    {
        proof {
            use_type_invariant(&*self);
            self.lemma_shape();
        }
        let ghost rv = self.spec_rows();
        let mut out = u32_to_le_bytes(self.serial);
        let nrows = self.rows.len();
        let mut i: usize = 0;
        proof {
            assert(encode_rows(rv.take(0)) =~= Seq::empty());
            assert(out@ =~= spec_u32_to_le_bytes(self.spec_serial()) + encode_rows(rv.take(0)));
        }
        while i < nrows
            invariant
                i <= nrows == self.rows@.len(),
                rv == self.spec_rows(),
                self.wf_pub(),
                out@ == spec_u32_to_le_bytes(self.spec_serial()) + encode_rows(rv.take(i as int)),
            decreases nrows - i,
        {
            proof {
                use_type_invariant(&*self);
                assert(rv[i as int] == row_view(self.rows@[i as int]));
            }
            let row = &self.rows[i];
            out.push(if row.deleted {
                1u8
            } else {
                0u8
            });
            let ghost vals = rv[i as int].1;
            let nvals = row.values.len();
            let mut j: usize = 0;
            proof {
                assert(encode_vals(vals.take(0)) =~= Seq::empty());
                assert(out@ =~= spec_u32_to_le_bytes(self.spec_serial()) + encode_rows(
                    rv.take(i as int),
                ) + seq![
                    if rv[i as int].0 {
                        1u8
                    } else {
                        0u8
                    },
                ] + encode_vals(vals.take(0)));
            }
            while j < nvals
                invariant
                    j <= nvals == row.values@.len(),
                    i < nrows == self.rows@.len(),
                    row == self.rows@[i as int],
                    rv == self.spec_rows(),
                    rv[i as int] == row_view(self.rows@[i as int]),
                    vals == rv[i as int].1,
                    out@ == spec_u32_to_le_bytes(self.spec_serial()) + encode_rows(
                        rv.take(i as int),
                    ) + seq![
                        if rv[i as int].0 {
                            1u8
                        } else {
                            0u8
                        },
                    ] + encode_vals(vals.take(j as int)),
                decreases nvals - j,
            {
                proof {
                    assert(row.values@[j as int]@ == vals[j as int]);
                    assert(vals.take(j as int + 1).drop_last() =~= vals.take(j as int));
                    assert(vals.take(j as int + 1).last() == vals[j as int]);
                }
                let mut enc = value_to_bytes(&row.values[j]);
                let ghost out0 = out@;
                out.append(&mut enc);
                proof {
                    assert(out@ =~= out0 + encode_value(vals[j as int]));
                    assert(out@ =~= spec_u32_to_le_bytes(self.spec_serial()) + encode_rows(
                        rv.take(i as int),
                    ) + seq![
                        if rv[i as int].0 {
                            1u8
                        } else {
                            0u8
                        },
                    ] + encode_vals(vals.take(j as int + 1)));
                }
                j = j + 1;
            }
            proof {
                assert(vals.take(nvals as int) =~= vals);
                assert(rv.take(i as int + 1).drop_last() =~= rv.take(i as int));
                assert(rv.take(i as int + 1).last() == rv[i as int]);
                assert(encode_rows(rv.take(i as int + 1)) == encode_rows(rv.take(i as int))
                    + encode_row(rv[i as int]));
                assert(out@ =~= spec_u32_to_le_bytes(self.spec_serial()) + encode_rows(
                    rv.take(i as int + 1),
                ));
            }
            i = i + 1;
        }
        proof {
            assert(rv.take(nrows as int) =~= rv);
        }
        out
    }

    /// Reads a table back from its durable image; a byte stream that does
    /// not parse is a corrupt image.
    pub fn open(name: String, columns: Columns, data: &Vec<u8>) -> (r: Result<Table, PoorlyError>)
        requires
            distinct_keys(cols_view(columns@)),
        ensures
            decode_table(cols_view(columns@), data@) matches Some(m) ==> (r matches Ok(t)
                && t.spec_name() == name@ && t.spec_columns() == cols_view(columns@)
                && t.spec_serial() == m.0 && t.spec_rows() == m.1),
            decode_table(cols_view(columns@), data@) is None ==> (r matches Err(e) && e@
                is IoError),
    {
        let ghost cv = cols_view(columns@);
        let n = data.len();
        if n < 4 {
            return Ok(Table::new(name, columns));
        }
        let serial = u32_from_le_bytes(vstd::slice::slice_subrange(data.as_slice(), 0, 4));
        let mut t = Table::new(name, columns);
        let mut pos: usize = 4;
        while pos < n
            invariant
                4 <= pos <= n == data@.len(),
                cv == cols_view(columns@),
                cv == t.spec_columns(),
                t.spec_name() == name@,
                distinct_keys(cv),
                t.spec_serial() == 0,
                decode_rows(cv, data@, pos as int) matches Some(rest) ==> (decode_rows(
                    cv,
                    data@,
                    4,
                ) matches Some(all) && all == t.spec_rows() + rest),
                decode_rows(cv, data@, pos as int) is None ==> decode_rows(cv, data@, 4) is None,
            decreases n - pos,
        {
            let flag = data[pos];
            let deleted = flag != 0;
            let ghost pos0 = pos as int;
            let mut vals: Vec<TypedValue> = Vec::new();
            let ncols = t.columns_len();
            let mut p: usize = pos + 1;
            let mut j: usize = 0;
            proof {
                assert(decode_vals(cv, 0, data@, pos0 + 1) is Some ==> true);
            }
            while j < ncols
                invariant
                    j <= ncols == cv.len(),
                    pos0 + 1 <= p <= n == data@.len(),
                    pos0 == pos,
                    4 <= pos < n,
                    cv == t.spec_columns(),
                    vals@.len() == j,
                    decode_vals(cv, j as int, data@, p as int) matches Some(w) ==> (decode_vals(
                        cv,
                        0,
                        data@,
                        pos0 + 1,
                    ) matches Some(w0) && w0.0 == vals@.map_values(|v: TypedValue| v@) + w.0
                        && w0.1 == w.1),
                    decode_vals(cv, j as int, data@, p as int) is None ==> decode_vals(
                        cv,
                        0,
                        data@,
                        pos0 + 1,
                    ) is None,
                    decode_rows(cv, data@, pos0) is None ==> decode_rows(cv, data@, 4) is None,
                    n >= 4,
                    cv == cols_view(columns@),
                decreases ncols - j,
            {
                let dt = t.column_type(j);
                match value_from_bytes(dt, data, p) {
                    Option::None => {
                        proof {
                            assert(decode_vals(cv, j as int, data@, p as int) is None);
                            assert(decode_vals(cv, 0, data@, pos0 + 1) is None);
                            assert(decode_rows(cv, data@, pos0) is None);
                            assert(decode_rows(cv, data@, 4) is None);
                            assert(decode_table(cv, data@) is None);
                        }
                        return Err(PoorlyError::IoError("corrupt table image".to_owned()));
                    },
                    Some((v, p2)) => {
                        let ghost vals0 = vals@;
                        vals.push(v);
                        proof {
                            assert(vals@.map_values(|x: TypedValue| x@) =~= vals0.map_values(
                                |x: TypedValue| x@,
                            ).push(v@));
                            if decode_vals(cv, j as int + 1, data@, p2 as int) is Some {
                                let w = decode_vals(cv, j as int + 1, data@, p2 as int)->Some_0;
                                assert(vals0.map_values(|x: TypedValue| x@).push(v@) + w.0
                                    =~= vals0.map_values(|x: TypedValue| x@) + (seq![v@] + w.0));
                            }
                        }
                        p = p2;
                    },
                }
                j = j + 1;
            }
            proof {
                assert(decode_vals(cv, ncols as int, data@, p as int) == Some((
                    Seq::<Val>::empty(),
                    p as int,
                )));
                if decode_vals(cv, 0, data@, pos0 + 1) is Some {
                    let w0 = decode_vals(cv, 0, data@, pos0 + 1)->Some_0;
                    assert(w0.0 =~= vals@.map_values(|v: TypedValue| v@));
                    assert(w0.1 == p as int);
                }
            }
            let ghost t0 = t;
            t.push_row(deleted, vals);
            proof {
                assert(t.spec_rows() == t0.spec_rows().push(
                    (deleted, vals@.map_values(|v: TypedValue| v@)),
                ));
                if decode_rows(cv, data@, p as int) is Some {
                    let rest = decode_rows(cv, data@, p as int)->Some_0;
                    assert(decode_rows(cv, data@, pos0) == Some(
                        seq![(deleted, vals@.map_values(|v: TypedValue| v@))] + rest,
                    ));
                    assert(t0.spec_rows() + (seq![
                        (deleted, vals@.map_values(|v: TypedValue| v@)),
                    ] + rest) =~= t.spec_rows() + rest);
                }
            }
            pos = p;
        }
        proof {
            assert(decode_rows(cv, data@, n as int) == Some(Seq::<(bool, Seq<Val>)>::empty()));
            if decode_rows(cv, data@, 4) is Some {
                let all = decode_rows(cv, data@, 4)->Some_0;
                assert(all =~= t.spec_rows() + Seq::<(bool, Seq<Val>)>::empty());
                assert(all =~= t.spec_rows());
            }
        }
        let t = t.with_serial(serial);
        proof {
            vstd::bytes::lemma_auto_spec_u32_to_from_le_bytes();
        }
        Ok(t)
    }

    /// The declared type of the column at the index.
    fn column_type(&self, j: usize) -> (r: DataType)
        requires
            j < self.spec_columns().len(),
        ensures
            r == self.spec_columns()[j as int].1,
    {
        proof {
            use_type_invariant(&*self);
            assert(self.spec_columns()[j as int] == (self.columns@[j as int].0@, self.columns@[
            j as int].1));
        }
        self.columns[j].1
    }

    /// Appends a raw decoded row.
    fn push_row(&mut self, deleted: bool, values: Vec<TypedValue>)
        requires
            values@.len() == old(self).spec_columns().len(),
        ensures
            final(self).spec_name() == old(self).spec_name(),
            final(self).spec_columns() == old(self).spec_columns(),
            final(self).spec_serial() == old(self).spec_serial(),
            final(self).spec_rows() == old(self).spec_rows().push(
                (deleted, values@.map_values(|v: TypedValue| v@)),
            ),
    {
        proof {
            use_type_invariant(&*self);
        }
        let ghost vv = values@.map_values(|v: TypedValue| v@);
        let mut rows: Vec<Row> = Vec::new();
        core::mem::swap(&mut rows, &mut self.rows);
        rows.push(Row { deleted, values });
        self.rows = rows;
        proof {
            assert(self.spec_rows() =~= old(self).spec_rows().push((deleted, vv)));
        }
    }

    /// Sets the counter read from the image.
    fn with_serial(self, serial: u32) -> (r: Table)
        ensures
            r.spec_name() == self.spec_name(),
            r.spec_columns() == self.spec_columns(),
            r.spec_rows() == self.spec_rows(),
            r.spec_serial() == serial,
    {
        proof {
            use_type_invariant(&self);
        }
        let mut t = self;
        t.serial = serial;
        t
    }
}

} // verus!
