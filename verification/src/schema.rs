//! The schema layer: named, ordered column lists per table, sorted by column
//! name when a table is created, with validated identifiers.

use vstd::prelude::*;

use crate::strmap::StrMap;
use crate::text::{
    check_name, first_occ, lemma_first_occ, lemma_first_occ_absent, lemma_first_occ_concat,
    lemma_lex_antisym, lemma_lex_total, lemma_lex_trans, lex_leq, no_char, str_eq, valid_name,
};
use vstd::seq_lib::lemma_multiset_commutative;
use crate::types::{DataType, ErrV, PoorlyError};
use vstd::string::{StringExecFns, StrSliceExecFns};

verus! {

/// A named column.
pub type Column = (String, DataType);

/// The columns of one table, in their permanent order.
pub type Columns = Vec<Column>;

/// The columns at the level contracts speak of: name characters and type.
pub open spec fn cols_view(s: Seq<Column>) -> Seq<(Seq<char>, DataType)> {
    s.map_values(|p: Column| (p.0@, p.1))
}

/// Where a new column lands among already-sorted ones: after every column
/// whose name is not above its own.
pub open spec fn insert_sorted(r: Seq<Column>, x: Column) -> Seq<Column>
    decreases r.len(),
{
    if r.len() == 0 {
        seq![x]
    } else if lex_leq(r[0].0@, x.0@) {
        seq![r[0]] + insert_sorted(r.skip(1), x)
    } else {
        seq![x] + r
    }
}

/// Insertion sort by column name: the canonical column order of a table.
pub open spec fn sort_cols(s: Seq<Column>) -> Seq<Column>
    decreases s.len(),
{
    if s.len() == 0 {
        s
    } else {
        insert_sorted(sort_cols(s.drop_last()), s.last())
    }
}

/// Sorts columns by name, stably.
fn sort_columns(cols: Columns) -> (r: Columns)
    ensures
        r@ == sort_cols(cols@),
{
    let ghost orig = cols@;
    let mut rest = cols;
    let mut out: Columns = Vec::new();
    proof {
        assert(orig.take(0) =~= Seq::empty());
        assert(rest@ =~= orig.skip(0));
    }
    while rest.len() > 0
        invariant
            rest@.len() + out@.len() == orig.len(),
            rest@ == orig.skip(out@.len() as int),
            out@ == sort_cols(orig.take(out@.len() as int)),
        decreases rest@.len(),
    {
        let ghost k = out@.len() as int;
        let x = rest.remove(0);
        proof {
            assert(x == orig[k]);
            assert(rest@ =~= orig.skip(k + 1));
        }
        let ghost out0 = out@;
        let n_out = out.len();
        let mut j: usize = 0;
        proof {
            assert(out0.skip(0) =~= out0);
            assert(out0.take(0) =~= Seq::<Column>::empty());
            assert(out0.take(0) + insert_sorted(out0.skip(0), x) =~= insert_sorted(out0, x));
        }
        while j < n_out && str_leq_cols(&out, j, &x)
            invariant
                j <= n_out == out@.len(),
                out@ == out0,
                insert_sorted(out0, x) == out0.take(j as int) + insert_sorted(
                    out0.skip(j as int),
                    x,
                ),
            decreases n_out - j,
        {
            proof {
                let tail = out0.skip(j as int);
                assert(tail[0] == out0[j as int]);
                assert(lex_leq(out0[j as int].0@, x.0@));
                assert(insert_sorted(tail, x) == seq![tail[0]] + insert_sorted(tail.skip(1), x));
                assert(tail.skip(1) =~= out0.skip(j as int + 1));
                assert(out0.take(j as int) + (seq![out0[j as int]] + insert_sorted(
                    out0.skip(j as int + 1),
                    x,
                )) =~= out0.take(j as int + 1) + insert_sorted(out0.skip(j as int + 1), x));
            }
            j = j + 1;
        }
        out.insert(j, x);
        proof {
            if j == n_out {
                assert(out0.skip(j as int).len() == 0);
                assert(insert_sorted(out0.skip(j as int), x) == seq![x]);
            } else {
                let tail = out0.skip(j as int);
                assert(tail[0] == out0[j as int]);
                assert(!lex_leq(out0[j as int].0@, x.0@));
                assert(insert_sorted(tail, x) == seq![x] + tail);
            }
            assert(out@ =~= out0.take(j as int) + insert_sorted(out0.skip(j as int), x));
            assert(orig.take(k + 1).drop_last() =~= orig.take(k));
            assert(orig.take(k + 1).last() == orig[k]);
            assert(out@ == sort_cols(orig.take(k + 1)));
        }
    }
    proof {
        assert(orig.take(out@.len() as int) =~= orig);
    }
    out
}

/// Whether the column at `j` of `out` sorts no later than `x`.
fn str_leq_cols(out: &Columns, j: usize, x: &Column) -> (r: bool)
    requires
        j < out@.len(),
    ensures
        r == lex_leq(out@[j as int].0@, x.0@),
{
    crate::text::str_leq(out[j].0.as_str(), x.0.as_str())
}

/// The first fault among sorted columns, scanned in order: an invalid name,
/// or a name equal to its left neighbour.
pub open spec fn check_cols_from(s: Seq<Column>, table: Seq<char>, i: int) -> Option<ErrV>
    decreases s.len() - i,
{
    if i < 0 || i >= s.len() {
        None
    } else if !valid_name(s[i].0@) {
        Some(ErrV::InvalidName(s[i].0@))
    } else if i > 0 && s[i].0@ == s[i - 1].0@ {
        Some(ErrV::ColumnAlreadyExists(s[i].0@, table))
    } else {
        check_cols_from(s, table, i + 1)
    }
}

/// What creating a table yields: the fault it is refused for, or nothing.
pub open spec fn create_table_check(
    tables: Map<Seq<char>, Seq<Column>>,
    name: Seq<char>,
    cols: Seq<Column>,
) -> Option<ErrV> {
    if !valid_name(name) {
        Some(ErrV::InvalidName(name))
    } else if cols.len() == 0 {
        Some(ErrV::NoColumns)
    } else if tables.contains_key(name) {
        Some(ErrV::TableAlreadyExists(name))
    } else {
        check_cols_from(sort_cols(cols), name, 0)
    }
}

/// The storage backend a schema is for.
#[derive(Debug, Clone, Copy, PartialEq, Eq, Structural)]
pub enum SchemaKind {
    Poorly,
    Sqlite,
}

/// The tables of one database: their names and column lists, with the
/// database's name and storage kind.
pub struct Schema {
    pub tables: StrMap<Columns>,
    pub name: String,
    pub kind: SchemaKind,
}

impl Schema {
    /// The database name the schema carries.
    pub open spec fn spec_name(self) -> Seq<char> {
        self.name@
    }

    /// The storage kind the schema carries.
    pub open spec fn spec_kind(self) -> SchemaKind {
        self.kind
    }

    pub fn new_sqlite(name: String) -> (r: Self)
        ensures
            r.tables@ == Map::<Seq<char>, Seq<Column>>::empty(),
            r.tables.keys() == Seq::<Seq<char>>::empty(),
            r.spec_name() == name@,
            r.spec_kind() == SchemaKind::Sqlite,
    {
        Schema { tables: StrMap::new(), name, kind: SchemaKind::Sqlite }
    }

    pub fn new_poorly(name: String) -> (r: Self)
        ensures
            r.tables@ == Map::<Seq<char>, Seq<Column>>::empty(),
            r.tables.keys() == Seq::<Seq<char>>::empty(),
            r.spec_name() == name@,
            r.spec_kind() == SchemaKind::Poorly,
    {
        Schema { tables: StrMap::new(), name, kind: SchemaKind::Poorly }
    }

    pub fn is_sqlite(&self) -> (r: bool)
        ensures
            r == (self.spec_kind() == SchemaKind::Sqlite),
    {
        self.kind == SchemaKind::Sqlite
    }

    pub fn is_poorly(&self) -> (r: bool)
        ensures
            r == (self.spec_kind() == SchemaKind::Poorly),
    {
        self.kind == SchemaKind::Poorly
    }

    /// Declares a table: the name and every column name must be valid, the
    /// column list non-empty, the table new, and the names distinct; the
    /// columns are kept sorted by name.
    pub fn create_table(&mut self, table_name: String, columns: Columns) -> (r: Result<
        (),
        PoorlyError,
    >)
        ensures
            r is Ok <==> create_table_check(old(self).tables@, table_name@, columns@) is None,
            r matches Err(e) ==> Some(e@) == create_table_check(
                old(self).tables@,
                table_name@,
                columns@,
            ) && *final(self) == *old(self),
            r is Ok ==> final(self).tables@ == old(self).tables@.insert(
                table_name@,
                sort_cols(columns@),
            ) && final(self).tables.keys() == old(self).tables.keys().push(table_name@),
            final(self).spec_name() == old(self).spec_name() && final(self).spec_kind() == old(
                self,
            ).spec_kind(),
    {
        if !check_name(table_name.as_str()) {
            return Err(PoorlyError::InvalidName(table_name));
        }
        if columns.len() == 0 {
            return Err(PoorlyError::NoColumns);
        }
        if self.tables.contains_key(table_name.as_str()) {
            return Err(PoorlyError::TableAlreadyExists(table_name));
        }
        let sorted = sort_columns(columns);
        let n = sorted.len();
        let mut i: usize = 0;
        while i < n
            invariant
                i <= n == sorted@.len(),
                sorted@ == sort_cols(columns@),
                valid_name(table_name@),
                columns@.len() > 0,
                !old(self).tables@.contains_key(table_name@),
                *self == *old(self),
                check_cols_from(sorted@, table_name@, 0) == check_cols_from(
                    sorted@,
                    table_name@,
                    i as int,
                ),
        decreases n - i,
        {
            if !check_name(sorted[i].0.as_str()) {
                return Err(PoorlyError::InvalidName(sorted[i].0.clone()));
            }
            if i > 0 && str_eq(sorted[i].0.as_str(), sorted[i - 1].0.as_str()) {
                return Err(
                    PoorlyError::ColumnAlreadyExists(sorted[i].0.clone(), table_name),
                );
            }
            i = i + 1;
        }
        self.tables.insert(table_name, sorted);
        Ok(())
    }

    /// Removes a table's declaration; a name that is not declared is a
    /// table-not-found failure.
    pub fn drop_table(&mut self, name: String) -> (r: Result<(), PoorlyError>)
        ensures
            r is Ok <==> old(self).tables@.contains_key(name@),
            r is Ok ==> final(self).tables@ == old(self).tables@.remove(name@) && exists|i: int|
                0 <= i < old(self).tables.keys().len() && old(self).tables.keys()[i] == name@
                    && final(self).tables.keys() == old(self).tables.keys().remove(i),
            r matches Err(e) ==> e@ == ErrV::TableNotFound(name@) && *final(self) == *old(self),
            final(self).spec_name() == old(self).spec_name() && final(self).spec_kind() == old(
                self,
            ).spec_kind(),
    {
        match self.tables.remove(name.as_str()) {
            Some(_) => Ok(()),
            None => Err(PoorlyError::TableNotFound(name)),
        }
    }
}

/// One step per column: a matching rename is applied, the new name
/// validated, and a collision with an earlier new name refused.
pub open spec fn alter_walk(
    cols: Seq<(Seq<char>, DataType)>,
    i: int,
    ren: Map<Seq<char>, Seq<char>>,
    table: Seq<char>,
    acc: Seq<(Seq<char>, DataType)>,
) -> Result<Seq<(Seq<char>, DataType)>, ErrV>
    decreases cols.len() - i,
{
    if i < 0 || i >= cols.len() {
        Ok(acc)
    } else {
        let newname = if ren.contains_key(cols[i].0) {
            ren[cols[i].0]
        } else {
            cols[i].0
        };
        if ren.contains_key(cols[i].0) && !valid_name(newname) {
            Err(ErrV::InvalidName(newname))
        } else if exists|k: int| 0 <= k < acc.len() && (#[trigger] acc[k]).0 == newname {
            Err(ErrV::ColumnAlreadyExists(newname, table))
        } else {
            alter_walk(cols, i + 1, ren, table, acc.push((newname, cols[i].1)))
        }
    }
}

/// Whether every rename key names some column.
pub open spec fn all_matched(
    ren: Map<Seq<char>, Seq<char>>,
    cols: Seq<(Seq<char>, DataType)>,
) -> bool {
    forall|k: Seq<char>|
        ren.contains_key(k) ==> exists|j: int| 0 <= j < cols.len() && (#[trigger] cols[j]).0 == k
}

impl Schema {
    /// Renames columns of a table: existing order and types are kept, new
    /// names are validated, collisions are refused, and a rename that names
    /// no column is a column-not-found failure.
    pub fn alter_table(&mut self, table: String, rename: StrMap<String>) -> (r: Result<
        (),
        PoorlyError,
    >)
        ensures
            !old(self).tables@.contains_key(table@) ==> (r matches Err(e) && e@
                == ErrV::TableNotFound(table@) && *final(self) == *old(self)),
            alter_walk(
                cols_view(old(self).tables@[table@]),
                0,
                rename@,
                table@,
                Seq::empty(),
            ) matches Err(we) ==> old(self).tables@.contains_key(table@) ==> (r matches Err(e)
                && e@ == we && *final(self) == *old(self)),
            alter_walk(
                cols_view(old(self).tables@[table@]),
                0,
                rename@,
                table@,
                Seq::empty(),
            ) matches Ok(nc) ==> old(self).tables@.contains_key(table@) ==> ((all_matched(
                rename@,
                cols_view(old(self).tables@[table@]),
            ) ==> r is Ok && final(self).tables@.contains_key(table@) && cols_view(
                final(self).tables@[table@],
            ) == nc && final(self).tables@.remove(table@) == old(self).tables@.remove(table@)
                && final(self).tables.keys() == old(self).tables.keys()) && (!all_matched(
                rename@,
                cols_view(old(self).tables@[table@]),
            ) ==> (r matches Err(e) && (e@ matches ErrV::ColumnNotFound(k, t) && t == table@
                && rename@.contains_key(k)) && *final(self) == *old(self)))),
            final(self).spec_name() == old(self).spec_name() && final(self).spec_kind() == old(
                self,
            ).spec_kind(),
    {
        let cols = match self.tables.get(table.as_str()) {
            None => {
                return Err(PoorlyError::TableNotFound(table));
            },
            Some(c) => c,
        };
        let ghost cv = cols_view(cols@);
        let mut new_columns: Columns = Vec::new();
        let n = cols.len();
        let mut i: usize = 0;
        proof {
            assert(cols_view(new_columns@) =~= Seq::empty());
        }
        while i < n
            invariant
                i <= n == cols@.len(),
                *self == *old(self),
                self.tables@.contains_key(table@),
                cv == cols_view(self.tables@[table@]),
                cv == cols_view(old(self).tables@[table@]),
                cols@ == self.tables@[table@],
                alter_walk(cv, 0, rename@, table@, Seq::empty()) == alter_walk(
                    cv,
                    i as int,
                    rename@,
                    table@,
                    cols_view(new_columns@),
                ),
            decreases n - i,
        {
            let ghost acc0 = cols_view(new_columns@);
            let colname = &cols[i].0;
            proof {
                assert(cv[i as int] == (cols@[i as int].0@, cols@[i as int].1));
            }
            let new_name: String = match rename.get(colname.as_str()) {
                Some(nn) => {
                    let nn = nn.clone();
                    if !check_name(nn.as_str()) {
                        proof {
                            assert(alter_walk(cv, i as int, rename@, table@, acc0) == Err::<
                                Seq<(Seq<char>, DataType)>,
                                ErrV,
                            >(ErrV::InvalidName(nn@)));
                        }
                        return Err(PoorlyError::InvalidName(nn));
                    }
                    nn
                },
                None => colname.clone(),
            };
            proof {
                assert(new_name@ == (if rename@.contains_key(cv[i as int].0) {
                    rename@[cv[i as int].0]
                } else {
                    cv[i as int].0
                }));
            }
            let mut dup = false;
            let m = new_columns.len();
            let mut k: usize = 0;
            while k < m
                invariant
                    k <= m == new_columns@.len(),
                    dup == exists|q: int|
                        0 <= q < k && (#[trigger] cols_view(new_columns@)[q]).0 == new_name@,
                decreases m - k,
            {
                proof {
                    assert(cols_view(new_columns@)[k as int].0 == new_columns@[k as int].0@);
                }
                if str_eq(new_columns[k].0.as_str(), new_name.as_str()) {
                    dup = true;
                }
                k = k + 1;
            }
            if dup {
                proof {
                    assert(alter_walk(cv, i as int, rename@, table@, acc0) == Err::<
                        Seq<(Seq<char>, DataType)>,
                        ErrV,
                    >(ErrV::ColumnAlreadyExists(new_name@, table@)));
                }
                return Err(PoorlyError::ColumnAlreadyExists(new_name, table));
            }
            let dt = cols[i].1;
            let ghost nn_view = new_name@;
            new_columns.push((new_name, dt));
            proof {
                assert(cols_view(new_columns@) =~= acc0.push((nn_view, cv[i as int].1)));
                assert(alter_walk(cv, i as int, rename@, table@, acc0) == alter_walk(
                    cv,
                    i as int + 1,
                    rename@,
                    table@,
                    cols_view(new_columns@),
                ));
            }
            i = i + 1;
        }
        proof {
            assert(alter_walk(cv, n as int, rename@, table@, cols_view(new_columns@)) == Ok::<
                Seq<(Seq<char>, DataType)>,
                ErrV,
            >(cols_view(new_columns@)));
        }
        // every rename key must have named some column
        let rn = rename.len();
        let mut q: usize = 0;
        while q < rn
            invariant
                q <= rn == rename.keys().len(),
                *self == *old(self),
                self.tables@.contains_key(table@),
                cv == cols_view(old(self).tables@[table@]),
                cols@ == self.tables@[table@],
                n == cols@.len(),
                alter_walk(cv, 0, rename@, table@, Seq::empty()) == Ok::<
                    Seq<(Seq<char>, DataType)>,
                    ErrV,
                >(cols_view(new_columns@)),
                forall|x: int|
                    0 <= x < q ==> exists|j: int|
                        0 <= j < cv.len() && (#[trigger] cv[j]).0 == #[trigger] rename.keys()[x],
            decreases rn - q,
        {
            let key = rename.key_at(q);
            let mut hit = false;
            let mut j: usize = 0;
            while j < n
                invariant
                    j <= n == cols@.len(),
                    cv == cols_view(cols@),
                    hit == exists|y: int| 0 <= y < j && (#[trigger] cv[y]).0 == key@,
                decreases n - j,
            {
                proof {
                    assert(cv[j as int].0 == cols@[j as int].0@);
                }
                if str_eq(cols[j].0.as_str(), key.as_str()) {
                    hit = true;
                }
                j = j + 1;
            }
            if !hit {
                let missing = key.clone();
                proof {
                    use_type_invariant(&rename);
                    rename.lemma_model();
                    assert(rename@.contains_key(missing@));
                    assert(!all_matched(rename@, cv));
                }
                return Err(PoorlyError::ColumnNotFound(missing, table));
            }
            q = q + 1;
        }
        proof {
            use_type_invariant(&rename);
            rename.lemma_model();
            assert forall|kk: Seq<char>| rename@.contains_key(kk) implies exists|j: int|
                0 <= j < cv.len() && (#[trigger] cv[j]).0 == kk by {
                let x = choose|x: int|
                    0 <= x < rename.keys().len() && #[trigger] rename.keys()[x] == kk;
                assert(exists|j: int| 0 <= j < cv.len() && (#[trigger] cv[j]).0 == rename.keys()[x]);
            }
            assert(all_matched(rename@, cv));
        }
        let ghost nc = cols_view(new_columns@);
        self.tables.insert(table, new_columns);
        proof {
            assert(self.tables@.remove(table@) =~= old(self).tables@.remove(table@));
            assert(cols_view(self.tables@[table@]) == nc);
        }
        Ok(())
    }
}

/// The keyword a storage kind serializes as.
pub open spec fn kind_keyword(k: SchemaKind) -> Seq<char> {
    match k {
        SchemaKind::Poorly => "poorly"@,
        SchemaKind::Sqlite => "sqlite"@,
    }
}

/// One table line's column list: `name:type`, comma-separated.
pub open spec fn dump_cols(cols: Seq<(Seq<char>, DataType)>, i: int) -> Seq<char>
    decreases cols.len() - i,
{
    if i < 0 || i >= cols.len() {
        Seq::empty()
    } else if i == cols.len() - 1 {
        cols[i].0 + ":"@ + cols[i].1.spec_keyword()
    } else {
        cols[i].0 + ":"@ + cols[i].1.spec_keyword() + ","@ + dump_cols(cols, i + 1)
    }
}

/// The table lines, one per declared table, in declaration order.
pub open spec fn dump_tables(
    keys: Seq<Seq<char>>,
    tabs: Map<Seq<char>, Seq<Column>>,
    i: int,
) -> Seq<char>
    decreases keys.len() - i,
{
    if i < 0 || i >= keys.len() {
        Seq::empty()
    } else {
        keys[i] + "#"@ + dump_cols(cols_view(tabs[keys[i]]), 0) + "\n"@ + dump_tables(
            keys,
            tabs,
            i + 1,
        )
    }
}

/// The persisted text: a `<name>:<kind>` header line, then one line per
/// table, `<table>#<col>:<type>,...`.
pub open spec fn dump_spec(s: Schema) -> Seq<char> {
    s.name@ + ":"@ + kind_keyword(s.kind) + "\n"@ + dump_tables(s.tables.keys(), s.tables@, 0)
}

/// The lowercase keyword of a data type, as the schema file writes it.
pub fn type_keyword(dt: DataType) -> (r: String)
    ensures
        r@ == dt.spec_keyword(),
{
    match dt {
        DataType::Int => "int".to_owned(),
        DataType::Float => "float".to_owned(),
        DataType::Char => "char".to_owned(),
        DataType::String => "string".to_owned(),
        DataType::Serial => "serial".to_owned(),
        DataType::Email => "email".to_owned(),
    }
}

/// The data type a keyword names; any other word is an invalid type name.
pub fn parse_type(s: &str) -> (r: Result<DataType, PoorlyError>)
    ensures
        r matches Ok(dt) ==> s@ == dt.spec_keyword(),
        r matches Err(e) ==> e@ == ErrV::InvalidDataType(s@) && (forall|dt: DataType|
            s@ != #[trigger] dt.spec_keyword()),
{
    proof {
        reveal_strlit("int");
        reveal_strlit("float");
        reveal_strlit("char");
        reveal_strlit("string");
        reveal_strlit("serial");
        reveal_strlit("email");
    }
    if str_eq(s, "int") {
        Ok(DataType::Int)
    } else if str_eq(s, "float") {
        Ok(DataType::Float)
    } else if str_eq(s, "char") {
        Ok(DataType::Char)
    } else if str_eq(s, "string") {
        Ok(DataType::String)
    } else if str_eq(s, "serial") {
        Ok(DataType::Serial)
    } else if str_eq(s, "email") {
        Ok(DataType::Email)
    } else {
        proof {
            assert forall|dt: DataType| s@ != #[trigger] dt.spec_keyword() by {
                match dt {
                    DataType::Int => assert(s@ != "int"@),
                    DataType::Float => assert(s@ != "float"@),
                    DataType::Char => assert(s@ != "char"@),
                    DataType::String => assert(s@ != "string"@),
                    DataType::Serial => assert(s@ != "serial"@),
                    DataType::Email => assert(s@ != "email"@),
                }
            }
        }
        Err(PoorlyError::InvalidDataType(s.to_owned()))
    }
}

impl Schema {
    /// Writes the schema in its persisted text form.
    #[verifier::rlimit(50)]
    pub fn dump(&self) -> (r: String)
        ensures
            r@ == dump_spec(*self),
    {
        let mut out = self.name.clone();
        out.append(":");
        match self.kind {
            SchemaKind::Poorly => out.append("poorly"),
            SchemaKind::Sqlite => out.append("sqlite"),
        }
        out.append("\n");
        let ghost keys = self.tables.keys();
        let ghost header = self.name@ + ":"@ + kind_keyword(self.kind) + "\n"@;
        proof {
            assert(out@ =~= header + dump_tables(keys, self.tables@, 0).take(0));
            assert(dump_tables(keys, self.tables@, keys.len() as int) =~= Seq::empty());
        }
        let n = self.tables.len();
        let mut i: usize = 0;
        while i < n
            invariant
                i <= n == self.tables.keys().len(),
                keys == self.tables.keys(),
                header == self.name@ + ":"@ + kind_keyword(self.kind) + "\n"@,
                out@ + dump_tables(keys, self.tables@, i as int) == header + dump_tables(
                    keys,
                    self.tables@,
                    0,
                ),
            decreases n - i,
        {
            proof {
                use_type_invariant(&self.tables);
                self.tables.lemma_model();
            }
            let key = self.tables.key_at(i);
            let cols = self.tables.value_at(i);
            let ghost cv = cols_view(cols@);
            out.append(key.as_str());
            out.append("#");
            let m = cols.len();
            let mut j: usize = 0;
            let ghost out0 = out@;
            proof {
                assert(cv == cols_view(self.tables@[keys[i as int]]));
            }
            while j < m
                invariant
                    j <= m == cols@.len(),
                    cv == cols_view(cols@),
                    m > 0 ==> j < m || out@ == out0 + dump_cols(cv, 0),
                    out@ + dump_cols(cv, j as int) == out0 + dump_cols(cv, 0),
                decreases m - j,
            {
                proof {
                    assert(cv[j as int] == (cols@[j as int].0@, cols@[j as int].1));
                }
                out.append(cols[j].0.as_str());
                out.append(":");
                let kw = type_keyword(cols[j].1);
                out.append(kw.as_str());
                if j + 1 < m {
                    out.append(",");
                    proof {
                        assert(out@ + dump_cols(cv, j as int + 1) =~= out0 + dump_cols(cv, 0));
                    }
                } else {
                    proof {
                        assert(dump_cols(cv, j as int + 1) =~= Seq::<char>::empty());
                        assert(out@ + dump_cols(cv, j as int + 1) =~= out@);
                        assert(out@ =~= out0 + dump_cols(cv, 0));
                    }
                }
                j = j + 1;
            }
            out.append("\n");
            proof {
                assert(dump_cols(cv, m as int) =~= Seq::<char>::empty());
                if m == 0 {
                    assert(dump_cols(cv, 0) =~= Seq::<char>::empty());
                    assert(out@ =~= out0 + dump_cols(cv, 0) + "\n"@);
                } else {
                    assert(out@ =~= out0 + dump_cols(cv, 0) + "\n"@);
                }
                assert(dump_tables(keys, self.tables@, i as int) == keys[i as int] + "#"@
                    + dump_cols(cols_view(self.tables@[keys[i as int]]), 0) + "\n"@ + dump_tables(
                    keys,
                    self.tables@,
                    i as int + 1,
                ));
                assert(out@ + dump_tables(keys, self.tables@, i as int + 1) =~= header
                    + dump_tables(keys, self.tables@, 0));
            }
            i = i + 1;
        }
        proof {
            assert(dump_tables(keys, self.tables@, n as int) =~= Seq::<char>::empty());
            assert(out@ =~= header + dump_tables(keys, self.tables@, 0));
        }
        out
    }
}

/// The storage kind a keyword names.
pub open spec fn kind_of_keyword(w: Seq<char>) -> Option<SchemaKind> {
    if w == "poorly"@ {
        Some(SchemaKind::Poorly)
    } else if w == "sqlite"@ {
        Some(SchemaKind::Sqlite)
    } else {
        Option::None
    }
}

/// The data type a keyword names.
pub open spec fn type_of_keyword(w: Seq<char>) -> Option<DataType> {
    if w == "int"@ {
        Some(DataType::Int)
    } else if w == "float"@ {
        Some(DataType::Float)
    } else if w == "char"@ {
        Some(DataType::Char)
    } else if w == "string"@ {
        Some(DataType::String)
    } else if w == "serial"@ {
        Some(DataType::Serial)
    } else if w == "email"@ {
        Some(DataType::Email)
    } else {
        Option::None
    }
}

/// What a comma-separated column list decodes to: each piece is
/// `<name>:<keyword>` with a non-empty name.
pub open spec fn parse_cols_spec(s: Seq<char>) -> Option<Seq<(Seq<char>, DataType)>>
    decreases s.len(),
        via parse_cols_spec_dec
{
    let comma = first_occ(s, ',');
    let piece = if comma >= 0 {
        s.take(comma)
    } else {
        s
    };
    let colon = first_occ(piece, ':');
    if colon <= 0 {
        Option::None
    } else {
        match type_of_keyword(piece.skip(colon + 1)) {
            Option::None => Option::None,
            Some(dt) => if comma >= 0 {
                match parse_cols_spec(s.skip(comma + 1)) {
                    Option::None => Option::None,
                    Some(rest) => Some(seq![(piece.take(colon), dt)] + rest),
                }
            } else {
                Some(seq![(piece.take(colon), dt)])
            },
        }
    }
}

#[via_fn]
proof fn parse_cols_spec_dec(s: Seq<char>) {
    lemma_first_occ(s, ',');
}

/// What one table line decodes to: `<table>#<columns>`.
pub open spec fn parse_line_spec(line: Seq<char>) -> Option<
    (Seq<char>, Seq<(Seq<char>, DataType)>),
> {
    let h = first_occ(line, '#');
    if h < 0 {
        Option::None
    } else {
        let rest = line.skip(h + 1);
        if rest.len() == 0 {
            Option::None
        } else {
            match parse_cols_spec(rest) {
                Option::None => Option::None,
                Some(cols) => Some((line.take(h), cols)),
            }
        }
    }
}

/// What the lines after the header decode to, in order; empty lines are
/// passed over.
pub open spec fn parse_lines_spec(s: Seq<char>) -> Option<
    Seq<(Seq<char>, Seq<(Seq<char>, DataType)>)>,
>
    decreases s.len(),
        via parse_lines_spec_dec
{
    if s.len() == 0 {
        Some(Seq::empty())
    } else {
        let nl = first_occ(s, '\n');
        let line = if nl >= 0 {
            s.take(nl)
        } else {
            s
        };
        let rest = if nl >= 0 {
            s.skip(nl + 1)
        } else {
            Seq::empty()
        };
        if line.len() == 0 {
            parse_lines_spec(rest)
        } else {
            match parse_line_spec(line) {
                Option::None => Option::None,
                Some(entry) => match parse_lines_spec(rest) {
                    Option::None => Option::None,
                    Some(tail) => Some(seq![entry] + tail),
                },
            }
        }
    }
}

#[via_fn]
proof fn parse_lines_spec_dec(s: Seq<char>) {
    lemma_first_occ(s, '\n');
}

/// What the whole persisted text decodes to: the header's name and kind,
/// and the table lines in order.
pub open spec fn parse_schema_spec(text: Seq<char>) -> Option<
    (Seq<char>, SchemaKind, Seq<(Seq<char>, Seq<(Seq<char>, DataType)>)>),
> {
    let nl = first_occ(text, '\n');
    let hdr = if nl >= 0 {
        text.take(nl)
    } else {
        text
    };
    let body = if nl >= 0 {
        text.skip(nl + 1)
    } else {
        Seq::empty()
    };
    let c = first_occ(hdr, ':');
    if c < 0 {
        Option::None
    } else {
        match kind_of_keyword(hdr.skip(c + 1)) {
            Option::None => Option::None,
            Some(k) => match parse_lines_spec(body) {
                Option::None => Option::None,
                Some(lines) => Some((hdr.take(c), k, lines)),
            },
        }
    }
}

/// A keyword always names its own type back.
pub proof fn lemma_type_of_keyword(dt: DataType)
    ensures
        type_of_keyword(dt.spec_keyword()) == Some(dt),
{
    broadcast use vstd::string::group_string_axioms;

    reveal_strlit("int");
    reveal_strlit("float");
    reveal_strlit("char");
    reveal_strlit("string");
    reveal_strlit("serial");
    reveal_strlit("email");
    assert("int"@.len() == 3 && "float"@.len() == 5 && "char"@.len() == 4 && "string"@.len() == 6
        && "serial"@.len() == 6 && "email"@.len() == 5);
    assert("float"@[0] == 'f' && "email"@[0] == 'e');
    assert("string"@[1] == 't' && "serial"@[1] == 'e');
    match dt {
        DataType::Int => assert(type_of_keyword("int"@) == Some(DataType::Int)),
        DataType::Float => assert(type_of_keyword("float"@) == Some(DataType::Float)),
        DataType::Char => assert(type_of_keyword("char"@) == Some(DataType::Char)),
        DataType::String => assert(type_of_keyword("string"@) == Some(DataType::String)),
        DataType::Serial => assert(type_of_keyword("serial"@) == Some(DataType::Serial)),
        DataType::Email => assert(type_of_keyword("email"@) == Some(DataType::Email)),
    }
}

/// A word that is no keyword names no type.
pub proof fn lemma_type_of_keyword_none(w: Seq<char>)
    requires
        forall|d: DataType| w != #[trigger] d.spec_keyword(),
    ensures
        type_of_keyword(w) is None,
{
    assert(w != DataType::Int.spec_keyword());
    assert(w != DataType::Float.spec_keyword());
    assert(w != DataType::Char.spec_keyword());
    assert(w != DataType::String.spec_keyword());
    assert(w != DataType::Serial.spec_keyword());
    assert(w != DataType::Email.spec_keyword());
}

impl Schema {
    /// Reads a schema back from its persisted text, exactly the lines the
    /// grammar admits: the header pins the name and kind, and the tables map
    /// holds each decoded line, a repeated table name keeping its last line.
    #[verifier::rlimit(50)]
    pub fn parse(text: &str) -> (r: Option<Schema>)
        ensures
            r is Some <==> parse_schema_spec(text@) is Some,
            r matches Some(sch) ==> (parse_schema_spec(text@) matches Some(m) && sch.spec_name()
                == m.0 && sch.spec_kind() == m.1 && (forall|k: Seq<char>|
                #[trigger] sch.tables@.contains_key(k)
                    == crate::strmap::assoc_map(m.2).contains_key(k)) && (forall|k: Seq<char>|
                sch.tables@.contains_key(k) ==> cols_view(#[trigger] sch.tables@[k])
                    == crate::strmap::assoc_map(m.2)[k])),
    {
        proof {
            reveal_strlit("poorly");
            reveal_strlit("sqlite");
        }
        let n = text.unicode_len();
        let ghost tv = text@;
        // the header line
        let hdr_end = match crate::text::find_from(text, 0, n, '\n') {
            Some(i) => i,
            Option::None => n,
        };
        let ghost nl = first_occ(tv, '\n');
        proof {
            assert(tv.subrange(0, n as int) =~= tv);
            if hdr_end < n {
                assert(nl == hdr_end);
            } else {
                assert(nl == -1);
            }
        }
        let hdr = text.substring_char(0, hdr_end);
        let ghost hv = if nl >= 0 { tv.take(nl) } else { tv };
        proof {
            assert(hdr@ =~= hv);
        }
        // the name, up to the first ':'
        let hn = hdr_end;
        let colon = match crate::text::find_from(hdr, 0, hn, ':') {
            Some(i) => i,
            Option::None => {
                proof {
                    assert(hdr@.subrange(0, hn as int) =~= hdr@);
                    assert(first_occ(hv, ':') == -1);
                }
                return Option::None;
            },
        };
        proof {
            assert(hdr@.subrange(0, hn as int) =~= hdr@);
            assert(first_occ(hv, ':') == colon);
        }
        let name = hdr.substring_char(0, colon).to_owned();
        let kindstr = hdr.substring_char(colon + 1, hn);
        let kind = if str_eq(kindstr, "poorly") {
            SchemaKind::Poorly
        } else if str_eq(kindstr, "sqlite") {
            SchemaKind::Sqlite
        } else {
            proof {
                assert(kindstr@ =~= hv.skip(colon + 1));
                assert(kind_of_keyword(hv.skip(first_occ(hv, ':') + 1)) is None);
            }
            return Option::None;
        };
        proof {
            assert(name@ =~= hv.take(colon as int));
            assert(kindstr@ =~= hv.skip(colon + 1));
            assert(kind_of_keyword(hv.skip(first_occ(hv, ':') + 1)) == Some(kind));
        }
        // the table lines
        let ghost body0 = if nl >= 0 { tv.skip(nl + 1) } else { Seq::<char>::empty() };
        let mut tables: StrMap<Columns> = StrMap::new();
        let ghost done: Seq<(Seq<char>, Seq<(Seq<char>, DataType)>)> = Seq::empty();
        let mut done_t = Ghost(done);
        let mut pos: usize = if hdr_end < n {
            hdr_end + 1
        } else {
            n
        };
        proof {
            assert(tv.skip(pos as int) =~= body0);
            assert(crate::strmap::assoc_map(done_t@) =~= Map::<
                Seq<char>,
                Seq<(Seq<char>, DataType)>,
            >::empty());
        }
        while pos < n
            invariant
                pos <= n == tv.len(),
                tv == text@,
                nl == first_occ(tv, '\n'),
                hv == (if nl >= 0 {
                    tv.take(nl)
                } else {
                    tv
                }),
                body0 == (if nl >= 0 {
                    tv.skip(nl + 1)
                } else {
                    Seq::<char>::empty()
                }),
                0 <= colon < hv.len(),
                first_occ(hv, ':') == colon as int,
                name@ == hv.take(colon as int),
                kind_of_keyword(hv.skip(colon + 1)) == Some(kind),
                parse_lines_spec(tv.skip(pos as int)) matches Some(rem) ==> (parse_lines_spec(
                    body0,
                ) matches Some(all) && all == done_t@ + rem),
                parse_lines_spec(tv.skip(pos as int)) is None ==> parse_lines_spec(body0) is None,
                forall|k: Seq<char>|
                    #[trigger] tables@.contains_key(k) == crate::strmap::assoc_map(
                        done_t@,
                    ).contains_key(k),
                forall|k: Seq<char>|
                    tables@.contains_key(k) ==> cols_view(#[trigger] tables@[k])
                        == crate::strmap::assoc_map(done_t@)[k],
            decreases n - pos,
        {
            let ghost cur = tv.skip(pos as int);
            // the line from pos to the next newline or the end
            let line_end = match crate::text::find_from(text, pos, n, '\n') {
                Some(i) => i,
                Option::None => n,
            };
            proof {
                assert(forall|j: int| 0 <= j < cur.len() ==> cur[j] == tv[pos + j]);
                if line_end < n {
                    assert(first_occ(cur, '\n') == line_end - pos) by {
                        assert(tv.subrange(pos as int, n as int) =~= cur);
                    }
                } else {
                    assert(first_occ(cur, '\n') == -1) by {
                        assert(tv.subrange(pos as int, n as int) =~= cur);
                    }
                }
            }
            let ghost lnv = if first_occ(cur, '\n') >= 0 {
                cur.take(first_occ(cur, '\n'))
            } else {
                cur
            };
            let ghost restv = if first_occ(cur, '\n') >= 0 {
                cur.skip(first_occ(cur, '\n') + 1)
            } else {
                Seq::<char>::empty()
            };
            let next_pos = if line_end < n {
                line_end + 1
            } else {
                n
            };
            proof {
                assert(tv.skip(next_pos as int) =~= restv);
            }
            if line_end > pos {
                let line = text.substring_char(pos, line_end);
                proof {
                    assert(line@ =~= lnv);
                }
                match Self::parse_line(line) {
                    Option::None => {
                        proof {
                            assert(parse_lines_spec(cur) is None);
                        }
                        return Option::None;
                    },
                    Some((tname, cols)) => {
                        let ghost entry = (tname@, cols_view(cols@));
                        proof {
                            assert(parse_line_spec(lnv) == Some(entry));
                        }
                        tables.insert(tname, cols);
                        proof {
                            let done1 = done_t@.push(entry);
                            assert(crate::strmap::assoc_map(done1).contains_key(entry.0));
                            assert(done1.drop_last() =~= done_t@);
                            assert(crate::strmap::assoc_map(done1) == crate::strmap::assoc_map(
                                done_t@,
                            ).insert(entry.0, entry.1));
                            if parse_lines_spec(restv) is Some {
                                let rem2 = parse_lines_spec(restv)->Some_0;
                                assert(parse_lines_spec(cur) == Some(seq![entry] + rem2));
                                if parse_lines_spec(body0) is Some {
                                    let all = parse_lines_spec(body0)->Some_0;
                                    assert(all == done_t@ + (seq![entry] + rem2));
                                    assert(done_t@ + (seq![entry] + rem2) =~= done1 + rem2);
                                }
                            }
                            if parse_lines_spec(restv) is None {
                                assert(parse_lines_spec(cur) is None);
                            }
                        }
                        proof {
                            done_t@ = done_t@.push(entry);
                        }
                    },
                }
            } else {
                proof {
                    assert(lnv.len() == 0);
                    assert(parse_lines_spec(cur) == parse_lines_spec(restv));
                }
            }
            pos = next_pos;
        }
        proof {
            assert(tv.skip(n as int) =~= Seq::<char>::empty());
            assert(parse_lines_spec(tv.skip(n as int)) == Some(
                Seq::<(Seq<char>, Seq<(Seq<char>, DataType)>)>::empty(),
            ));
            if parse_lines_spec(body0) is Some {
                let all = parse_lines_spec(body0)->Some_0;
                assert(all =~= done_t@ + Seq::<(Seq<char>, Seq<(Seq<char>, DataType)>)>::empty());
                assert(all =~= done_t@);
            }
        }
        Some(Schema { tables, name, kind })
    }

    /// One table line: `<table>#<col>:<type>,...`.
    fn parse_line(line: &str) -> (r: Option<(String, Columns)>)
        ensures
            r is Some <==> parse_line_spec(line@) is Some,
            r matches Some(p) ==> (parse_line_spec(line@) matches Some(q) && p.0@ == q.0
                && cols_view(p.1@) == q.1),
    {
        let n = line.unicode_len();
        let ghost lv = line@;
        let hash = match crate::text::find_from(line, 0, n, '#') {
            Some(i) => i,
            Option::None => {
                proof {
                    assert(lv.subrange(0, n as int) =~= lv);
                    assert(first_occ(lv, '#') == -1);
                }
                return Option::None;
            },
        };
        proof {
            assert(lv.subrange(0, n as int) =~= lv);
            assert(first_occ(lv, '#') == hash);
        }
        let tname = line.substring_char(0, hash).to_owned();
        if hash + 1 >= n {
            proof {
                assert(lv.skip(hash + 1).len() == 0);
            }
            return Option::None;
        }
        let mut cols: Columns = Vec::new();
        let ghost rest0 = lv.skip(hash + 1);
        let mut pos: usize = hash + 1;
        proof {
            assert(cols_view(cols@) =~= Seq::<(Seq<char>, DataType)>::empty());
            assert(lv.skip(pos as int) =~= rest0);
        }
        loop
            invariant
                hash + 1 <= pos < n == lv.len(),
                lv == line@,
                rest0 == lv.skip(hash + 1),
                rest0.len() > 0,
                first_occ(lv, '#') == hash,
                0 <= hash < n,
                tname@ == lv.take(hash as int),
                parse_cols_spec(lv.skip(pos as int)) matches Some(rem) ==> (parse_cols_spec(rest0)
                    matches Some(all) && all == cols_view(cols@) + rem),
                parse_cols_spec(lv.skip(pos as int)) is None ==> parse_cols_spec(rest0) is None,
            decreases n - pos,
        {
            let ghost cur = lv.skip(pos as int);
            let piece_end = match crate::text::find_from(line, pos, n, ',') {
                Some(i) => i,
                Option::None => n,
            };
            proof {
                assert(forall|j: int| 0 <= j < cur.len() ==> cur[j] == lv[pos + j]);
                assert(lv.subrange(pos as int, n as int) =~= cur);
                if piece_end < n {
                    assert(first_occ(cur, ',') == piece_end - pos);
                } else {
                    assert(first_occ(cur, ',') == -1);
                }
            }
            let ghost comma = first_occ(cur, ',');
            let ghost piece = if comma >= 0 { cur.take(comma) } else { cur };
            proof {
                assert(piece =~= lv.subrange(pos as int, piece_end as int));
            }
            let colon = match crate::text::find_from(line, pos, piece_end, ':') {
                Some(i) => i,
                Option::None => {
                    proof {
                        assert(first_occ(piece, ':') == -1);
                        assert(parse_cols_spec(cur) is None);
                    }
                    return Option::None;
                },
            };
            proof {
                assert(first_occ(piece, ':') == colon - pos);
            }
            if colon == pos {
                proof {
                    assert(parse_cols_spec(cur) is None);
                }
                return Option::None;
            }
            let cname = line.substring_char(pos, colon).to_owned();
            let tword = line.substring_char(colon + 1, piece_end);
            proof {
                assert(tword@ =~= piece.skip((colon - pos) + 1));
                assert(cname@ =~= piece.take(colon - pos));
            }
            let dt = match parse_type(tword) {
                Ok(dt) => {
                    proof {
                        lemma_type_of_keyword(dt);
                        assert(type_of_keyword(piece.skip((colon - pos) + 1)) == Some(dt));
                    }
                    dt
                },
                Err(e) => {
                    proof {
                        assert(piece.skip((colon - pos) + 1) == tword@);
                        lemma_type_of_keyword_none(tword@);
                        assert(parse_cols_spec(cur) is None);
                    }
                    return Option::None;
                },
            };
            let ghost cols0v = cols_view(cols@);
            cols.push((cname, dt));
            proof {
                assert(cols_view(cols@) =~= cols0v.push((piece.take(colon - pos), dt)));
            }
            if piece_end < n {
                proof {
                    assert(lv.skip(piece_end + 1) =~= cur.skip(comma + 1));
                    if parse_cols_spec(cur.skip(comma + 1)) is Some {
                        let rem2 = parse_cols_spec(cur.skip(comma + 1))->Some_0;
                        assert(parse_cols_spec(cur) == Some(
                            seq![(piece.take(colon - pos), dt)] + rem2,
                        ));
                        if parse_cols_spec(rest0) is Some {
                            let all = parse_cols_spec(rest0)->Some_0;
                            assert(all == cols0v + (seq![(piece.take(colon - pos), dt)] + rem2));
                            assert(cols0v + (seq![(piece.take(colon - pos), dt)] + rem2)
                                =~= cols_view(cols@) + rem2);
                        }
                    }
                    if parse_cols_spec(cur.skip(comma + 1)) is None {
                        assert(parse_cols_spec(cur) is None);
                    }
                }
                pos = piece_end + 1;
                if pos >= n {
                    // the line ends with a comma: the final piece is empty
                    proof {
                        let last = lv.skip(pos as int);
                        assert(last.len() == 0);
                        assert(first_occ(last, ',') == -1);
                        assert(first_occ(last, ':') == -1);
                        assert(parse_cols_spec(last) is None);
                    }
                    return Option::None;
                }
            } else {
                proof {
                    assert(parse_cols_spec(cur) == Some(seq![(piece.take(colon - pos), dt)]));
                    if parse_cols_spec(rest0) is Some {
                        let all = parse_cols_spec(rest0)->Some_0;
                        assert(all =~= cols_view(cols@));
                    }
                }
                return Some((tname, cols));
            }
        }
    }
}

/// Columns in their canonical order: names never descend.
pub open spec fn sorted_cols(s: Seq<Column>) -> bool {
    forall|i: int, j: int|
        0 <= i < j < s.len() ==> lex_leq((#[trigger] s[i]).0@, (#[trigger] s[j]).0@)
}

/// Prepending one element adds it to the multiset.
proof fn lemma_cons_multiset(x: Column, t: Seq<Column>)
    ensures
        (seq![x] + t).to_multiset() == t.to_multiset().insert(x),
    decreases t.len(),
{
    broadcast use vstd::seq_lib::group_to_multiset_ensures;
    broadcast use vstd::multiset::group_multiset_axioms;

    if t.len() == 0 {
        assert(seq![x] + t =~= Seq::<Column>::empty().push(x));
        assert((Seq::<Column>::empty().push(x)).to_multiset() =~= Seq::<
            Column,
        >::empty().to_multiset().insert(x));
        assert(t.to_multiset() =~= Seq::<Column>::empty().to_multiset());
    } else {
        lemma_cons_multiset(x, t.drop_last());
        assert(seq![x] + t =~= (seq![x] + t.drop_last()).push(t.last()));
        assert(t =~= t.drop_last().push(t.last()));
        assert(((seq![x] + t.drop_last()).push(t.last())).to_multiset() =~= (seq![x]
            + t.drop_last()).to_multiset().insert(t.last()));
        assert((t.drop_last().push(t.last())).to_multiset() =~= t.drop_last().to_multiset().insert(
            t.last(),
        ));
        assert(t.drop_last().to_multiset().insert(x).insert(t.last())
            =~= t.drop_last().to_multiset().insert(t.last()).insert(x));
    }
}

/// Placing one column among sorted ones keeps them sorted and only adds the
/// column to the multiset.
pub proof fn lemma_insert_sorted_props(r: Seq<Column>, x: Column)
    requires
        sorted_cols(r),
    ensures
        sorted_cols(insert_sorted(r, x)),
        insert_sorted(r, x).to_multiset() == r.to_multiset().insert(x),
        insert_sorted(r, x).len() == r.len() + 1,
    decreases r.len(),
{
    broadcast use vstd::seq_lib::group_to_multiset_ensures;
    broadcast use vstd::multiset::group_multiset_axioms;

    if r.len() == 0 {
        lemma_cons_multiset(x, r);
        assert(seq![x] + r =~= insert_sorted(r, x));
        assert(sorted_cols(insert_sorted(r, x)));
    } else if lex_leq(r[0].0@, x.0@) {
        let tail0 = r.skip(1);
        assert(forall|i: int| 0 <= i < tail0.len() ==> #[trigger] tail0[i] == r[i + 1]);
        assert(sorted_cols(tail0));
        lemma_insert_sorted_props(tail0, x);
        let tail = insert_sorted(tail0, x);
        let out = insert_sorted(r, x);
        assert(out == seq![r[0]] + tail);
        // the head comes no later than anything placed behind it
        assert forall|k: int| 1 <= k < out.len() implies lex_leq(
            (#[trigger] out[0]).0@,
            out[k].0@,
        ) by {
            assert(out[k] == tail[k - 1]);
            assert(tail.to_multiset().count(tail[k - 1]) > 0);
            assert(tail0.to_multiset().insert(x).count(tail[k - 1]) > 0);
            if tail[k - 1] == x {
                assert(lex_leq(r[0].0@, x.0@));
            } else {
                assert(tail0.to_multiset().count(tail[k - 1]) > 0);
                assert(tail0.contains(tail[k - 1]));
                let m = choose|m: int| 0 <= m < tail0.len() && tail0[m] == tail[k - 1];
                assert(lex_leq(r[0].0@, r[m + 1].0@));
            }
        }
        assert forall|i: int, j: int| 0 <= i < j < out.len() implies lex_leq(
            (#[trigger] out[i]).0@,
            (#[trigger] out[j]).0@,
        ) by {
            if i == 0 {
                assert(lex_leq(out[0].0@, out[j].0@));
            } else {
                assert(out[i] == tail[i - 1] && out[j] == tail[j - 1]);
            }
        }
        lemma_cons_multiset(r[0], tail);
        assert(seq![r[0]] + tail0 =~= r);
        lemma_cons_multiset(r[0], tail0);
        assert(out.to_multiset() =~= tail0.to_multiset().insert(x).insert(r[0]));
        assert(tail0.to_multiset().insert(x).insert(r[0]) =~= tail0.to_multiset().insert(
            r[0],
        ).insert(x));
        assert(out.to_multiset() =~= r.to_multiset().insert(x));
    } else {
        let out = insert_sorted(r, x);
        assert(out == seq![x] + r);
        lemma_lex_total(r[0].0@, x.0@);
        assert(lex_leq(x.0@, r[0].0@));
        assert forall|i: int, j: int| 0 <= i < j < out.len() implies lex_leq(
            (#[trigger] out[i]).0@,
            (#[trigger] out[j]).0@,
        ) by {
            if i == 0 {
                assert(out[j] == r[j - 1]);
                if j == 1 {
                    assert(lex_leq(x.0@, r[0].0@));
                } else {
                    assert(lex_leq(r[0].0@, r[j - 1].0@));
                    lemma_lex_trans(x.0@, r[0].0@, r[j - 1].0@);
                }
            } else {
                assert(out[i] == r[i - 1] && out[j] == r[j - 1]);
            }
        }
        lemma_cons_multiset(x, r);
    }
}

/// The canonical order is a sorted permutation of the declaration.
pub proof fn lemma_sort_cols_props(s: Seq<Column>)
    ensures
        sorted_cols(sort_cols(s)),
        sort_cols(s).to_multiset() == s.to_multiset(),
        sort_cols(s).len() == s.len(),
    decreases s.len(),
{
    broadcast use vstd::seq_lib::group_to_multiset_ensures;

    if s.len() > 0 {
        lemma_sort_cols_props(s.drop_last());
        lemma_insert_sorted_props(sort_cols(s.drop_last()), s.last());
        assert(s =~= s.drop_last().push(s.last()));
        assert((s.drop_last().push(s.last())).to_multiset() =~= s.drop_last().to_multiset().insert(
            s.last(),
        ));
    }
}

/// An element counted at least twice sits at two distinct positions.
pub proof fn lemma_count_two_indices(s: Seq<Column>, e: Column)
    requires
        s.to_multiset().count(e) >= 2,
    ensures
        exists|i: int, j: int| 0 <= i < j < s.len() && (#[trigger] s[i]) == e && (#[trigger] s[j])
            == e,
    decreases s.len(),
{
    broadcast use vstd::seq_lib::group_to_multiset_ensures;
    broadcast use vstd::multiset::group_multiset_axioms;

    assert(s.to_multiset().len() == s.len());
    assert(s.len() >= 2) by {
        vstd::multiset::axiom_count_le_len(s.to_multiset(), e);
    }
    let dl = s.drop_last();
    assert(s =~= dl.push(s.last()));
    assert((dl.push(s.last())).to_multiset() =~= dl.to_multiset().insert(s.last()));
    if s.last() == e {
        assert(dl.to_multiset().count(e) >= 1);
        assert(dl.contains(e));
        let i = choose|i: int| 0 <= i < dl.len() && dl[i] == e;
        assert(s[i] == e && s[s.len() - 1] == e && i < s.len() - 1);
    } else {
        assert(dl.to_multiset().count(e) >= 2);
        lemma_count_two_indices(dl, e);
        let (i, j) = choose|i: int, j: int|
            0 <= i < j < dl.len() && (#[trigger] dl[i]) == e && (#[trigger] dl[j]) == e;
        assert(s[i] == e && s[j] == e);
    }
}

/// With every name valid, a run of columns holding an adjacent duplicate is
/// refused as a column-already-exists failure.
pub proof fn lemma_check_cols_dup(s: Seq<Column>, t: Seq<char>, i: int)
    requires
        0 <= i,
        forall|k: int| 0 <= k < s.len() ==> valid_name((#[trigger] s[k]).0@),
        exists|a: int| 0 <= a && a + 1 < s.len() && a + 1 >= i && (#[trigger] s[a]).0@ == s[a
            + 1].0@,
    ensures
        check_cols_from(s, t, i) matches Some(e) && (e matches ErrV::ColumnAlreadyExists(d, tt)
            && tt == t && exists|k: int| 0 <= k < s.len() && d == (#[trigger] s[k]).0@),
    decreases s.len() - i,
{
    let a = choose|a: int|
        0 <= a && a + 1 < s.len() && a + 1 >= i && (#[trigger] s[a]).0@ == s[a + 1].0@;
    if i >= s.len() {
        assert(false);
    } else {
        assert(valid_name(s[i].0@));
        if i > 0 && s[i].0@ == s[i - 1].0@ {
            assert(check_cols_from(s, t, i) == Some(ErrV::ColumnAlreadyExists(s[i].0@, t)));
        } else {
            if a + 1 == i {
                assert(i > 0 && s[i].0@ == s[i - 1].0@);
                assert(false);
            }
            assert(a + 1 >= i + 1);
            lemma_check_cols_dup(s, t, i + 1);
        }
    }
}

/// A type keyword holds none of the format's separators.
pub proof fn lemma_keyword_chars(dt: DataType)
    ensures
        no_char(dt.spec_keyword(), ','),
        no_char(dt.spec_keyword(), ':'),
        no_char(dt.spec_keyword(), '\n'),
        no_char(dt.spec_keyword(), '#'),
{
    reveal_strlit("int");
    reveal_strlit("float");
    reveal_strlit("char");
    reveal_strlit("string");
    reveal_strlit("serial");
    reveal_strlit("email");
}

/// A storage-kind keyword holds no newline or colon.
proof fn lemma_kind_keyword_chars(k: SchemaKind)
    ensures
        no_char(kind_keyword(k), '\n'),
        no_char(kind_keyword(k), ':'),
        kind_of_keyword(kind_keyword(k)) == Some(k),
{
    reveal_strlit("poorly");
    reveal_strlit("sqlite");
    assert("poorly"@.len() == 6 && "sqlite"@.len() == 6);
    assert("poorly"@[0] == 'p' && "sqlite"@[0] == 's');
}

/// What a column and a whole line must avoid for the text format to carry
/// them: the separators, and an empty column name.
pub open spec fn col_dumpable(c: (Seq<char>, DataType)) -> bool {
    &&& c.0.len() > 0
    &&& no_char(c.0, ':')
    &&& no_char(c.0, ',')
    &&& no_char(c.0, '\n')
}

pub open spec fn table_dumpable(name: Seq<char>, cols: Seq<(Seq<char>, DataType)>) -> bool {
    &&& no_char(name, '#')
    &&& no_char(name, '\n')
    &&& cols.len() > 0
    &&& forall|k: int| 0 <= k < cols.len() ==> col_dumpable(#[trigger] cols[k])
}

/// A schema the text format can carry and read back: its name avoids the
/// header separators and every table line is dumpable.
pub open spec fn schema_dumpable(s: Schema) -> bool {
    &&& no_char(s.name@, ':')
    &&& no_char(s.name@, '\n')
    &&& forall|i: int|
        0 <= i < s.tables.keys().len() ==> table_dumpable(
            #[trigger] s.tables.keys()[i],
            cols_view(s.tables@[s.tables.keys()[i]]),
        )
}

/// The column text of a dumpable column list avoids '\n' and reads back as
/// exactly those columns.
proof fn lemma_dump_cols_round_trip(cols: Seq<(Seq<char>, DataType)>, i: int)
    requires
        0 <= i < cols.len(),
        forall|k: int| 0 <= k < cols.len() ==> col_dumpable(#[trigger] cols[k]),
    ensures
        no_char(dump_cols(cols, i), '\n'),
        dump_cols(cols, i).len() > 0,
        parse_cols_spec(dump_cols(cols, i)) == Some(cols.skip(i)),
    decreases cols.len() - i,
{
    let dt = cols[i].1;
    lemma_keyword_chars(dt);
    reveal_strlit(":");
    reveal_strlit(",");
    let entry = cols[i].0 + ":"@ + dt.spec_keyword();
    assert(":"@.len() == 1);
    assert(entry.len() == cols[i].0.len() + 1 + dt.spec_keyword().len());
    assert forall|j: int| 0 <= j < entry.len() implies entry[j] != '\n' && entry[j]
        != ',' by {
        let nl = cols[i].0.len() as int;
        assert((cols[i].0 + ":"@).len() == nl + 1);
        if j < nl {
            assert(entry[j] == (cols[i].0 + ":"@)[j]);
            assert((cols[i].0 + ":"@)[j] == cols[i].0[j]);
            assert(col_dumpable(cols[i]));
        } else if j == nl {
            assert(entry[j] == (cols[i].0 + ":"@)[j]);
            assert((cols[i].0 + ":"@)[j] == ":"@[0]);
        } else {
            assert(entry[j] == dt.spec_keyword()[j - nl - 1]);
        }
    }
    assert(no_char(entry, '\n') && no_char(entry, ','));
    assert(first_occ(entry, ':') == cols[i].0.len()) by {
        assert(entry =~= cols[i].0 + (":"@ + dt.spec_keyword()));
        assert((":"@ + dt.spec_keyword())[0] == ':');
        lemma_first_occ_concat(cols[i].0, ":"@ + dt.spec_keyword(), ':');
    }
    if i == cols.len() - 1 {
        assert(dump_cols(cols, i) == entry);
        lemma_first_occ_absent(entry, ',');
        assert(entry.take(cols[i].0.len() as int) =~= cols[i].0);
        assert(entry.skip(cols[i].0.len() as int + 1) =~= dt.spec_keyword());
        lemma_type_of_keyword(dt);
        assert(parse_cols_spec(entry) == Some(seq![(cols[i].0, dt)]));
        assert(seq![(cols[i].0, dt)] =~= cols.skip(i));
    } else {
        lemma_dump_cols_round_trip(cols, i + 1);
        let rest = dump_cols(cols, i + 1);
        let whole = dump_cols(cols, i);
        assert(whole == entry + ","@ + rest);
        assert(whole =~= entry + (","@ + rest));
        assert(whole.len() == entry.len() + 1 + rest.len());
        assert forall|j: int| 0 <= j < whole.len() implies whole[j] != '\n' by {
            let el = entry.len() as int;
            assert((entry + ","@).len() == el + 1);
            if j < el {
                assert(whole[j] == (entry + ","@)[j]);
                assert((entry + ","@)[j] == entry[j]);
            } else if j == el {
                assert(whole[j] == (entry + ","@)[j]);
                assert((entry + ","@)[j] == ","@[0]);
            } else {
                assert(whole[j] == rest[j - el - 1]);
            }
        }
        assert(no_char(whole, '\n'));
        assert(first_occ(whole, ',') == entry.len()) by {
            assert((","@ + rest)[0] == ',');
            lemma_first_occ_concat(entry, ","@ + rest, ',');
        }
        let piece = whole.take(entry.len() as int);
        assert(piece =~= entry);
        assert(piece.take(cols[i].0.len() as int) =~= cols[i].0);
        assert(piece.skip(cols[i].0.len() as int + 1) =~= dt.spec_keyword());
        lemma_type_of_keyword(dt);
        assert(whole.skip(entry.len() as int + 1) =~= rest);
        assert(parse_cols_spec(whole) == Some(seq![(cols[i].0, dt)] + cols.skip(i + 1)));
        assert(seq![(cols[i].0, dt)] + cols.skip(i + 1) =~= cols.skip(i));
    }
}

/// The table lines of a dumpable schema read back as exactly its tables, in
/// declaration order.
proof fn lemma_dump_tables_round_trip(
    keys: Seq<Seq<char>>,
    tabs: Map<Seq<char>, Seq<Column>>,
    i: int,
)
    requires
        0 <= i <= keys.len(),
        forall|k: int|
            i <= k < keys.len() ==> table_dumpable(
                #[trigger] keys[k],
                cols_view(tabs[keys[k]]),
            ),
    ensures
        parse_lines_spec(dump_tables(keys, tabs, i)) == Some(
            Seq::new((keys.len() - i) as nat, |k: int| (keys[i + k], cols_view(tabs[keys[i + k]]))),
        ),
    decreases keys.len() - i,
{
    reveal_strlit("#");
    reveal_strlit("\n");
    if i == keys.len() {
        assert(dump_tables(keys, tabs, i) =~= Seq::<char>::empty());
        assert(Seq::new(0, |k: int| (keys[i + k], cols_view(tabs[keys[i + k]]))) =~= Seq::<
            (Seq<char>, Seq<(Seq<char>, DataType)>),
        >::empty());
    } else {
        let cv = cols_view(tabs[keys[i]]);
        lemma_dump_cols_round_trip(cv, 0);
        let line = keys[i] + "#"@ + dump_cols(cv, 0);
        let rest = dump_tables(keys, tabs, i + 1);
        let whole = dump_tables(keys, tabs, i);
        assert(whole == keys[i] + "#"@ + dump_cols(cv, 0) + "\n"@ + rest);
        assert(whole =~= line + ("\n"@ + rest));
        assert(line.len() == keys[i].len() + 1 + dump_cols(cv, 0).len());
        assert forall|j: int| 0 <= j < line.len() implies line[j] != '\n' by {
            let kl = keys[i].len() as int;
            if j < kl {
                assert(line[j] == (keys[i] + "#"@)[j]);
                assert(line[j] == keys[i][j]);
            } else if j == kl {
                assert(line[j] == (keys[i] + "#"@)[j]);
                assert(line[j] == "#"@[0]);
            } else {
                assert(line[j] == dump_cols(cv, 0)[j - kl - 1]);
            }
        }
        assert(no_char(line, '\n'));
        assert(first_occ(whole, '\n') == line.len()) by {
            assert(("\n"@ + rest)[0] == '\n');
            lemma_first_occ_concat(line, "\n"@ + rest, '\n');
        }
        assert(whole.take(line.len() as int) =~= line);
        assert(whole.skip(line.len() as int + 1) =~= rest);
        assert(first_occ(line, '#') == keys[i].len()) by {
            assert(line =~= keys[i] + ("#"@ + dump_cols(cv, 0)));
            assert(("#"@ + dump_cols(cv, 0))[0] == '#');
            lemma_first_occ_concat(keys[i], "#"@ + dump_cols(cv, 0), '#');
        }
        assert(line.take(keys[i].len() as int) =~= keys[i]);
        assert(line.skip(keys[i].len() as int + 1) =~= dump_cols(cv, 0));
        assert(parse_line_spec(line) == Some((keys[i], cv)));
        lemma_dump_tables_round_trip(keys, tabs, i + 1);
        assert(parse_lines_spec(whole) == Some(
            seq![(keys[i], cv)] + Seq::new(
                (keys.len() - i - 1) as nat,
                |k: int| (keys[i + 1 + k], cols_view(tabs[keys[i + 1 + k]])),
            ),
        ));
        assert(seq![(keys[i], cv)] + Seq::new(
            (keys.len() - i - 1) as nat,
            |k: int| (keys[i + 1 + k], cols_view(tabs[keys[i + 1 + k]])),
        ) =~= Seq::new((keys.len() - i) as nat, |k: int| (keys[i + k], cols_view(tabs[keys[i + k]]))));
    }
}

/// Dump, then parse: the persisted text of a dumpable schema reads back as
/// the same name, kind, and table lines in declaration order.
pub proof fn lemma_dump_parse_round_trip(s: Schema)
    requires
        schema_dumpable(s),
    ensures
        parse_schema_spec(dump_spec(s)) == Some(
            (
                s.name@,
                s.kind,
                Seq::new(
                    s.tables.keys().len(),
                    |i: int| (s.tables.keys()[i], cols_view(s.tables@[s.tables.keys()[i]])),
                ),
            ),
        ),
{
    reveal_strlit(":");
    reveal_strlit("\n");
    let keys = s.tables.keys();
    let hdr = s.name@ + ":"@ + kind_keyword(s.kind);
    let body = dump_tables(keys, s.tables@, 0);
    let whole = dump_spec(s);
    lemma_kind_keyword_chars(s.kind);
    assert(whole =~= hdr + ("\n"@ + body));
    assert(hdr.len() == s.name@.len() + 1 + kind_keyword(s.kind).len());
    assert forall|j: int| 0 <= j < hdr.len() implies hdr[j] != '\n' by {
        let nl = s.name@.len() as int;
        if j < nl {
            assert(hdr[j] == (s.name@ + ":"@)[j]);
            assert(hdr[j] == s.name@[j]);
        } else if j == nl {
            assert(hdr[j] == (s.name@ + ":"@)[j]);
            assert(hdr[j] == ":"@[0]);
        } else {
            assert(hdr[j] == kind_keyword(s.kind)[j - nl - 1]);
        }
    }
    assert(no_char(hdr, '\n'));
    assert(first_occ(whole, '\n') == hdr.len()) by {
        assert(("\n"@ + body)[0] == '\n');
        lemma_first_occ_concat(hdr, "\n"@ + body, '\n');
    }
    assert(whole.take(hdr.len() as int) =~= hdr);
    assert(whole.skip(hdr.len() as int + 1) =~= body);
    assert(first_occ(hdr, ':') == s.name@.len()) by {
        assert(hdr =~= s.name@ + (":"@ + kind_keyword(s.kind)));
        assert((":"@ + kind_keyword(s.kind))[0] == ':');
        lemma_first_occ_concat(s.name@, ":"@ + kind_keyword(s.kind), ':');
    }
    assert(hdr.take(s.name@.len() as int) =~= s.name@);
    assert(hdr.skip(s.name@.len() as int + 1) =~= kind_keyword(s.kind));
    lemma_dump_tables_round_trip(keys, s.tables@, 0);
    assert(Seq::new(keys.len(), |k: int| (keys[0 + k], cols_view(s.tables@[keys[0 + k]]))) =~= Seq::new(
        keys.len(),
        |i: int| (keys[i], cols_view(s.tables@[keys[i]])),
    ));
}

} // verus!
