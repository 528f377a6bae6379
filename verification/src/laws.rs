//! Laws of the engine, stated and proved over the models its contracts use.

use vstd::prelude::*;

use crate::schema::{
    create_table_check, lemma_check_cols_dup, lemma_count_two_indices, lemma_sort_cols_props,
    sort_cols, Column,
};
use crate::table::{
    cond_match, first_unknown, insert_outcome, insert_vals, row_map, select_res, select_rows,
    tombstone_rows,
};
use crate::text::{lemma_lex_antisym, valid_name};
use crate::types::{DataType, ErrV, Val};

verus! {

/// Deleting with conditions that no live row satisfies leaves the rows
/// exactly as they were.
pub proof fn lemma_delete_no_match(
    cols: Seq<(Seq<char>, DataType)>,
    rows: Seq<(bool, Seq<Val>)>,
    cm: Map<Seq<char>, Val>,
)
    requires
        forall|i: int|
            0 <= i < rows.len() ==> !(!(#[trigger] rows[i]).0 && cond_match(
                row_map(cols, rows[i].1),
                cm,
            )),
    ensures
        tombstone_rows(cols, rows, cm) == rows,
{
    assert(tombstone_rows(cols, rows, cm) =~= rows);
}

/// Selecting twice with identical arguments, with no write in between,
/// yields identical results: what a select returns is a function of the
/// table's state and the arguments alone.
pub proof fn lemma_select_repeatable(
    cols: Seq<(Seq<char>, DataType)>,
    name: Seq<char>,
    rows: Seq<(bool, Seq<Val>)>,
    proj: Seq<Seq<char>>,
    cm: Map<Seq<char>, Val>,
    r1: Result<Seq<Map<Seq<char>, Val>>, ErrV>,
    r2: Result<Seq<Map<Seq<char>, Val>>, ErrV>,
)
    requires
        r1 == select_res(cols, name, rows, proj, cm),
        r2 == select_res(cols, name, rows, proj, cm),
    ensures
        r1 == r2,
{
}

/// The rows an unfiltered, unprojected select sees after a row is appended
/// live: the rows it saw before, then the new row's image.
pub proof fn lemma_select_rows_push(
    cols: Seq<(Seq<char>, DataType)>,
    rows: Seq<(bool, Seq<Val>)>,
    vals: Seq<Val>,
    i: int,
)
    requires
        0 <= i <= rows.len(),
    ensures
        select_rows(cols, rows.push((false, vals)), i, Map::empty(), Seq::empty()) == select_rows(
            cols,
            rows,
            i,
            Map::empty(),
            Seq::empty(),
        ).push(row_map(cols, vals)),
    decreases rows.len() - i,
{
    let rows2 = rows.push((false, vals));
    let noconds = Map::<Seq<char>, Val>::empty();
    assert forall|r: Map<Seq<char>, Val>| cond_match(r, noconds) by {
        assert(noconds.dom() =~= Set::empty());
    }
    if i < rows.len() {
        assert(rows2[i] == rows[i]);
        lemma_select_rows_push(cols, rows, vals, i + 1);
        if !rows[i].0 {
            assert(select_rows(cols, rows2, i, noconds, Seq::empty()) == seq![
                row_map(cols, rows[i].1),
            ] + select_rows(cols, rows2, i + 1, noconds, Seq::empty()));
            assert(seq![row_map(cols, rows[i].1)] + select_rows(
                cols,
                rows,
                i + 1,
                noconds,
                Seq::empty(),
            ).push(row_map(cols, vals)) =~= (seq![row_map(cols, rows[i].1)] + select_rows(
                cols,
                rows,
                i + 1,
                noconds,
                Seq::empty(),
            )).push(row_map(cols, vals)));
        }
    } else {
        assert(rows2[i] == (false, vals));
        assert(select_rows(cols, rows2, i + 1, noconds, Seq::empty()) =~= Seq::empty());
        assert(select_rows(cols, rows2, i, noconds, Seq::empty()) =~= seq![
            row_map(cols, vals),
        ]);
        assert(select_rows(cols, rows, i, noconds, Seq::empty()) =~= Seq::empty());
        assert(Seq::<Map<Seq<char>, Val>>::empty().push(row_map(cols, vals)) =~= seq![
            row_map(cols, vals),
        ]);
    }
}

/// Inserting a row and then selecting with no filter returns the rows the
/// select returned before, and then exactly the inserted image, its serial
/// columns populated with the assigned value.
pub proof fn lemma_insert_then_select(
    cols: Seq<(Seq<char>, DataType)>,
    name: Seq<char>,
    rows: Seq<(bool, Seq<Val>)>,
    ser: u32,
    m: Map<Seq<char>, Val>,
)
    requires
        insert_outcome(cols, name, rows, ser, m) is Ok,
    ensures
        select_res(
            cols,
            name,
            insert_outcome(cols, name, rows, ser, m)->Ok_0.0,
            Seq::empty(),
            Map::empty(),
        ) == Ok::<Seq<Map<Seq<char>, Val>>, ErrV>(
            select_rows(cols, rows, 0, Map::empty(), Seq::empty()).push(
                row_map(cols, insert_vals(cols, m, ser)),
            ),
        ),
{
    let rows2 = insert_outcome(cols, name, rows, ser, m)->Ok_0.0;
    assert(rows2 == rows.push((false, insert_vals(cols, m, ser))));
    lemma_select_rows_push(cols, rows, insert_vals(cols, m, ser), 0);
    assert(first_unknown(Seq::empty(), cols) is None);
}

/// After every live row satisfies the tombstoning conditions, no row is
/// live.
pub proof fn lemma_select_rows_all_dead(
    cols: Seq<(Seq<char>, DataType)>,
    rows: Seq<(bool, Seq<Val>)>,
    i: int,
    cm: Map<Seq<char>, Val>,
    proj: Seq<Seq<char>>,
)
    requires
        0 <= i,
        forall|j: int| 0 <= j < rows.len() ==> (#[trigger] rows[j]).0,
    ensures
        select_rows(cols, rows, i, cm, proj) == Seq::<Map<Seq<char>, Val>>::empty(),
    decreases rows.len() - i,
{
    if i < rows.len() {
        lemma_select_rows_all_dead(cols, rows, i + 1, cm, proj);
    }
}

/// Deleting with no conditions tombstones every live row, and a subsequent
/// select, whatever its filter or projection, returns an empty list.
pub proof fn lemma_delete_all_then_select(
    cols: Seq<(Seq<char>, DataType)>,
    name: Seq<char>,
    rows: Seq<(bool, Seq<Val>)>,
    proj: Seq<Seq<char>>,
    cm: Map<Seq<char>, Val>,
)
    ensures
        select_res(cols, name, tombstone_rows(cols, rows, Map::empty()), proj, cm) == Ok::<
            Seq<Map<Seq<char>, Val>>,
            ErrV,
        >(Seq::empty()),
{
    let rows2 = tombstone_rows(cols, rows, Map::empty());
    assert forall|j: int| 0 <= j < rows2.len() implies (#[trigger] rows2[j]).0 by {
        assert(Map::<Seq<char>, Val>::empty().dom() =~= Set::empty());
        assert(cond_match(row_map(cols, rows[j].1), Map::empty()));
    }
    lemma_select_rows_all_dead(cols, rows2, 0, cm, proj);
    lemma_select_rows_all_dead(cols, rows2, 0, cm, Seq::empty());
}

/// Creating a table under a name that already exists is refused as
/// already-exists; nothing is silently overwritten.
pub proof fn lemma_create_table_already_exists(
    tables: Map<Seq<char>, Seq<Column>>,
    name: Seq<char>,
    cols: Seq<Column>,
)
    requires
        valid_name(name),
        cols.len() > 0,
        tables.contains_key(name),
    ensures
        create_table_check(tables, name, cols) == Some(ErrV::TableAlreadyExists(name)),
{
}

/// Creating a table whose declaration names one column twice is refused as
/// column-already-exists, wherever the two stand in the declaration.
pub proof fn lemma_create_table_duplicate_columns(
    tables: Map<Seq<char>, Seq<Column>>,
    name: Seq<char>,
    cols: Seq<Column>,
    p: int,
    q: int,
)
    requires
        valid_name(name),
        !tables.contains_key(name),
        forall|k: int| 0 <= k < cols.len() ==> valid_name((#[trigger] cols[k]).0@),
        0 <= p < q < cols.len(),
        cols[p].0@ == cols[q].0@,
    ensures
        create_table_check(tables, name, cols) matches Some(e) && (e
            matches ErrV::ColumnAlreadyExists(d, t) && t == name && exists|k: int|
            0 <= k < cols.len() && d == (#[trigger] cols[k]).0@),
{
    broadcast use vstd::seq_lib::group_to_multiset_ensures;
    broadcast use vstd::multiset::group_multiset_axioms;

    lemma_sort_cols_props(cols);
    let sorted = sort_cols(cols);
    let e1 = cols[p];
    let e2 = cols[q];
    // the two duplicates both stand somewhere in the sorted order
    let (i0, j0): (int, int) = if e1 == e2 {
        let s0 = cols.subrange(0, q);
        let s1 = cols.subrange(q, cols.len() as int);
        assert(cols =~= s0 + s1);
        vstd::seq_lib::lemma_multiset_commutative(s0, s1);
        assert(s0[p] == e1);
        assert(s0.contains(e1));
        assert(s1[0] == e1);
        assert(s1.contains(e1));
        assert(s0.to_multiset().count(e1) >= 1);
        assert(s1.to_multiset().count(e1) >= 1);
        assert(cols.to_multiset().count(e1) >= 2);
        lemma_count_two_indices(sorted, e1);
        choose|i: int, j: int|
            0 <= i < j < sorted.len() && (#[trigger] sorted[i]) == e1 && (#[trigger] sorted[j])
                == e1
    } else {
        assert(cols.contains(e1) && cols.contains(e2));
        assert(sorted.to_multiset().count(e1) >= 1 && sorted.to_multiset().count(e2) >= 1);
        assert(sorted.contains(e1) && sorted.contains(e2));
        let a = choose|a: int| 0 <= a < sorted.len() && sorted[a] == e1;
        let b = choose|b: int| 0 <= b < sorted.len() && sorted[b] == e2;
        assert(a != b);
        if a < b {
            (a, b)
        } else {
            (b, a)
        }
    };
    assert(0 <= i0 < j0 < sorted.len() && sorted[i0].0@ == sorted[j0].0@);
    // in sorted order, equal names become adjacent
    assert(sorted[i0].0@ == sorted[i0 + 1].0@) by {
        if j0 > i0 + 1 {
            assert(lex_leq_names(sorted, i0, i0 + 1));
            assert(lex_leq_names(sorted, i0 + 1, j0));
            lemma_lex_antisym(sorted[i0].0@, sorted[i0 + 1].0@);
        }
    }
    // every sorted column is one of the declared ones
    assert forall|k: int| 0 <= k < sorted.len() implies valid_name(
        (#[trigger] sorted[k]).0@,
    ) && exists|m: int| 0 <= m < cols.len() && (#[trigger] cols[m]) == sorted[k] by {
        assert(sorted.contains(sorted[k]));
        assert(sorted.to_multiset().count(sorted[k]) > 0);
        assert(cols.to_multiset().count(sorted[k]) > 0);
        assert(cols.contains(sorted[k]));
        let m = choose|m: int| 0 <= m < cols.len() && cols[m] == sorted[k];
        assert(valid_name(cols[m].0@));
    }
    lemma_check_cols_dup(sorted, name, 0);
    let e = crate::schema::check_cols_from(sorted, name, 0)->Some_0;
    if e is ColumnAlreadyExists {
        let d = e->ColumnAlreadyExists_0;
        let k = choose|k: int| 0 <= k < sorted.len() && d == (#[trigger] sorted[k]).0@;
        let m = choose|m: int| 0 <= m < cols.len() && (#[trigger] cols[m]) == sorted[k];
        assert(d == cols[m].0@);
    }
}

/// Readability helper: the name at `i` comes no later than the one at `j`.
spec fn lex_leq_names(s: Seq<Column>, i: int, j: int) -> bool {
    crate::text::lex_leq(s[i].0@, s[j].0@)
}

} // verus!
