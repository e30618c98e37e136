//! What becomes of a table when rows with a key are written to it.
use vstd::prelude::*;

verus! {

/// A row of a table: its key, and what else it holds.
pub type Keyed<T> = (Seq<char>, T);

/// The keys of rows.
pub open spec fn keys<T>(rows: Seq<Keyed<T>>) -> Seq<Seq<char>> {
    rows.map_values(|row: Keyed<T>| row.0)
}

/// Whether a table has at most one row with each key.
pub open spec fn one_row_each<T>(table: Set<Keyed<T>>) -> bool {
    forall|x: Keyed<T>, y: Keyed<T>|
        #[trigger] table.contains(x) && #[trigger] table.contains(y) && x.0 == y.0 ==> x == y
}

/// A table after rows were written to it: a row replaces the one with its key, or is added
/// where there is none; the others stay.
pub open spec fn upserted<T>(table: Set<Keyed<T>>, rows: Seq<Keyed<T>>) -> Set<Keyed<T>> {
    table.filter(|x: Keyed<T>| !keys(rows).contains(x.0)).union(rows.to_set())
}

/// Rows with distinct keys, written to a table with at most one row for each key, leave it
/// with at most one row for each key. Each of them is in the table, as the only row with
/// its key; the rows with other keys are as they were. Written again, they change nothing,
/// and no rows change nothing.
pub proof fn law_upserted<T>(table: Set<Keyed<T>>, rows: Seq<Keyed<T>>)
    requires
        one_row_each(table),
        keys(rows).no_duplicates(),
    ensures
        one_row_each(upserted(table, rows)),
        forall|i: int| 0 <= i < rows.len() ==> upserted(table, rows).contains(#[trigger] rows[i]),
        forall|x: Keyed<T>, i: int|
            0 <= i < rows.len() && #[trigger] upserted(table, rows).contains(x) && x.0
                == (#[trigger] rows[i]).0 ==> x == rows[i],
        forall|x: Keyed<T>|
            !keys(rows).contains(x.0) ==> (#[trigger] upserted(table, rows).contains(x)
                <==> table.contains(x)),
        upserted(upserted(table, rows), rows) == upserted(table, rows),
        rows.len() == 0 ==> upserted(table, rows) == table,
{
    let after = upserted(table, rows);
    assert forall|i: int| 0 <= i < rows.len() implies after.contains(#[trigger] rows[i]) by {
        assert(rows.contains(rows[i]));
    }
    assert forall|x: Keyed<T>| #[trigger] rows.contains(x) implies keys(rows).contains(x.0) by {
        let k = choose|k: int| 0 <= k < rows.len() && rows[k] == x;
        assert(keys(rows)[k] == x.0);
    }
    assert forall|x: Keyed<T>, y: Keyed<T>|
        #[trigger] rows.contains(x) && #[trigger] rows.contains(y) && x.0 == y.0 implies x == y by {
        let j = choose|j: int| 0 <= j < rows.len() && rows[j] == x;
        let k = choose|k: int| 0 <= k < rows.len() && rows[k] == y;
        assert(keys(rows)[j] == keys(rows)[k]);
    }
    assert forall|x: Keyed<T>, i: int|
        0 <= i < rows.len() && #[trigger] after.contains(x) && x.0 == (#[trigger] rows[i]).0 implies x
        == rows[i] by {
        assert(rows.contains(rows[i]));
        assert(keys(rows).contains(rows[i].0));
        assert(rows.contains(x));
    }
    assert forall|x: Keyed<T>, y: Keyed<T>|
        #[trigger] after.contains(x) && #[trigger] after.contains(y) && x.0 == y.0 implies x == y by {
        if keys(rows).contains(x.0) {
            assert(rows.contains(x) && rows.contains(y));
        } else {
            assert(!rows.contains(x) && !rows.contains(y));
            assert(table.contains(x) && table.contains(y));
        }
    }
    assert forall|x: Keyed<T>| !keys(rows).contains(x.0) implies (#[trigger] after.contains(x)
        <==> table.contains(x)) by {
        assert(!rows.contains(x));
    }
    assert(upserted(after, rows) =~= after);
    if rows.len() == 0 {
        assert(after =~= table);
    }
}

} // verus!
