//! The upkeep of tables: which are created, indexed, compacted and made anew.
use crate::database::{DatabaseManager, SchemaManager};
use crate::lists::lemma_filter_step;
use crate::schema::{
    commit_vectors_columns, columns, content_columns, functions_columns, git_commits_columns,
    group_text, group_texts, lore_columns, lore_vectors_columns, main_groups, main_index_groups,
    one, processed_files_columns, symbol_filename_columns, types_columns, vectors_columns, Column,
    ColumnSpec, IndexGroup, IndexGroupText, INDEXED_ROWS,
};
use crate::tables::{
    main_table_names, main_tables, scanned_tables, shard_names, shard_table, shard_tables,
};
use crate::text::{
    decimal, decimal_text, is_member, join, joined, lemma_strs_empty, lemma_strs_push, occurs_at,
    same, starts_with, strs,
};
use vstd::prelude::*;

verus! {

broadcast use {lemma_strs_push, lemma_strs_empty};

/// How a table is laid out.
pub enum TableLayout {
    Columns { columns: Vec<ColumnSpec> },
    /// The table of indexed branches, which lays itself out.
    IndexedBranches,
}

/// A name that no table has.
pub struct UnknownTable {
    pub name: String,
}

/// The columns of the table of a name, where they are known here.
pub open spec fn columns_of(name: Seq<char>) -> Option<Seq<Column>> {
    if name == "functions"@ {
        Some(functions_columns())
    } else if name == "types"@ {
        Some(types_columns())
    } else if name == "vectors"@ {
        Some(vectors_columns())
    } else if name == "commit_vectors"@ {
        Some(commit_vectors_columns())
    } else if name == "lore_vectors"@ {
        Some(lore_vectors_columns())
    } else if name == "processed_files"@ {
        Some(processed_files_columns())
    } else if name == "symbol_filename"@ {
        Some(symbol_filename_columns())
    } else if name == "git_commits"@ {
        Some(git_commits_columns())
    } else if name == "lore"@ {
        Some(lore_columns())
    } else if name == "content"@ || occurs_at(name, "content_"@, 0) {
        Some(content_columns())
    } else {
        None
    }
}

/// Whether a name is that of a table.
pub open spec fn is_table(name: Seq<char>) -> bool {
    name == "indexed_branches"@ || columns_of(name) is Some
}

/// The tables that are created, in order.
pub open spec fn created_tables() -> Seq<Seq<char>> {
    seq![
        "functions"@,
        "types"@,
        "vectors"@,
        "processed_files"@,
        "symbol_filename"@,
        "git_commits"@,
        "commit_vectors"@,
        "lore"@,
        "lore_vectors"@,
        "indexed_branches"@,
    ] + shard_tables()
}

/// The tables that are compacted and made anew, in order.
pub open spec fn kept_tables() -> Seq<Seq<char>> {
    seq![
        "functions"@,
        "types"@,
        "vectors"@,
        "commit_vectors"@,
        "lore_vectors"@,
        "processed_files"@,
        "symbol_filename"@,
        "git_commits"@,
        "lore"@,
        "indexed_branches"@,
    ] + shard_tables()
}

fn kept_table_names() -> (r: Vec<String>)
    ensures
        strs(r@) == kept_tables(),
{
    let mut out: Vec<String> = Vec::new();
    out.push("functions".to_owned());
    out.push("types".to_owned());
    out.push("vectors".to_owned());
    out.push("commit_vectors".to_owned());
    out.push("lore_vectors".to_owned());
    out.push("processed_files".to_owned());
    out.push("symbol_filename".to_owned());
    out.push("git_commits".to_owned());
    out.push("lore".to_owned());
    out.push("indexed_branches".to_owned());
    let ghost head = strs(out@);
    let mut shards = shard_names();
    let ghost tail = strs(shards@);
    out.append(&mut shards);
    proof {
        assert(strs(out@) =~= head + tail);
        assert(strs(out@) =~= kept_tables());
    }
    out
}

fn created_table_names() -> (r: Vec<String>)
    ensures
        strs(r@) == created_tables(),
{
    let mut out: Vec<String> = Vec::new();
    out.push("functions".to_owned());
    out.push("types".to_owned());
    out.push("vectors".to_owned());
    out.push("processed_files".to_owned());
    out.push("symbol_filename".to_owned());
    out.push("git_commits".to_owned());
    out.push("commit_vectors".to_owned());
    out.push("lore".to_owned());
    out.push("lore_vectors".to_owned());
    out.push("indexed_branches".to_owned());
    let ghost head = strs(out@);
    let mut shards = shard_names();
    let ghost tail = strs(shards@);
    out.append(&mut shards);
    proof {
        assert(strs(out@) =~= head + tail);
        assert(strs(out@) =~= created_tables());
    }
    out
}

/// Those of some names that are, or that are not, in a list.
pub open spec fn selected(
    names: Seq<Seq<char>>,
    list: Seq<Seq<char>>,
    inside: bool,
) -> Seq<Seq<char>> {
    names.filter(|n: Seq<char>| list.contains(n) == inside)
}

fn select_names(names: Vec<String>, list: &Vec<String>, inside: bool) -> (r: Vec<String>)
    ensures
        strs(r@) == selected(strs(names@), strs(list@), inside),
{
    let ghost all = strs(names@);
    let ghost keep = |n: Seq<char>| strs(list@).contains(n) == inside;
    let mut out: Vec<String> = Vec::new();
    let mut i: usize = 0;
    proof {
        reveal(Seq::filter);
    }
    while i < names.len()
        invariant
            i <= names@.len(),
            all == strs(names@),
            keep == (|n: Seq<char>| strs(list@).contains(n) == inside),
            strs(out@) == all.take(i as int).filter(keep),
        decreases names@.len() - i,
    {
        proof {
            reveal(Seq::filter);
            assert(all.take(i + 1).drop_last() =~= all.take(i as int));
            assert(all.take(i + 1).last() == names@[i as int]@);
        }
        if is_member(list, names[i].as_str()) == inside {
            out.push(names[i].clone());
        }
        i += 1;
    }
    proof {
        assert(all.take(i as int) =~= all);
    }
    out
}

/// The tables to create in a database that has some.
pub open spec fn missing_tables(existing: Seq<Seq<char>>) -> Seq<Seq<char>> {
    selected(created_tables(), existing, false)
}

/// Those of the tables looked after that a database has.
pub open spec fn present_tables(existing: Seq<Seq<char>>) -> Seq<Seq<char>> {
    selected(kept_tables(), existing, true)
}

/// The indices of a table of contents.
pub open spec fn shard_indices(table: Seq<char>) -> IndexGroupText {
    (table, seq![seq!["blake3_hash"@]])
}

/// All groups of indices, in order.
pub open spec fn all_index_groups() -> Seq<IndexGroupText> {
    main_index_groups() + shard_tables().map_values(|t: Seq<char>| shard_indices(t))
}

/// Whether indices are taken to exist: where there are functions or mails enough.
pub open spec fn likely_indexed(function_rows: Option<usize>, lore_rows: Option<usize>) -> bool {
    ||| function_rows is Some && function_rows->0 > INDEXED_ROWS
    ||| lore_rows is Some && lore_rows->0 > INDEXED_ROWS
}

/// What an index is called in messages.
pub open spec fn index_description(table: Seq<char>, cols: Seq<Seq<char>>) -> Seq<char> {
    if cols.len() == 1 {
        "BTree index on "@ + table + "."@ + cols[0]
    } else {
        "Composite index on "@ + table + ".("@ + joined(cols, ","@) + ")"@
    }
}

/// An index that a table has.
pub struct ExistingIndex {
    /// Whether it serves full-text search.
    pub is_fts: bool,
    pub columns: Vec<String>,
}

/// The columns of mail that full-text search covers.
pub open spec fn fts_columns() -> Seq<Seq<char>> {
    seq!["from"@, "subject"@, "body"@, "recipients"@, "symbols"@]
}

/// Whether an index serves full-text search on one of those columns.
pub open spec fn covers_mail(index: ExistingIndex) -> bool {
    index.is_fts && (strs(index.columns@).contains("from"@) || strs(index.columns@).contains(
        "subject"@,
    ) || strs(index.columns@).contains("body"@) || strs(index.columns@).contains("recipients"@)
        || strs(index.columns@).contains("symbols"@))
}

/// What came of compacting a table.
#[derive(Clone, Copy)]
pub struct CompactOutcome {
    pub counted: bool,
    pub compacted: bool,
    pub pruned: bool,
    pub indices_optimized: bool,
}

/// Whether a table was compacted without a failure.
pub open spec fn succeeded(o: CompactOutcome) -> bool {
    o.counted && o.compacted && o.pruned && o.indices_optimized
}

/// How many of some tables were compacted without a failure.
pub open spec fn successes(outcomes: Seq<CompactOutcome>) -> nat {
    outcomes.filter(|o: CompactOutcome| succeeded(o)).len()
}

/// The message that ends a compaction.
pub open spec fn compact_message(optimized: nat, failed: nat) -> Seq<char> {
    "    Optimized "@ + decimal(optimized) + " tables"@ + if failed > 0 {
        ", "@ + decimal(failed) + " failed"@
    } else {
        Seq::empty()
    }
}

impl SchemaManager {
    /// The tables to create in a database that has some, in order.
    pub fn create_all_tables(&self, existing: &Vec<String>) -> (r: Vec<String>)
        ensures
            strs(r@) == missing_tables(strs(existing@)),
    {
        select_names(created_table_names(), existing, false)
    }

    /// The layout of the table of a name.
    pub fn create_table_by_name(&self, table_name: &str) -> (r: Result<TableLayout, UnknownTable>)
        ensures
            match r {
                Ok(TableLayout::Columns { columns: cols }) => columns_of(table_name@) == Some(
                    columns(cols@),
                ) && table_name@ != "indexed_branches"@,
                Ok(TableLayout::IndexedBranches) => table_name@ == "indexed_branches"@,
                Err(e) => !is_table(table_name@) && e.name@ == table_name@,
            },
    {
        if same(table_name, "indexed_branches") {
            return Ok(TableLayout::IndexedBranches);
        }
        let cols: Vec<ColumnSpec> = if same(table_name, "functions") {
            self.create_functions_table()
        } else if same(table_name, "types") {
            self.create_types_table()
        } else if same(table_name, "vectors") {
            self.create_vectors_table()
        } else if same(table_name, "commit_vectors") {
            self.create_commit_vectors_table()
        } else if same(table_name, "lore_vectors") {
            self.create_lore_vectors_table()
        } else if same(table_name, "processed_files") {
            self.create_processed_files_table()
        } else if same(table_name, "symbol_filename") {
            self.create_symbol_filename_table()
        } else if same(table_name, "git_commits") {
            self.create_git_commits_table()
        } else if same(table_name, "lore") {
            self.create_lore_table()
        } else if same(table_name, "content") || starts_with(table_name, "content_") {
            self.create_content_table()
        } else {
            return Err(UnknownTable { name: table_name.to_owned() });
        };
        Ok(TableLayout::Columns { columns: cols })
    }

    /// The indices to create in a database that has some tables, in order; none where it is
    /// likely to have them, going by how many functions and mails it holds.
    pub fn create_scalar_indices(
        &self,
        existing: &Vec<String>,
        function_rows: Option<usize>,
        lore_rows: Option<usize>,
    ) -> (r: Vec<IndexGroup>)
        ensures
            likely_indexed(function_rows, lore_rows) ==> r@.len() == 0,
            !likely_indexed(function_rows, lore_rows) ==> group_texts(r@)
                == all_index_groups().filter(
                |g: IndexGroupText| strs(existing@).contains(g.0),
            ),
    {
        if let Some(n) = function_rows {
            if n > INDEXED_ROWS {
                return Vec::new();
            }
        }
        if let Some(n) = lore_rows {
            if n > INDEXED_ROWS {
                return Vec::new();
            }
        }
        let mut all = main_groups();
        let shards = shard_names();
        let ghost mine = main_index_groups();
        let ghost theirs = shard_tables().map_values(|t: Seq<char>| shard_indices(t));
        let mut k: usize = 0;
        proof {
            assert(mine + theirs.take(0) =~= mine);
        }
        while k < shards.len()
            invariant
                k <= shards@.len(),
                strs(shards@) == shard_tables(),
                mine == main_index_groups(),
                theirs == shard_tables().map_values(|t: Seq<char>| shard_indices(t)),
                group_texts(all@) == mine + theirs.take(k as int),
            decreases shards@.len() - k,
        {
            let ghost had = group_texts(all@);
            let mut indices: Vec<Vec<String>> = Vec::new();
            indices.push(one("blake3_hash"));
            let group = IndexGroup { table: shards[k].clone(), indices };
            proof {
                assert(strs(shards@)[k as int] == shards@[k as int]@);
                assert(group_text(group).1 =~= seq![seq!["blake3_hash"@]]);
                assert(theirs[k as int] == group_text(group));
            }
            all.push(group);
            proof {
                assert(group_texts(all@) =~= had.push(theirs[k as int]));
                assert(group_texts(all@) =~= mine + theirs.take(k + 1));
            }
            k += 1;
        }
        proof {
            assert(theirs.take(k as int) =~= theirs);
        }
        let ghost groups = group_texts(all@);
        let ghost raw = all@;
        let ghost keep = |g: IndexGroupText| strs(existing@).contains(g.0);
        let mut out: Vec<IndexGroup> = Vec::new();
        let ghost mut i: int = 0;
        proof {
            reveal(Seq::filter);
            assert(group_texts(out@) =~= groups.take(0).filter(keep));
        }
        for g in it: all.into_iter()
            invariant
                it.seq() == raw,
                i == it.index(),
                groups == group_texts(raw),
                keep == (|g: IndexGroupText| strs(existing@).contains(g.0)),
                group_texts(out@) == groups.take(i).filter(keep),
        {
            let ghost had = group_texts(out@);
            proof {
                reveal(Seq::filter);
                assert(groups.take(i + 1).drop_last() =~= groups.take(i));
                assert(groups.take(i + 1).last() == group_text(g));
                i = i + 1;
            }
            if is_member(existing, g.table.as_str()) {
                out.push(g);
                assert(group_texts(out@) =~= had.push(group_text(g)));
            }
        }
        proof {
            assert(groups.take(i) =~= groups);
        }
        out
    }

    /// What an index is called in messages.
    pub fn describe_index(&self, table: &str, cols: &Vec<String>) -> (r: String)
        ensures
            r@ == index_description(table@, strs(cols@)),
    {
        if cols.len() == 1 {
            let mut out: String = "BTree index on ".to_owned();
            out.append(table);
            out.append(".");
            out.append(cols[0].as_str());
            assert(strs(cols@)[0] == cols@[0]@);
            out
        } else {
            let mut out: String = "Composite index on ".to_owned();
            out.append(table);
            out.append(".(");
            out.append(join(cols, ",").as_str());
            out.append(")");
            out
        }
    }

    /// The columns of mail to create full-text indices on: all that are searched, or none
    /// where one of them has such an index.
    pub fn create_lore_fts_indices(&self, indices: &Vec<ExistingIndex>) -> (r: Vec<String>)
        ensures
            strs(r@) == (if exists|i: int|
                0 <= i < indices@.len() && covers_mail(#[trigger] indices@[i]) {
                Seq::empty()
            } else {
                fts_columns()
            }),
    {
        let mut i: usize = 0;
        while i < indices.len()
            invariant
                i <= indices@.len(),
                forall|j: int| 0 <= j < i ==> !covers_mail(#[trigger] indices@[j]),
            decreases indices@.len() - i,
        {
            let cols = &indices[i].columns;
            if indices[i].is_fts && (is_member(cols, "from") || is_member(cols, "subject")
                || is_member(cols, "body") || is_member(cols, "recipients") || is_member(
                cols,
                "symbols",
            )) {
                assert(covers_mail(indices@[i as int]));
                return Vec::new();
            }
            i += 1;
        }
        let mut out: Vec<String> = Vec::new();
        out.push("from".to_owned());
        out.push("subject".to_owned());
        out.push("body".to_owned());
        out.push("recipients".to_owned());
        out.push("symbols".to_owned());
        assert(strs(out@) =~= fts_columns());
        out
    }

    /// The tables to compact, in order.
    pub fn compact_and_cleanup(&self, existing: &Vec<String>) -> (r: Vec<String>)
        ensures
            strs(r@) == present_tables(strs(existing@)),
    {
        select_names(kept_table_names(), existing, true)
    }

    /// The message that ends a compaction, from what came of each table.
    pub fn compaction_summary(&self, outcomes: &Vec<CompactOutcome>) -> (r: String)
        ensures
            r@ == compact_message(
                successes(outcomes@),
                (outcomes@.len() - successes(outcomes@)) as nat,
            ),
    {
        let ghost good = |o: CompactOutcome| succeeded(o);
        let mut optimized: u64 = 0;
        let mut failed: u64 = 0;
        let n: usize = outcomes.len();
        let mut i: usize = 0;
        proof {
            reveal(Seq::filter);
        }
        while i < n
            invariant
                i <= n,
                n == outcomes@.len(),
                good == (|o: CompactOutcome| succeeded(o)),
                optimized == outcomes@.take(i as int).filter(good).len(),
                optimized + failed == i,
            decreases n - i,
        {
            proof {
                reveal(Seq::filter);
                assert(outcomes@.take(i + 1).drop_last() =~= outcomes@.take(i as int));
            }
            let o = outcomes[i];
            if o.counted && o.compacted && o.pruned && o.indices_optimized {
                optimized = optimized + 1;
            } else {
                failed = failed + 1;
            }
            i += 1;
        }
        proof {
            assert(outcomes@.take(n as int) =~= outcomes@);
        }
        let mut out: String = "    Optimized ".to_owned();
        out.append(decimal_text(optimized).as_str());
        out.append(" tables");
        if failed > 0 {
            out.append(", ");
            out.append(decimal_text(failed).as_str());
            out.append(" failed");
        }
        proof {
            assert(out@ =~= compact_message(optimized as nat, failed as nat));
        }
        out
    }

    /// The tables to make anew, in order.
    pub fn drop_and_recreate_tables(&self, existing: &Vec<String>) -> (r: Vec<String>)
        ensures
            strs(r@) == present_tables(strs(existing@)),
    {
        select_names(kept_table_names(), existing, true)
    }

    /// Starts making one table anew, where there is such a table.
    pub fn drop_and_recreate_table<D>(&self, table_name: &str, existing: &Vec<String>) -> (r: Result<
        Recreation<D>,
        UnknownTable,
    >)
        ensures
            match r {
                Ok(step) => strs(existing@).contains(table_name@) && step is NeedExport,
                Err(e) => !strs(existing@).contains(table_name@) && e.name@ == table_name@,
            },
    {
        if is_member(existing, table_name) {
            Ok(Recreation::NeedExport)
        } else {
            Err(UnknownTable { name: table_name.to_owned() })
        }
    }
}

impl DatabaseManager {
    /// The tables whose handles are renewed when a database was compacted, in order.
    pub fn compact_database(&self, existing: &Vec<String>) -> (r: Vec<String>)
        ensures
            strs(r@) == selected(main_tables(), strs(existing@), true),
    {
        select_names(main_table_names(), existing, true)
    }
}

/// Where the making anew of a table stands. Its data are held from the moment they are
/// exported until they are imported.
pub enum Recreation<D> {
    /// The table's data are to be exported.
    NeedExport,
    /// The table is to be dropped.
    NeedDrop { data: Vec<D> },
    /// The table is to be created, empty.
    NeedCreate { data: Vec<D> },
    /// These data are to be imported.
    NeedImport { data: Vec<D> },
    /// It is over; an empty table was left as it was.
    Done { recreated: bool },
    /// A step failed, and nothing further is done.
    Failed,
}

/// What follows the export.
pub open spec fn after_export<D>(step: Recreation<D>, data: Option<Vec<D>>) -> Recreation<D> {
    match (step, data) {
        (Recreation::NeedExport, Some(batches)) => if batches@.len() == 0 {
            Recreation::Done { recreated: false }
        } else {
            Recreation::NeedDrop { data: batches }
        },
        (Recreation::NeedExport, None) => Recreation::Failed,
        (other, _) => other,
    }
}

/// What follows the drop.
pub open spec fn after_drop<D>(step: Recreation<D>, worked: bool) -> Recreation<D> {
    match step {
        Recreation::NeedDrop { data } => if worked {
            Recreation::NeedCreate { data }
        } else {
            Recreation::Failed
        },
        other => other,
    }
}

/// What follows the creation.
pub open spec fn after_create<D>(step: Recreation<D>, worked: bool) -> Recreation<D> {
    match step {
        Recreation::NeedCreate { data } => if worked {
            Recreation::NeedImport { data }
        } else {
            Recreation::Failed
        },
        other => other,
    }
}

/// What follows the import.
pub open spec fn after_import<D>(step: Recreation<D>, worked: bool) -> Recreation<D> {
    match step {
        Recreation::NeedImport { .. } => if worked {
            Recreation::Done { recreated: true }
        } else {
            Recreation::Failed
        },
        other => other,
    }
}

impl<D> Recreation<D> {
    /// Goes on with the data exported, or `None` where exporting failed. A table without
    /// data is left as it is.
    pub fn on_exported(self, data: Option<Vec<D>>) -> (r: Recreation<D>)
        ensures
            r == after_export(self, data),
    {
        match self {
            Recreation::NeedExport => match data {
                Some(batches) => if batches.len() == 0 {
                    Recreation::Done { recreated: false }
                } else {
                    Recreation::NeedDrop { data: batches }
                },
                None => Recreation::Failed,
            },
            other => other,
        }
    }

    /// Goes on with whether dropping the table worked.
    pub fn on_dropped(self, worked: bool) -> (r: Recreation<D>)
        ensures
            r == after_drop(self, worked),
    {
        match self {
            Recreation::NeedDrop { data } => if worked {
                Recreation::NeedCreate { data }
            } else {
                Recreation::Failed
            },
            other => other,
        }
    }

    /// Goes on with whether creating the table worked.
    pub fn on_created(self, worked: bool) -> (r: Recreation<D>)
        ensures
            r == after_create(self, worked),
    {
        match self {
            Recreation::NeedCreate { data } => if worked {
                Recreation::NeedImport { data }
            } else {
                Recreation::Failed
            },
            other => other,
        }
    }

    /// Ends with whether importing the data worked.
    pub fn on_imported(self, worked: bool) -> (r: Recreation<D>)
        ensures
            r == after_import(self, worked),
    {
        match self {
            Recreation::NeedImport { .. } => if worked {
                Recreation::Done { recreated: true }
            } else {
                Recreation::Failed
            },
            other => other,
        }
    }
}

/// A table is dropped only when its data were exported, and what is imported is what was
/// exported; a table is made anew exactly where it had data and every step worked.
pub proof fn law_recreation_keeps_data<D>(
    exported: Option<Vec<D>>,
    dropped: bool,
    created: bool,
    imported: bool,
)
    ensures
        ({
            let s1 = after_export(Recreation::NeedExport, exported);
            let s2 = after_drop(s1, dropped);
            let s3 = after_create(s2, created);
            let s4 = after_import(s3, imported);
            &&& s1 is NeedDrop ==> exported is Some && s1->NeedDrop_data == exported->0
            &&& s3 is NeedImport ==> exported is Some && s3->NeedImport_data == exported->0
            &&& s4 == (Recreation::<D>::Done { recreated: true }) <==> exported is Some
                && exported->0@.len() > 0 && dropped && created && imported
            &&& s4 == (Recreation::<D>::Done { recreated: false }) <==> exported is Some
                && exported->0@.len() == 0
        }),
{
}

proof fn lemma_shards_are_tables(i: int)
    requires
        0 <= i < shard_tables().len(),
    ensures
        is_table(shard_tables()[i]),
{
    let name = shard_tables()[i];
    assert(name == shard_table(i as nat));
    assert(name.subrange(0, "content_"@.len() as int) =~= "content_"@);
}

/// Every table that is created has a layout, and is compacted and made anew with the
/// others.
pub proof fn law_created_tables_are_kept(name: Seq<char>)
    requires
        created_tables().contains(name),
    ensures
        is_table(name),
        kept_tables().contains(name),
{
    let c = created_tables();
    let k = kept_tables();
    let i = choose|i: int| 0 <= i < c.len() && c[i] == name;
    if i < 10 {
        assert(k[0] == c[0] && k[1] == c[1] && k[2] == c[2] && k[3] == c[6] && k[4] == c[8] && k[5]
            == c[3] && k[6] == c[4] && k[7] == c[5] && k[8] == c[7] && k[9] == c[9]);
    } else {
        lemma_shards_are_tables(i - 10);
        assert(shard_tables()[i - 10] == name);
        assert(k[i] == name);
    }
}

/// Every table that is created is scanned for duplicates.
pub proof fn law_no_table_forgotten(name: Seq<char>)
    requires
        created_tables().contains(name),
    ensures
        scanned_tables().contains(name),
{
    let c = created_tables();
    let s = scanned_tables();
    let i = choose|i: int| 0 <= i < c.len() && c[i] == name;
    if i < 10 {
        assert(s[0] == c[0] && s[1] == c[1] && s[2] == c[3] && s[3] == c[4] && s[4] == c[5] && s[5]
            == c[2] && s[6] == c[6] && s[7] == c[7] && s[8] == c[8] && s[9] == c[9]);
    } else {
        assert(s[i] == name);
    }
}

/// With the tables that are missing created, a database has them all; created again,
/// nothing is missing.
pub proof fn law_tables_are_created_once(existing: Seq<Seq<char>>, after: Seq<Seq<char>>)
    requires
        forall|n: Seq<char>| #[trigger]
            after.contains(n) <==> existing.contains(n) || missing_tables(existing).contains(n),
    ensures
        forall|n: Seq<char>| #[trigger] created_tables().contains(n) ==> after.contains(n),
        missing_tables(after).len() == 0,
{
    let all = created_tables();
    let lacks = |n: Seq<char>| existing.contains(n) == false;
    let lacks_after = |n: Seq<char>| after.contains(n) == false;
    assert forall|n: Seq<char>| #[trigger] all.contains(n) implies after.contains(n) by {
        let i = choose|i: int| 0 <= i < all.len() && all[i] == n;
        if !existing.contains(n) {
            all.lemma_filter_contains(lacks, i);
            assert(missing_tables(existing).contains(n));
        }
    }
    if missing_tables(after).len() > 0 {
        let n = missing_tables(after)[0];
        all.lemma_filter_pred(lacks_after, 0);
        assert(missing_tables(after).contains(n));
        all.lemma_filter_contains_rev(lacks_after, n);
        assert(after.contains(n));
    }
}

/// Whether a name of a list is chosen: exactly where it is in the other list, or is not, as
/// was asked.
pub proof fn law_selected(
    names: Seq<Seq<char>>,
    list: Seq<Seq<char>>,
    inside: bool,
    name: Seq<char>,
)
    ensures
        selected(names, list, inside).contains(name) <==> names.contains(name) && (list.contains(name)
            == inside),
{
    let keep = |n: Seq<char>| list.contains(n) == inside;
    let kept = names.filter(keep);
    if kept.contains(name) {
        names.lemma_filter_contains_rev(keep, name);
        let k = choose|k: int| 0 <= k < kept.len() && kept[k] == name;
        names.lemma_filter_pred(keep, k);
    }
    if names.contains(name) && keep(name) {
        let k = choose|k: int| 0 <= k < names.len() && names[k] == name;
        names.lemma_filter_contains(keep, k);
    }
}

/// The tables to create are those that a database lacks, and the tables to compact or to make
/// anew are those that it has, of the ten tables and the tables of contents.
pub proof fn law_missing_and_present(existing: Seq<Seq<char>>, name: Seq<char>)
    ensures
        missing_tables(existing).contains(name) <==> created_tables().contains(name)
            && !existing.contains(name),
        present_tables(existing).contains(name) <==> kept_tables().contains(name) && existing.contains(
            name,
        ),
        created_tables().take(10) == seq![
            "functions"@,
            "types"@,
            "vectors"@,
            "processed_files"@,
            "symbol_filename"@,
            "git_commits"@,
            "commit_vectors"@,
            "lore"@,
            "lore_vectors"@,
            "indexed_branches"@,
        ],
        created_tables().skip(10) == shard_tables(),
        kept_tables().take(10) == seq![
            "functions"@,
            "types"@,
            "vectors"@,
            "commit_vectors"@,
            "lore_vectors"@,
            "processed_files"@,
            "symbol_filename"@,
            "git_commits"@,
            "lore"@,
            "indexed_branches"@,
        ],
        kept_tables().skip(10) == shard_tables(),
{
    law_selected(created_tables(), existing, false, name);
    law_selected(kept_tables(), existing, true, name);
    assert(created_tables().skip(10) =~= shard_tables());
    assert(kept_tables().skip(10) =~= shard_tables());
}

/// Indices are taken to exist exactly where more than 100 functions or more than 100 mails are
/// counted.
pub proof fn law_likely_indexed(function_rows: Option<usize>, lore_rows: Option<usize>)
    ensures
        likely_indexed(function_rows, lore_rows) <==> (function_rows matches Some(n) && n > 100) || (
        lore_rows matches Some(n) && n > 100),
{
}

/// An index covers mail exactly where it serves full-text search and one of its columns is one
/// of the five that are searched; these are all made where no index covers any.
pub proof fn law_covers_mail(index: ExistingIndex)
    ensures
        covers_mail(index) <==> index.is_fts && exists|k: int|
            0 <= k < index.columns@.len() && fts_columns().contains((#[trigger] index.columns@[k])@),
        fts_columns() == seq!["from"@, "subject"@, "body"@, "recipients"@, "symbols"@],
{
    let cols = strs(index.columns@);
    let all = fts_columns();
    assert(all[0] == "from"@ && all[1] == "subject"@ && all[2] == "body"@ && all[3] == "recipients"@
        && all[4] == "symbols"@);
    if covers_mail(index) {
        let k = choose|k: int|
            0 <= k < cols.len() && (cols[k] == "from"@ || cols[k] == "subject"@ || cols[k] == "body"@
                || cols[k] == "recipients"@ || cols[k] == "symbols"@);
        assert(cols[k] == index.columns@[k]@);
        assert(all.contains(index.columns@[k]@));
    }
    if index.is_fts && exists|k: int|
        0 <= k < index.columns@.len() && all.contains((#[trigger] index.columns@[k])@) {
        let k = choose|k: int|
            0 <= k < index.columns@.len() && all.contains((#[trigger] index.columns@[k])@);
        let c = choose|c: int| 0 <= c < all.len() && all[c] == index.columns@[k]@;
        assert(cols[k] == all[c]);
        assert(cols.contains(all[c]));
    }
}

/// A table counts as compacted exactly where all four steps worked; one more table is counted
/// exactly where it is.
pub proof fn law_successes(outcomes: Seq<CompactOutcome>, o: CompactOutcome)
    ensures
        successes(Seq::<CompactOutcome>::empty()) == 0,
        o.counted && o.compacted && o.pruned && o.indices_optimized ==> successes(outcomes.push(o))
            == successes(outcomes) + 1,
        !(o.counted && o.compacted && o.pruned && o.indices_optimized) ==> successes(
            outcomes.push(o),
        ) == successes(outcomes),
{
    reveal(Seq::filter);
    assert(outcomes.push(o).drop_last() =~= outcomes);
    assert(Seq::<CompactOutcome>::empty().filter(|o: CompactOutcome| succeeded(o)).len() == 0);
}

/// The messages of upkeep: a compaction ends with how many tables it optimized and, where any
/// failed, how many did; an index is called by its table and its columns.
pub proof fn law_messages(optimized: nat, failed: nat, table: Seq<char>, cols: Seq<Seq<char>>)
    ensures
        failed == 0 ==> compact_message(optimized, failed) == "    Optimized "@ + decimal(optimized)
            + " tables"@,
        failed > 0 ==> compact_message(optimized, failed) == "    Optimized "@ + decimal(optimized)
            + " tables"@ + (", "@ + decimal(failed) + " failed"@),
        cols.len() == 1 ==> index_description(table, cols) == "BTree index on "@ + table + "."@
            + cols[0],
        cols.len() != 1 ==> index_description(table, cols) == "Composite index on "@ + table + ".("@
            + joined(cols, ","@) + ")"@,
{
    let head = "    Optimized "@ + decimal(optimized) + " tables"@;
    assert(head + Seq::<char>::empty() =~= head);
}

/// The layout of each table is the one that goes with its name; a name that starts like those
/// of the tables of contents has their layout, and any other name has none.
pub proof fn law_columns_of(name: Seq<char>)
    ensures
        name == "functions"@ ==> columns_of(name) == Some(functions_columns()),
        name == "types"@ ==> columns_of(name) == Some(types_columns()),
        name == "vectors"@ ==> columns_of(name) == Some(vectors_columns()),
        name == "commit_vectors"@ ==> columns_of(name) == Some(commit_vectors_columns()),
        name == "lore_vectors"@ ==> columns_of(name) == Some(lore_vectors_columns()),
        name == "processed_files"@ ==> columns_of(name) == Some(processed_files_columns()),
        name == "symbol_filename"@ ==> columns_of(name) == Some(symbol_filename_columns()),
        name == "git_commits"@ ==> columns_of(name) == Some(git_commits_columns()),
        name == "lore"@ ==> columns_of(name) == Some(lore_columns()),
        name == "content"@ ==> columns_of(name) == Some(content_columns()),
        name.len() >= 8 && name.take(8) == "content_"@ ==> columns_of(name) == Some(content_columns()),
        is_table(name) <==> name == "indexed_branches"@ || main_tables().contains(name) || name
            == "content"@ || (name.len() >= 8 && name.take(8) == "content_"@),
{
    reveal_strlit("functions");
    reveal_strlit("types");
    reveal_strlit("vectors");
    reveal_strlit("commit_vectors");
    reveal_strlit("lore_vectors");
    reveal_strlit("processed_files");
    reveal_strlit("symbol_filename");
    reveal_strlit("git_commits");
    reveal_strlit("lore");
    reveal_strlit("content");
    reveal_strlit("content_");
    assert("functions"@.len() == 9 && "types"@.len() == 5 && "vectors"@.len() == 7
        && "commit_vectors"@.len() == 14 && "lore_vectors"@.len() == 12 && "processed_files"@.len()
        == 15 && "symbol_filename"@.len() == 15 && "git_commits"@.len() == 11 && "lore"@.len() == 4
        && "content"@.len() == 7 && "content_"@.len() == 8);
    assert("vectors"@[0] == 'v' && "content"@[0] == 'c');
    assert("processed_files"@[0] == 'p' && "symbol_filename"@[0] == 's');
    if name.len() >= 8 {
        assert(name.subrange(0, 8) =~= name.take(8));
        if name.take(8) == "content_"@ {
            assert(name[0] == name.take(8)[0] && name[1] == name.take(8)[1] && name[2] == name.take(
                8,
            )[2]);
            assert("content_"@[0] == 'c' && "content_"@[1] == 'o' && "content_"@[2] == 'n');
            assert("commit_vectors"@[2] == 'm');
            assert("functions"@[0] == 'f' && "lore_vectors"@[0] == 'l' && "git_commits"@[0] == 'g');
        }
    }
    let main = main_tables();
    assert(main[0] == "functions"@ && main[1] == "types"@ && main[2] == "vectors"@ && main[3]
        == "commit_vectors"@ && main[4] == "lore_vectors"@ && main[5] == "processed_files"@ && main[6]
        == "git_commits"@ && main[7] == "lore"@ && main[8] == "symbol_filename"@);
    if main.contains(name) {
        let k = choose|k: int| 0 <= k < main.len() && main[k] == name;
        assert(0 <= k < 9);
    }
}

/// The groups of indices are those of the tables and, behind them, one index for each of the
/// tables of contents, on the hash.
pub proof fn law_all_index_groups(i: int)
    ensures
        all_index_groups().take(main_index_groups().len() as int) == main_index_groups(),
        all_index_groups().len() == main_index_groups().len() + 16,
        0 <= i < 16 ==> all_index_groups()[main_index_groups().len() + i] == (
            "content_"@ + decimal(i as nat),
            seq![seq!["blake3_hash"@]],
        ),
{
    assert(all_index_groups().take(main_index_groups().len() as int) =~= main_index_groups());
}

/// Each step of making a table anew follows only the one before it: what is told out of turn
/// changes nothing, what fails ends it, and the data go on from step to step as they are.
pub proof fn law_recreation_steps<D>(step: Recreation<D>, data: Option<Vec<D>>, worked: bool)
    ensures
        !(step is NeedExport) ==> after_export(step, data) == step,
        !(step is NeedDrop) ==> after_drop(step, worked) == step,
        !(step is NeedCreate) ==> after_create(step, worked) == step,
        !(step is NeedImport) ==> after_import(step, worked) == step,
        step is NeedExport && data is None ==> after_export(step, data) is Failed,
        step is NeedExport && data is Some && data->0@.len() > 0 ==> after_export(step, data) == (
        Recreation::NeedDrop { data: data->0 }),
        step is NeedExport && data is Some && data->0@.len() == 0 ==> after_export(step, data) == (
        Recreation::<D>::Done { recreated: false }),
        step matches Recreation::NeedDrop { data: held } ==> worked ==> after_drop(step, worked) == (
        Recreation::NeedCreate { data: held }),
        step matches Recreation::NeedCreate { data: held } ==> worked ==> after_create(step, worked)
            == (Recreation::NeedImport { data: held }),
        step is NeedImport && worked ==> after_import(step, worked) == (Recreation::<D>::Done {
            recreated: true,
        }),
        step is NeedDrop && !worked ==> after_drop(step, worked) is Failed,
        step is NeedCreate && !worked ==> after_create(step, worked) is Failed,
        step is NeedImport && !worked ==> after_import(step, worked) is Failed,
{
}

/// The names that are chosen come in the order of the list that they are chosen from.
pub proof fn law_selected_in_order(
    names: Seq<Seq<char>>,
    name: Seq<char>,
    list: Seq<Seq<char>>,
    inside: bool,
)
    ensures
        selected(Seq::<Seq<char>>::empty(), list, inside).len() == 0,
        list.contains(name) == inside ==> selected(names.push(name), list, inside) == selected(
            names,
            list,
            inside,
        ).push(name),
        list.contains(name) != inside ==> selected(names.push(name), list, inside) == selected(
            names,
            list,
            inside,
        ),
        missing_tables(list) == selected(created_tables(), list, false),
        present_tables(list) == selected(kept_tables(), list, true),
{
    lemma_filter_step(names, name, |n: Seq<char>| list.contains(n) == inside);
}

} // verus!
