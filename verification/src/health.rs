//! The state of a database's files: whether it needs optimizing, and how much it holds.
use crate::database::DatabaseManager;
use crate::text::{decimal, decimal_text, strs};
use vstd::prelude::*;

verus! {

/// How many fragments a table may have.
pub const MAX_FRAGMENTS: usize = 600;

/// How many fragments the tables of contents may have together.
pub const MAX_CONTENT_FRAGMENTS: usize = 3000;

/// How many small fragments a table may have, whatever their share.
pub const MAX_SMALL_FRAGMENTS: usize = 10;

/// How many rows a fragment of a large table has at least, on average.
pub const MIN_MEAN_ROWS: usize = 1000;

/// How many rows make a table large.
pub const LARGE_TABLE_ROWS: usize = 10000;

/// What is known of a table's files.
#[derive(Clone, Copy)]
pub struct TableStats {
    pub num_fragments: usize,
    pub num_small_fragments: usize,
    pub mean_rows: usize,
    pub num_rows: usize,
}

/// A reason to optimize.
#[derive(Clone, Copy, PartialEq, Eq, Structural)]
pub enum HealthIssue {
    /// A table, by its place in the list, has too many fragments.
    TooManyFragments { table: usize, fragments: usize },
    /// More than half of a table's fragments are small.
    SmallFragments { table: usize, small: usize, fragments: usize },
    /// A large table's fragments have few rows on average.
    SmallMean { table: usize, mean_rows: usize },
    /// The tables of contents have too many fragments together.
    ContentFragments { fragments: usize },
}

/// What a check of a database found.
pub struct HealthReport {
    pub needs_optimization: bool,
    pub issues: Vec<HealthIssue>,
    pub total_fragments: usize,
    pub total_small_fragments: usize,
}

/// The issues of one table.
pub open spec fn table_issues(table: usize, s: TableStats) -> Seq<HealthIssue> {
    (if s.num_fragments > MAX_FRAGMENTS {
        seq![HealthIssue::TooManyFragments { table, fragments: s.num_fragments }]
    } else {
        Seq::empty()
    }) + (if s.num_fragments > 0 && 2 * s.num_small_fragments > s.num_fragments
        && s.num_small_fragments > MAX_SMALL_FRAGMENTS {
        seq![
            HealthIssue::SmallFragments {
                table,
                small: s.num_small_fragments,
                fragments: s.num_fragments,
            },
        ]
    } else {
        Seq::empty()
    }) + (if s.mean_rows < MIN_MEAN_ROWS && s.num_rows > LARGE_TABLE_ROWS {
        seq![HealthIssue::SmallMean { table, mean_rows: s.mean_rows }]
    } else {
        Seq::empty()
    })
}

/// The issues of a list of tables; of a table without statistics none is known.
pub open spec fn tables_issues(tables: Seq<Option<TableStats>>) -> Seq<HealthIssue>
    decreases tables.len(),
{
    if tables.len() == 0 {
        Seq::empty()
    } else {
        let rest = tables_issues(tables.drop_last());
        match tables.last() {
            Some(s) => rest + table_issues((tables.len() - 1) as usize, s),
            None => rest,
        }
    }
}

/// The fragments of a list of tables.
pub open spec fn fragments_of(tables: Seq<Option<TableStats>>) -> nat
    decreases tables.len(),
{
    if tables.len() == 0 {
        0
    } else {
        fragments_of(tables.drop_last()) + match tables.last() {
            Some(s) => s.num_fragments as nat,
            None => 0,
        }
    }
}

/// The small fragments of a list of tables.
pub open spec fn small_of(tables: Seq<Option<TableStats>>) -> nat
    decreases tables.len(),
{
    if tables.len() == 0 {
        0
    } else {
        small_of(tables.drop_last()) + match tables.last() {
            Some(s) => s.num_small_fragments as nat,
            None => 0,
        }
    }
}

/// All issues of a database.
pub open spec fn all_issues(
    tables: Seq<Option<TableStats>>,
    contents: Seq<Option<TableStats>>,
) -> Seq<HealthIssue> {
    tables_issues(tables) + if fragments_of(contents) > MAX_CONTENT_FRAGMENTS {
        seq![HealthIssue::ContentFragments { fragments: fragments_of(contents) as usize }]
    } else {
        Seq::empty()
    }
}

/// The small fragments that are counted: those of tables of contents only where these
/// have fragments at all.
pub open spec fn counted_small(
    tables: Seq<Option<TableStats>>,
    contents: Seq<Option<TableStats>>,
) -> nat {
    small_of(tables) + if fragments_of(contents) > 0 {
        small_of(contents)
    } else {
        0
    }
}

proof fn lemma_fragments_grow(tables: Seq<Option<TableStats>>, i: int)
    requires
        0 <= i <= tables.len(),
    ensures
        fragments_of(tables.take(i)) <= fragments_of(tables),
        small_of(tables.take(i)) <= small_of(tables),
    decreases tables.len() - i,
{
    if i < tables.len() {
        lemma_fragments_grow(tables, i + 1);
        assert(tables.take(i + 1).drop_last() =~= tables.take(i));
    } else {
        assert(tables.take(i) =~= tables);
    }
}

fn count_fragments(tables: &Vec<Option<TableStats>>) -> (r: (usize, usize))
    requires
        fragments_of(tables@) <= usize::MAX,
        small_of(tables@) <= usize::MAX,
    ensures
        r.0 == fragments_of(tables@),
        r.1 == small_of(tables@),
{
    let mut all: usize = 0;
    let mut small: usize = 0;
    let mut i: usize = 0;
    while i < tables.len()
        invariant
            i <= tables@.len(),
            fragments_of(tables@) <= usize::MAX,
            small_of(tables@) <= usize::MAX,
            all == fragments_of(tables@.take(i as int)),
            small == small_of(tables@.take(i as int)),
        decreases tables@.len() - i,
    {
        proof {
            assert(tables@.take(i + 1).drop_last() =~= tables@.take(i as int));
            lemma_fragments_grow(tables@, i + 1);
        }
        if let Some(s) = tables[i] {
            all = all + s.num_fragments;
            small = small + s.num_small_fragments;
        }
        i += 1;
    }
    proof {
        assert(tables@.take(i as int) =~= tables@);
    }
    (all, small)
}

impl DatabaseManager {
    /// Whether a database needs optimizing, from the statistics of its main tables and of
    /// its tables of contents; `None` stands for a table whose statistics are not known.
    pub fn check_optimization_health(
        &self,
        tables: &Vec<Option<TableStats>>,
        contents: &Vec<Option<TableStats>>,
    ) -> (r: HealthReport)
        requires
            fragments_of(tables@) + fragments_of(contents@) <= usize::MAX,
            small_of(tables@) + small_of(contents@) <= usize::MAX,
        ensures
            r.needs_optimization == (r.issues@.len() > 0),
            r.issues@ == all_issues(tables@, contents@),
            r.total_fragments == fragments_of(tables@) + fragments_of(contents@),
            r.total_small_fragments == counted_small(tables@, contents@),
    {
        let mut issues: Vec<HealthIssue> = Vec::new();
        let mut needs: bool = false;
        let mut i: usize = 0;
        while i < tables.len()
            invariant
                i <= tables@.len(),
                issues@ == tables_issues(tables@.take(i as int)),
                needs == (issues@.len() > 0),
            decreases tables@.len() - i,
        {
            let ghost had = issues@;
            proof {
                assert(tables@.take(i + 1).drop_last() =~= tables@.take(i as int));
            }
            if let Some(s) = tables[i] {
                if s.num_fragments > MAX_FRAGMENTS {
                    needs = true;
                    issues.push(
                        HealthIssue::TooManyFragments { table: i, fragments: s.num_fragments },
                    );
                }
                if s.num_fragments > 0 {
                    let most = s.num_small_fragments > s.num_fragments || s.num_small_fragments
                        > s.num_fragments - s.num_small_fragments;
                    if most && s.num_small_fragments > MAX_SMALL_FRAGMENTS {
                        needs = true;
                        issues.push(
                            HealthIssue::SmallFragments {
                                table: i,
                                small: s.num_small_fragments,
                                fragments: s.num_fragments,
                            },
                        );
                    }
                }
                if s.mean_rows < MIN_MEAN_ROWS && s.num_rows > LARGE_TABLE_ROWS {
                    needs = true;
                    issues.push(HealthIssue::SmallMean { table: i, mean_rows: s.mean_rows });
                }
                assert(issues@ =~= had + table_issues(i, s));
            }
            i += 1;
        }
        proof {
            assert(tables@.take(i as int) =~= tables@);
        }
        let ghost had = issues@;
        let (mut total, mut small) = count_fragments(tables);
        let (content_fragments, content_small) = count_fragments(contents);
        if content_fragments > 0 {
            total = total + content_fragments;
            small = small + content_small;
            if content_fragments > MAX_CONTENT_FRAGMENTS {
                needs = true;
                issues.push(HealthIssue::ContentFragments { fragments: content_fragments });
            }
        }
        proof {
            assert(issues@ =~= all_issues(tables@, contents@));
        }
        HealthReport {
            needs_optimization: needs,
            issues,
            total_fragments: total,
            total_small_fragments: small,
        }
    }
}

/// Whether the statistics of a table pass one of the thresholds: too many fragments, too
/// many small ones, or too small ones for its size.
pub open spec fn passes_threshold(s: TableStats) -> bool {
    ||| s.num_fragments > MAX_FRAGMENTS
    ||| s.num_fragments > 0 && 2 * s.num_small_fragments > s.num_fragments
        && s.num_small_fragments > MAX_SMALL_FRAGMENTS
    ||| s.mean_rows < MIN_MEAN_ROWS && s.num_rows > LARGE_TABLE_ROWS
}

/// A database needs optimizing exactly where one of its tables passes a threshold, whatever
/// the others are like, or where the tables of contents have too many fragments together.
pub proof fn law_one_bad_table_suffices(
    tables: Seq<Option<TableStats>>,
    contents: Seq<Option<TableStats>>,
)
    ensures
        all_issues(tables, contents).len() > 0 <==> (exists|i: int|
            0 <= i < tables.len() && (#[trigger] tables[i]) is Some && passes_threshold(
                tables[i]->0,
            )) || fragments_of(contents) > MAX_CONTENT_FRAGMENTS,
{
    lemma_tables_issues(tables);
}

proof fn lemma_tables_issues(tables: Seq<Option<TableStats>>)
    ensures
        tables_issues(tables).len() > 0 <==> exists|i: int|
            0 <= i < tables.len() && (#[trigger] tables[i]) is Some && passes_threshold(
                tables[i]->0,
            ),
    decreases tables.len(),
{
    if tables.len() > 0 {
        let rest = tables.drop_last();
        lemma_tables_issues(rest);
        if tables_issues(rest).len() > 0 {
            let i = choose|i: int|
                0 <= i < rest.len() && (#[trigger] rest[i]) is Some && passes_threshold(rest[i]->0);
            assert(tables[i] == rest[i]);
        } else if exists|i: int|
            0 <= i < tables.len() && (#[trigger] tables[i]) is Some && passes_threshold(
                tables[i]->0,
            ) {
            let i = choose|i: int|
                0 <= i < tables.len() && (#[trigger] tables[i]) is Some && passes_threshold(
                    tables[i]->0,
                );
            if i < rest.len() {
                assert(rest[i] == tables[i]);
            }
        }
        if tables_issues(tables).len() > 0 && tables_issues(rest).len() == 0 {
            assert(tables[tables.len() - 1] is Some);
            assert(passes_threshold(tables[tables.len() - 1]->0));
        }
    }
}

/// How much the functions take up.
#[derive(Clone, Copy)]
pub struct FunctionStorage {
    pub with_vectors: usize,
    pub without_vectors: usize,
    /// Whole megabytes of vectors of 256 numbers of four bytes.
    pub vector_megabytes: usize,
    /// Whole megabytes of text, at two kilobytes a function.
    pub text_megabytes: usize,
}

/// The rows of a list of tables; of a table that cannot be counted there are none.
pub open spec fn rows_of(counts: Seq<Option<usize>>) -> nat
    decreases counts.len(),
{
    if counts.len() == 0 {
        0
    } else {
        rows_of(counts.drop_last()) + match counts.last() {
            Some(n) => n as nat,
            None => 0,
        }
    }
}

proof fn lemma_rows_grow(counts: Seq<Option<usize>>, i: int)
    requires
        0 <= i <= counts.len(),
    ensures
        rows_of(counts.take(i)) <= rows_of(counts),
    decreases counts.len() - i,
{
    if i < counts.len() {
        lemma_rows_grow(counts, i + 1);
        assert(counts.take(i + 1).drop_last() =~= counts.take(i));
    } else {
        assert(counts.take(i) =~= counts);
    }
}

fn sum_rows(counts: &Vec<Option<usize>>) -> (r: usize)
    requires
        rows_of(counts@) <= usize::MAX,
    ensures
        r == rows_of(counts@),
{
    let mut all: usize = 0;
    let mut i: usize = 0;
    while i < counts.len()
        invariant
            i <= counts@.len(),
            rows_of(counts@) <= usize::MAX,
            all == rows_of(counts@.take(i as int)),
        decreases counts@.len() - i,
    {
        proof {
            assert(counts@.take(i + 1).drop_last() =~= counts@.take(i as int));
            lemma_rows_grow(counts@, i + 1);
        }
        if let Some(n) = counts[i] {
            all = all + n;
        }
        i += 1;
    }
    proof {
        assert(counts@.take(i as int) =~= counts@);
    }
    all
}

/// An index of a table.
pub struct IndexInfo {
    pub name: String,
    pub columns: Vec<String>,
    /// The kind of index, as it is shown.
    pub index_type: String,
}

/// A list of strings as it is shown to developers: what the `Debug` of `Vec<String>`
/// writes.
pub uninterp spec fn debug_list(list: Seq<Seq<char>>) -> Seq<char>;

/// The `Debug` of `Vec<String>`, written by `format`: its text depends on the strings
/// alone.
#[verifier::external_body]
pub(crate) fn debug_text(list: &Vec<String>) -> (r: String)
    ensures
        r@ == debug_list(strs(list@)),
{
    format!("{:?}", list)
}

/// The line that shows an index.
pub open spec fn index_line(index: IndexInfo) -> Seq<char> {
    ("  - "@ + index.name@ + " on "@ + debug_list(strs(index.columns@)) + " (type: "@
        + index.index_type@ + ")"@).push('\n')
}

/// The lines that show indices.
pub open spec fn index_lines(indices: Seq<IndexInfo>) -> Seq<char>
    decreases indices.len(),
{
    if indices.len() == 0 {
        Seq::empty()
    } else {
        index_lines(indices.drop_last()) + index_line(indices.last())
    }
}

/// What is shown of the table of mail.
pub open spec fn lore_info(count: nat, indices: Seq<IndexInfo>) -> Seq<char> {
    "Lore Table Information:\n  Total emails: "@ + decimal(count) + "\n\nIndices ("@ + decimal(
        indices.len(),
    ) + " total):\n"@ + index_lines(indices)
}

impl DatabaseManager {
    /// How much the functions take up, from how many there are and how many vectors.
    pub fn function_storage(&self, count: usize, vectors: usize) -> (r: FunctionStorage)
        requires
            vectors <= count,
            count * 2048 <= usize::MAX,
        ensures
            r.with_vectors == vectors,
            r.without_vectors == count - vectors,
            r.vector_megabytes == vectors * 256 * 4 / 1024 / 1024,
            r.text_megabytes == count * 2048 / 1024 / 1024,
    {
        FunctionStorage {
            with_vectors: vectors,
            without_vectors: count - vectors,
            vector_megabytes: vectors * 256 * 4 / 1024 / 1024,
            text_megabytes: count * 2048 / 1024 / 1024,
        }
    }

    /// The rows of the tables of contents, and of all tables, from the counts of the main
    /// tables and of the tables of contents; `None` stands for a table that could not be
    /// counted.
    pub fn get_storage_stats(
        &self,
        tables: &Vec<Option<usize>>,
        contents: &Vec<Option<usize>>,
    ) -> (r: (usize, usize))
        requires
            rows_of(tables@) + rows_of(contents@) <= usize::MAX,
        ensures
            r.0 == rows_of(contents@),
            r.1 == rows_of(tables@) + rows_of(contents@),
    {
        let content_rows = sum_rows(contents);
        (content_rows, sum_rows(tables) + content_rows)
    }

    /// The rows of the tables of contents, which are shown together.
    pub fn get_compaction_stats(&self, contents: &Vec<Option<usize>>) -> (r: usize)
        requires
            rows_of(contents@) <= usize::MAX,
        ensures
            r == rows_of(contents@),
    {
        sum_rows(contents)
    }

    /// What is shown of the table of mail: how many mails it holds, and its indices.
    pub fn get_lore_table_info(&self, count: usize, indices: &Vec<IndexInfo>) -> (r: String)
        ensures
            r@ == lore_info(count as nat, indices@),
    {
        let mut out: String = "Lore Table Information:\n  Total emails: ".to_owned();
        out.append(decimal_text(count as u64).as_str());
        out.append("\n\nIndices (");
        let n: usize = indices.len();
        out.append(decimal_text(n as u64).as_str());
        out.append(" total):\n");
        let ghost head = out@;
        let mut i: usize = 0;
        proof {
            assert(head + index_lines(indices@.take(0)) =~= head);
        }
        while i < n
            invariant
                i <= n,
                n == indices@.len(),
                out@ == head + index_lines(indices@.take(i as int)),
            decreases n - i,
        {
            let ghost was = out@;
            out.append("  - ");
            out.append(indices[i].name.as_str());
            out.append(" on ");
            out.append(debug_text(&indices[i].columns).as_str());
            out.append(" (type: ");
            out.append(indices[i].index_type.as_str());
            out.append(")");
            out.push('\n');
            proof {
                assert(indices@.take(i + 1).drop_last() =~= indices@.take(i as int));
                assert(out@ =~= was + index_line(indices@[i as int]));
                assert(out@ =~= head + index_lines(indices@.take(i + 1)));
            }
            i += 1;
        }
        proof {
            assert(indices@.take(n as int) =~= indices@);
        }
        out
    }
}

/// The issues of a table, in numbers: more than 600 fragments; more than ten small fragments
/// that are more than half of all; fewer than 1000 rows in a fragment on average, in a table of
/// more than 10000. Each is told exactly where it is so, with the numbers of the table, and in
/// this order.
pub proof fn law_table_issues(table: usize, s: TableStats)
    ensures
        table_issues(table, s).contains(
            HealthIssue::TooManyFragments { table, fragments: s.num_fragments },
        ) <==> s.num_fragments > 600,
        table_issues(table, s).contains(
            HealthIssue::SmallFragments {
                table,
                small: s.num_small_fragments,
                fragments: s.num_fragments,
            },
        ) <==> s.num_fragments > 0 && 2 * s.num_small_fragments > s.num_fragments
            && s.num_small_fragments > 10,
        table_issues(table, s).contains(
            HealthIssue::SmallMean { table, mean_rows: s.mean_rows },
        ) <==> s.mean_rows < 1000 && s.num_rows > 10000,
        forall|issue: HealthIssue| #[trigger]
            table_issues(table, s).contains(issue) ==> issue == (HealthIssue::TooManyFragments {
                table,
                fragments: s.num_fragments,
            }) || issue == (HealthIssue::SmallFragments {
                table,
                small: s.num_small_fragments,
                fragments: s.num_fragments,
            }) || issue == (HealthIssue::SmallMean { table, mean_rows: s.mean_rows }),
        table_issues(table, s).no_duplicates(),
        forall|i: int|
            0 <= i < table_issues(table, s).len() && (#[trigger] table_issues(
                table,
                s,
            )[i]) is TooManyFragments ==> i == 0,
        forall|i: int|
            0 <= i < table_issues(table, s).len() && (#[trigger] table_issues(table, s)[i]) is SmallMean
                ==> i == table_issues(table, s).len() - 1,
        passes_threshold(s) <==> s.num_fragments > 600 || (s.num_fragments > 0 && 2
            * s.num_small_fragments > s.num_fragments && s.num_small_fragments > 10) || (s.mean_rows
            < 1000 && s.num_rows > 10000),
{
    let all = table_issues(table, s);
    let many = HealthIssue::TooManyFragments { table, fragments: s.num_fragments };
    let small = HealthIssue::SmallFragments {
        table,
        small: s.num_small_fragments,
        fragments: s.num_fragments,
    };
    let mean = HealthIssue::SmallMean { table, mean_rows: s.mean_rows };
    let a: int = if s.num_fragments > 600 {
        1
    } else {
        0
    };
    let b: int = if s.num_fragments > 0 && 2 * s.num_small_fragments > s.num_fragments
        && s.num_small_fragments > 10 {
        1
    } else {
        0
    };
    let c: int = if s.mean_rows < 1000 && s.num_rows > 10000 {
        1
    } else {
        0
    };
    assert(all.len() == a + b + c);
    if a == 1 {
        assert(all[0] == many);
    }
    if b == 1 {
        assert(all[a] == small);
    }
    if c == 1 {
        assert(all[a + b] == mean);
    }
}

/// The issues of one more table stand behind those of the tables before it, under its place in
/// the list; of a table without statistics there is none. Its fragments and its small
/// fragments are added to theirs.
pub proof fn law_one_more_table(tables: Seq<Option<TableStats>>, t: Option<TableStats>)
    requires
        tables.len() <= usize::MAX,
    ensures
        tables_issues(Seq::<Option<TableStats>>::empty()).len() == 0,
        fragments_of(Seq::<Option<TableStats>>::empty()) == 0,
        small_of(Seq::<Option<TableStats>>::empty()) == 0,
        t is None ==> tables_issues(tables.push(t)) == tables_issues(tables) && fragments_of(
            tables.push(t),
        ) == fragments_of(tables) && small_of(tables.push(t)) == small_of(tables),
        t matches Some(s) ==> tables_issues(tables.push(t)) == tables_issues(tables) + table_issues(
            tables.len() as usize,
            s,
        ) && fragments_of(tables.push(t)) == fragments_of(tables) + s.num_fragments && small_of(
            tables.push(t),
        ) == small_of(tables) + s.num_small_fragments,
{
    assert(tables.push(t).drop_last() =~= tables);
}

/// The issues of a database are those of its main tables and, behind them, one more where the
/// tables of contents have more than 3000 fragments together. The small fragments of these
/// count where they have fragments.
pub proof fn law_all_issues(tables: Seq<Option<TableStats>>, contents: Seq<Option<TableStats>>)
    ensures
        fragments_of(contents) > 3000 ==> all_issues(tables, contents) == tables_issues(tables).push(
            HealthIssue::ContentFragments { fragments: fragments_of(contents) as usize },
        ),
        fragments_of(contents) <= 3000 ==> all_issues(tables, contents) == tables_issues(tables),
        fragments_of(contents) > 0 ==> counted_small(tables, contents) == small_of(tables) + small_of(
            contents,
        ),
        fragments_of(contents) == 0 ==> counted_small(tables, contents) == small_of(tables),
{
    assert(tables_issues(tables) + Seq::<HealthIssue>::empty() =~= tables_issues(tables));
    let extra = HealthIssue::ContentFragments { fragments: fragments_of(contents) as usize };
    assert(tables_issues(tables) + seq![extra] =~= tables_issues(tables).push(extra));
}

/// The rows of one more table are added to those before it; one that cannot be counted adds
/// none.
pub proof fn law_rows_of(counts: Seq<Option<usize>>, count: Option<usize>)
    ensures
        rows_of(Seq::<Option<usize>>::empty()) == 0,
        count matches Some(n) ==> rows_of(counts.push(count)) == rows_of(counts) + n,
        count is None ==> rows_of(counts.push(count)) == rows_of(counts),
{
    assert(counts.push(count).drop_last() =~= counts);
}

/// What is shown of the table of mail: the number of mails, the number of indices, and for
/// each index a line with its name, its columns and its kind, in their order.
pub proof fn law_lore_info(count: nat, indices: Seq<IndexInfo>, index: IndexInfo)
    ensures
        lore_info(count, indices) == "Lore Table Information:\n  Total emails: "@ + decimal(count)
            + "\n\nIndices ("@ + decimal(indices.len()) + " total):\n"@ + index_lines(indices),
        index_lines(Seq::<IndexInfo>::empty()).len() == 0,
        index_lines(indices.push(index)) == index_lines(indices) + ("  - "@ + index.name@ + " on "@
            + debug_list(strs(index.columns@)) + " (type: "@ + index.index_type@ + ")"@).push('\n'),
{
    assert(indices.push(index).drop_last() =~= indices);
}

} // verus!
