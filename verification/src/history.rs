//! Commits as the table of commits holds them.
use crate::calls::{escape_sql, sql_escaped};
use crate::commits::GitCommitInfo;
use crate::database::DatabaseManager;
use crate::json::{
    json_strings, json_tags, parse_strings, parse_tags, strings_json, strings_outcome, tags_json,
    tags_outcome, write_strings,
    write_tags,
};
use crate::patterns::{
    compile_valid, law_valid, matches_text, pattern_matches, pattern_outcome, pattern_texts,
    texts_matched, valid,
};
use crate::text::{join, joined, lemma_strs_empty, lemma_strs_push, strs};
use crate::pipeline::shas;
use crate::upserts::{keys, law_upserted, one_row_each, upserted, Keyed};
use vstd::prelude::*;

verus! {

broadcast use {lemma_strs_push, lemma_strs_empty};

/// A row of the table of commits; lists and tags are JSON.
pub struct CommitRow {
    pub git_sha: String,
    pub parent_sha: String,
    pub author: String,
    pub subject: String,
    pub message: String,
    pub tags: String,
    pub diff: String,
    pub symbols: String,
    pub files: String,
}

/// The columns that hold JSON.
#[derive(Clone, Copy, PartialEq, Eq, Structural)]
pub enum CommitColumn {
    ParentSha,
    Tags,
    Symbols,
    Files,
}

/// A column that does not hold the JSON it should, with the reason.
pub struct ColumnError {
    pub column: CommitColumn,
    pub reason: String,
}

/// Whether two commits are the same.
pub open spec fn same_commit(a: GitCommitInfo, b: GitCommitInfo) -> bool {
    &&& a.git_sha@ == b.git_sha@
    &&& strs(a.parent_sha@) == strs(b.parent_sha@)
    &&& a.author@ == b.author@
    &&& a.subject@ == b.subject@
    &&& a.message@ == b.message@
    &&& a.tags@ == b.tags@
    &&& a.diff@ == b.diff@
    &&& strs(a.symbols@) == strs(b.symbols@)
    &&& strs(a.files@) == strs(b.files@)
}

/// Whether a text is a list as JSON, written and readable.
pub open spec fn is_json_of(text: Seq<char>, list: Seq<Seq<char>>) -> bool {
    text == strings_json(list) && json_strings(text) == Some(list)
}

/// Whether a row holds a commit.
pub open spec fn stores(row: CommitRow, c: GitCommitInfo) -> bool {
    &&& row.git_sha@ == c.git_sha@
    &&& is_json_of(row.parent_sha@, strs(c.parent_sha@))
    &&& row.author@ == c.author@
    &&& row.subject@ == c.subject@
    &&& row.message@ == c.message@
    &&& row.tags@ == tags_json(c.tags@)
    &&& json_tags(row.tags@) == Some(c.tags@)
    &&& row.diff@ == c.diff@
    &&& is_json_of(row.symbols@, strs(c.symbols@))
    &&& is_json_of(row.files@, strs(c.files@))
}

/// The first column of a row that does not hold the JSON it should.
pub open spec fn bad_column(row: CommitRow) -> Option<CommitColumn> {
    if json_strings(row.parent_sha@) is None {
        Some(CommitColumn::ParentSha)
    } else if json_tags(row.tags@) is None {
        Some(CommitColumn::Tags)
    } else if json_strings(row.symbols@) is None {
        Some(CommitColumn::Symbols)
    } else if json_strings(row.files@) is None {
        Some(CommitColumn::Files)
    } else {
        None
    }
}

/// Why the first column of a row that does not hold its JSON does not.
pub open spec fn bad_reason(row: CommitRow) -> Seq<char> {
    match bad_column(row) {
        Some(CommitColumn::ParentSha) => strings_outcome(row.parent_sha@)->Err_0,
        Some(CommitColumn::Tags) => tags_outcome(row.tags@)->Err_0,
        Some(CommitColumn::Symbols) => strings_outcome(row.symbols@)->Err_0,
        Some(CommitColumn::Files) => strings_outcome(row.files@)->Err_0,
        None => Seq::empty(),
    }
}

/// Whether an error tells of the first column of a row that does not hold its JSON.
pub open spec fn tells_of(e: ColumnError, row: CommitRow) -> bool {
    bad_column(row) == Some(e.column) && e.reason@ == bad_reason(row)
}

/// Whether a commit is what a row reads as.
pub open spec fn reads_as(row: CommitRow, c: GitCommitInfo) -> bool {
    &&& c.git_sha@ == row.git_sha@
    &&& json_strings(row.parent_sha@) == Some(strs(c.parent_sha@))
    &&& c.author@ == row.author@
    &&& c.subject@ == row.subject@
    &&& c.message@ == row.message@
    &&& json_tags(row.tags@) == Some(c.tags@)
    &&& c.tags.wf()
    &&& c.diff@ == row.diff@
    &&& json_strings(row.symbols@) == Some(strs(c.symbols@))
    &&& json_strings(row.files@) == Some(strs(c.files@))
}

/// A commit that was stored can be read, and what is read is what was stored.
pub proof fn law_stored_commit_reads_back(row: CommitRow, stored: GitCommitInfo, read: GitCommitInfo)
    requires
        stores(row, stored),
    ensures
        bad_column(row) is None,
        reads_as(row, read) ==> same_commit(stored, read),
{
}

/// The row that holds a commit.
pub fn row_of_commit(c: GitCommitInfo) -> (r: CommitRow)
    requires
        c.tags.wf(),
    ensures
        stores(r, c),
{
    let parent_sha = write_strings(&c.parent_sha).unwrap();
    let tags = write_tags(&c.tags).unwrap();
    let symbols = write_strings(&c.symbols).unwrap();
    let files = write_strings(&c.files).unwrap();
    CommitRow {
        git_sha: c.git_sha,
        parent_sha,
        author: c.author,
        subject: c.subject,
        message: c.message,
        tags,
        diff: c.diff,
        symbols,
        files,
    }
}

/// The commit that a row reads as, or the first column that does not hold its JSON.
pub fn commit_of_row(row: CommitRow) -> (r: Result<GitCommitInfo, ColumnError>)
    ensures
        match r {
            Ok(c) => bad_column(row) is None && reads_as(row, c),
            Err(e) => tells_of(e, row),
        },
{
    let parent_sha = match parse_strings(row.parent_sha.as_str()) {
        Ok(list) => list,
        Err(e) => {
            return Err(ColumnError { column: CommitColumn::ParentSha, reason: e.to_string() });
        },
    };
    let tags = match parse_tags(row.tags.as_str()) {
        Ok(tags) => tags,
        Err(e) => {
            return Err(ColumnError { column: CommitColumn::Tags, reason: e.to_string() });
        },
    };
    let symbols = match parse_strings(row.symbols.as_str()) {
        Ok(list) => list,
        Err(e) => {
            return Err(ColumnError { column: CommitColumn::Symbols, reason: e.to_string() });
        },
    };
    let files = match parse_strings(row.files.as_str()) {
        Ok(list) => list,
        Err(e) => {
            return Err(ColumnError { column: CommitColumn::Files, reason: e.to_string() });
        },
    };
    Ok(
        GitCommitInfo {
            git_sha: row.git_sha,
            parent_sha,
            author: row.author,
            subject: row.subject,
            message: row.message,
            tags,
            diff: row.diff,
            symbols,
            files,
        },
    )
}

/// The first row that cannot be read, or the number of rows.
pub open spec fn first_unreadable(rows: Seq<CommitRow>) -> int
    decreases rows.len(),
{
    if rows.len() == 0 || bad_column(rows[0]) is Some {
        0
    } else {
        1 + first_unreadable(rows.drop_first())
    }
}

/// Whether commits are what rows read as, one for one.
pub open spec fn all_read_as(rows: Seq<CommitRow>, commits: Seq<GitCommitInfo>) -> bool {
    &&& commits.len() == rows.len()
    &&& forall|i: int| 0 <= i < rows.len() ==> reads_as(#[trigger] rows[i], commits[i])
}

/// Whether a pattern matches the message or the diff of a commit.
pub open spec fn in_message_or_diff(pattern: Seq<char>, c: GitCommitInfo) -> bool {
    pattern_matches(pattern, c.message@) || pattern_matches(pattern, c.diff@)
}

/// Whether a pattern matches one of the symbols of a commit.
pub open spec fn in_some_symbol(pattern: Seq<char>, c: GitCommitInfo) -> bool {
    exists|k: int| 0 <= k < c.symbols@.len() && pattern_matches(pattern, #[trigger] strs(c.symbols@)[k])
}

/// Whether a commit matches patterns: all of the one kind in its message or diff, and
/// all of the other kind in its symbols. Patterns that do not compile ask for nothing.
pub open spec fn matches_all(
    c: GitCommitInfo,
    patterns: Seq<Seq<char>>,
    symbol_patterns: Seq<Seq<char>>,
) -> bool {
    &&& forall|k: int|
        0 <= k < valid(patterns).len() ==> in_message_or_diff(#[trigger] valid(patterns)[k], c)
    &&& forall|k: int|
        0 <= k < valid(symbol_patterns).len() ==> in_some_symbol(
            #[trigger] valid(symbol_patterns)[k],
            c,
        )
}

fn text_matches_all(
    c: &GitCommitInfo,
    res: &Vec<regex::Regex>,
    Ghost(patterns): Ghost<Seq<Seq<char>>>,
) -> (r: bool)
    requires
        res@.len() == patterns.len(),
        forall|k: int|
            0 <= k < res@.len() ==> pattern_texts(#[trigger] patterns[k]) == Some(
                texts_matched(res@[k]),
            ),
    ensures
        r == forall|k: int|
            0 <= k < patterns.len() ==> in_message_or_diff(#[trigger] patterns[k], *c),
{
    let mut k: usize = 0;
    while k < res.len()
        invariant
            k <= res@.len(),
            res@.len() == patterns.len(),
            forall|k: int|
                0 <= k < res@.len() ==> pattern_texts(#[trigger] patterns[k]) == Some(
                    texts_matched(res@[k]),
                ),
            forall|j: int| 0 <= j < k ==> in_message_or_diff(#[trigger] patterns[j], *c),
        decreases res@.len() - k,
    {
        assert(pattern_texts(patterns[k as int]) == Some(texts_matched(res@[k as int])));
        if !(matches_text(&res[k], c.message.as_str()) || matches_text(&res[k], c.diff.as_str())) {
            assert(!in_message_or_diff(patterns[k as int], *c));
            return false;
        }
        k += 1;
    }
    true
}

fn matches_some_symbol(c: &GitCommitInfo, re: &regex::Regex, Ghost(pattern): Ghost<Seq<char>>) -> (r:
    bool)
    requires
        pattern_texts(pattern) == Some(texts_matched(*re)),
    ensures
        r == in_some_symbol(pattern, *c),
{
    let mut k: usize = 0;
    while k < c.symbols.len()
        invariant
            k <= c.symbols@.len(),
            pattern_texts(pattern) == Some(texts_matched(*re)),
            forall|j: int|
                0 <= j < k ==> !pattern_matches(pattern, #[trigger] strs(c.symbols@)[j]),
        decreases c.symbols@.len() - k,
    {
        assert(strs(c.symbols@)[k as int] == c.symbols@[k as int]@);
        if matches_text(re, c.symbols[k].as_str()) {
            assert(pattern_matches(pattern, strs(c.symbols@)[k as int]));
            return true;
        }
        k += 1;
    }
    false
}

fn symbols_match_all(
    c: &GitCommitInfo,
    res: &Vec<regex::Regex>,
    Ghost(patterns): Ghost<Seq<Seq<char>>>,
) -> (r: bool)
    requires
        res@.len() == patterns.len(),
        forall|k: int|
            0 <= k < res@.len() ==> pattern_texts(#[trigger] patterns[k]) == Some(
                texts_matched(res@[k]),
            ),
    ensures
        r == forall|k: int| 0 <= k < patterns.len() ==> in_some_symbol(#[trigger] patterns[k], *c),
{
    let mut k: usize = 0;
    while k < res.len()
        invariant
            k <= res@.len(),
            res@.len() == patterns.len(),
            forall|k: int|
                0 <= k < res@.len() ==> pattern_texts(#[trigger] patterns[k]) == Some(
                    texts_matched(res@[k]),
                ),
            forall|j: int| 0 <= j < k ==> in_some_symbol(#[trigger] patterns[j], *c),
        decreases res@.len() - k,
    {
        assert(pattern_texts(patterns[k as int]) == Some(texts_matched(res@[k as int])));
        if !matches_some_symbol(c, &res[k], Ghost(patterns[k as int])) {
            assert(!in_some_symbol(patterns[k as int], *c));
            return false;
        }
        k += 1;
    }
    true
}

/// The condition by which a commit is found.
pub open spec fn sha_filter(sha: Seq<char>) -> Seq<char> {
    "git_sha = '"@ + sql_escaped(sha) + "'"@
}

/// Texts as literals of SQL.
pub open spec fn sql_literals(texts: Seq<Seq<char>>) -> Seq<Seq<char>> {
    texts.map_values(|t: Seq<char>| "'"@ + sql_escaped(t) + "'"@)
}

/// The condition by which some commits are found.
pub open spec fn shas_filter(shas: Seq<Seq<char>>) -> Seq<char> {
    "git_sha IN ("@ + joined(sql_literals(shas), ", "@) + ")"@
}

impl DatabaseManager {
    /// The rows that hold commits, one for each.
    pub fn insert_git_commits(&self, commits: Vec<GitCommitInfo>) -> (r: Vec<CommitRow>)
        requires
            forall|i: int| 0 <= i < commits@.len() ==> (#[trigger] commits@[i]).tags.wf(),
        ensures
            r@.len() == commits@.len(),
            forall|i: int| 0 <= i < r@.len() ==> stores(#[trigger] r@[i], commits@[i]),
    {
        let ghost all = commits@;
        let mut rows: Vec<CommitRow> = Vec::new();
        for c in it: commits.into_iter()
            invariant
                it.seq() == all,
                rows@.len() == it.index(),
                forall|i: int| 0 <= i < all.len() ==> (#[trigger] all[i]).tags.wf(),
                forall|i: int| 0 <= i < rows@.len() ==> stores(#[trigger] rows@[i], all[i]),
        {
            rows.push(row_of_commit(c));
        }
        rows
    }

    /// The condition by which a commit is found.
    pub fn git_commit_filter(&self, git_sha: &str) -> (r: String)
        ensures
            r@ == sha_filter(git_sha@),
    {
        let mut out: String = "git_sha = '".to_owned();
        out.append(escape_sql(git_sha).as_str());
        out.append("'");
        out
    }

    /// The condition by which some commits are found.
    pub fn commits_chunk_filter(&self, sha_chunk: &Vec<String>) -> (r: String)
        ensures
            r@ == shas_filter(strs(sha_chunk@)),
    {
        let ghost all = sql_literals(strs(sha_chunk@));
        let mut parts: Vec<String> = Vec::new();
        let mut i: usize = 0;
        while i < sha_chunk.len()
            invariant
                i <= sha_chunk@.len(),
                all == sql_literals(strs(sha_chunk@)),
                strs(parts@) == all.take(i as int),
            decreases sha_chunk@.len() - i,
        {
            let mut part: String = "'".to_owned();
            part.append(escape_sql(sha_chunk[i].as_str()).as_str());
            part.append("'");
            proof {
                assert(all[i as int] == part@);
                assert(all.take(i + 1) =~= all.take(i as int).push(part@));
            }
            parts.push(part);
            i += 1;
        }
        proof {
            assert(all.take(i as int) =~= all);
        }
        let mut out: String = "git_sha IN (".to_owned();
        out.append(join(&parts, ", ").as_str());
        out.append(")");
        out
    }

    /// The commit that the first row found reads as.
    pub fn get_git_commit_by_sha(&self, rows: Vec<CommitRow>) -> (r: Result<
        Option<GitCommitInfo>,
        ColumnError,
    >)
        ensures
            match r {
                Ok(None) => rows@.len() == 0,
                Ok(Some(c)) => rows@.len() > 0 && bad_column(rows@[0]) is None && reads_as(
                    rows@[0],
                    c,
                ),
                Err(e) => rows@.len() > 0 && tells_of(e, rows@[0]),
            },
    {
        let mut all = rows;
        if all.len() == 0 {
            return Ok(None);
        }
        match commit_of_row(all.remove(0)) {
            Ok(c) => Ok(Some(c)),
            Err(e) => Err(e),
        }
    }

    /// The commits that rows read as; the first row that cannot be read is the error.
    pub fn get_all_git_commits(&self, rows: Vec<CommitRow>) -> (r: Result<
        Vec<GitCommitInfo>,
        ColumnError,
    >)
        ensures
            match r {
                Ok(commits) => first_unreadable(rows@) == rows@.len() && all_read_as(
                    rows@,
                    commits@,
                ),
                Err(e) => {
                    &&& 0 <= first_unreadable(rows@) < rows@.len()
                    &&& tells_of(e, rows@[first_unreadable(rows@)])
                },
            },
    {
        let ghost all = rows@;
        let mut commits: Vec<GitCommitInfo> = Vec::new();
        proof {
            assert(all.skip(0) =~= all);
        }
        for row in it: rows.into_iter()
            invariant
                it.seq() == all,
                commits@.len() == it.index(),
                forall|i: int|
                    0 <= i < commits@.len() ==> reads_as(#[trigger] all[i], commits@[i]),
                first_unreadable(all) == it.index() + first_unreadable(all.skip(it.index())),
        {
            proof {
                let rest = all.skip(it.index());
                assert(rest[0] == row);
                assert(rest.drop_first() =~= all.skip(it.index() + 1));
            }
            match commit_of_row(row) {
                Ok(c) => commits.push(c),
                Err(e) => return Err(e),
            }
        }
        proof {
            assert(all.skip(all.len() as int).len() == 0);
        }
        Ok(commits)
    }

    /// The commits among rows that match all patterns: each pattern of the one kind in the
    /// message or the diff, each of the other kind in some symbol. Patterns that do not
    /// compile are passed over.
    pub fn query_commits_chunk_filtered(
        &self,
        rows: Vec<CommitRow>,
        regex_patterns: &Vec<String>,
        symbol_patterns: &Vec<String>,
    ) -> (r: Result<Vec<GitCommitInfo>, ColumnError>)
        ensures
            r matches Ok(found) ==> forall|j: int|
                0 <= j < found@.len() ==> exists|i: int|
                    #![trigger rows@[i]]
                    0 <= i < rows@.len() && reads_as(rows@[i], #[trigger] found@[j]) && (forall|k: int|
                        0 <= k < regex_patterns@.len() && (pattern_outcome(
                            (#[trigger] regex_patterns@[k])@,
                        ) is Ok) ==> pattern_outcome(regex_patterns@[k]@)->Ok_0.contains(
                            rows@[i].message@,
                        ) || pattern_outcome(regex_patterns@[k]@)->Ok_0.contains(rows@[i].diff@)),
            match r {
                Ok(found) => first_unreadable(rows@) == rows@.len() && exists|
                    commits: Seq<GitCommitInfo>,
                |
                    #[trigger] all_read_as(rows@, commits) && found@ == commits.filter(
                        |c: GitCommitInfo|
                            matches_all(c, strs(regex_patterns@), strs(symbol_patterns@)),
                    ),
                Err(e) => {
                    &&& 0 <= first_unreadable(rows@) < rows@.len()
                    &&& tells_of(e, rows@[first_unreadable(rows@)])
                },
            },
    {
        let commits = match self.get_all_git_commits(rows) {
            Ok(commits) => commits,
            Err(e) => return Err(e),
        };
        let ghost all = commits@;
        let ghost keep = |c: GitCommitInfo|
            matches_all(c, strs(regex_patterns@), strs(symbol_patterns@));
        let regexes = compile_valid(regex_patterns);
        let symbol_regexes = compile_valid(symbol_patterns);
        let mut kept: Vec<GitCommitInfo> = Vec::new();
        let ghost mut i: int = 0;
        proof {
            reveal(Seq::filter);
            assert(all.take(0).filter(keep) =~= Seq::empty());
        }
        for c in it: commits.into_iter()
            invariant
                it.seq() == all,
                i == it.index(),
                keep == (|c: GitCommitInfo|
                    matches_all(c, strs(regex_patterns@), strs(symbol_patterns@))),
                regexes@.len() == valid(strs(regex_patterns@)).len(),
                forall|k: int|
                    0 <= k < regexes@.len() ==> pattern_texts(
                        #[trigger] valid(strs(regex_patterns@))[k],
                    ) == Some(texts_matched(regexes@[k])),
                symbol_regexes@.len() == valid(strs(symbol_patterns@)).len(),
                forall|k: int|
                    0 <= k < symbol_regexes@.len() ==> pattern_texts(
                        #[trigger] valid(strs(symbol_patterns@))[k],
                    ) == Some(texts_matched(symbol_regexes@[k])),
                kept@ == all.take(i).filter(keep),
        {
            proof {
                reveal(Seq::filter);
                assert(all.take(i + 1).drop_last() =~= all.take(i));
                assert(all.take(i + 1).last() == c);
                i = i + 1;
            }
            if text_matches_all(&c, &regexes, Ghost(valid(strs(regex_patterns@))))
                && symbols_match_all(&c, &symbol_regexes, Ghost(valid(strs(symbol_patterns@)))) {
                kept.push(c);
            }
        }
        proof {
            assert(all.take(i) =~= all);
            assert(all_read_as(rows@, all));
            let ps = strs(regex_patterns@);
            let sps = strs(symbol_patterns@);
            assert forall|j: int| 0 <= j < kept@.len() implies exists|i: int|
                #![trigger rows@[i]]
                0 <= i < rows@.len() && reads_as(rows@[i], #[trigger] kept@[j]) && (forall|k: int|
                    0 <= k < regex_patterns@.len() && (pattern_outcome(
                        (#[trigger] regex_patterns@[k])@,
                    ) is Ok) ==> pattern_outcome(regex_patterns@[k]@)->Ok_0.contains(
                        rows@[i].message@,
                    ) || pattern_outcome(regex_patterns@[k]@)->Ok_0.contains(rows@[i].diff@)) by {
                assert(kept@.contains(kept@[j]));
                all.lemma_filter_contains_rev(keep, kept@[j]);
                let at = choose|at: int| 0 <= at < all.len() && all[at] == kept@[j];
                law_commits_found(rows@, all, ps, sps, at);
                assert(reads_as(rows@[at], kept@[j]));
                assert forall|k: int|
                    0 <= k < regex_patterns@.len() && (pattern_outcome(
                        (#[trigger] regex_patterns@[k])@,
                    ) is Ok) implies pattern_outcome(regex_patterns@[k]@)->Ok_0.contains(
                    rows@[at].message@,
                ) || pattern_outcome(regex_patterns@[k]@)->Ok_0.contains(rows@[at].diff@) by {
                    assert(ps[k] == regex_patterns@[k]@);
                }
            }
        }
        Ok(kept)
    }
}

/// Without patterns every commit matches.
pub proof fn law_no_patterns_match_all(c: GitCommitInfo)
    ensures
        matches_all(c, Seq::empty(), Seq::empty()),
{
    reveal(Seq::filter);
}

/// What a row holds besides its key, as texts.
pub type CommitValues = (
    Seq<char>,
    Seq<char>,
    Seq<char>,
    Seq<char>,
    Seq<char>,
    Seq<char>,
    Seq<char>,
    Seq<char>,
);

/// A row by its key.
pub open spec fn keyed_row(row: CommitRow) -> Keyed<CommitValues> {
    (
        row.git_sha@,
        (
            row.parent_sha@,
            row.author@,
            row.subject@,
            row.message@,
            row.tags@,
            row.diff@,
            row.symbols@,
            row.files@,
        ),
    )
}

/// What the table holds of a commit, by its key.
pub open spec fn keyed_commit(c: GitCommitInfo) -> Keyed<CommitValues> {
    (
        c.git_sha@,
        (
            strings_json(strs(c.parent_sha@)),
            c.author@,
            c.subject@,
            c.message@,
            tags_json(c.tags@),
            c.diff@,
            strings_json(strs(c.symbols@)),
            strings_json(strs(c.files@)),
        ),
    )
}

/// Rows by their keys.
pub open spec fn keyed_rows(rows: Seq<CommitRow>) -> Seq<Keyed<CommitValues>> {
    rows.map_values(|row: CommitRow| keyed_row(row))
}

/// Commits that are the same give rows that are the same.
pub proof fn law_equal_commits_equal_rows(
    a: GitCommitInfo,
    b: GitCommitInfo,
    row: CommitRow,
    other: CommitRow,
)
    requires
        same_commit(a, b),
        stores(row, a),
        stores(other, b),
    ensures
        keyed_row(row) == keyed_row(other),
        keyed_row(row) == keyed_commit(a),
{
}

/// Writing the rows of commits with distinct identifiers to a table with at most one row
/// for each leaves at most one row for each. Of every commit the table then holds exactly
/// its values, an older row is replaced, and the rows of other commits are as they were.
/// Storing the same commits again changes nothing; storing none changes nothing.
pub proof fn law_stored_commits_replace(
    table: Set<Keyed<CommitValues>>,
    commits: Seq<GitCommitInfo>,
    rows: Seq<CommitRow>,
    again: Seq<CommitRow>,
)
    requires
        one_row_each(table),
        shas(commits).no_duplicates(),
        rows.len() == commits.len(),
        again.len() == commits.len(),
        forall|i: int| 0 <= i < rows.len() ==> stores(#[trigger] rows[i], commits[i]),
        forall|i: int| 0 <= i < again.len() ==> stores(#[trigger] again[i], commits[i]),
    ensures
        ({
            let after = upserted(table, keyed_rows(rows));
            &&& one_row_each(after)
            &&& forall|i: int|
                0 <= i < commits.len() ==> after.contains(keyed_commit(#[trigger] commits[i]))
            &&& forall|x: Keyed<CommitValues>, i: int|
                0 <= i < commits.len() && #[trigger] after.contains(x) && x.0 == (
                #[trigger] commits[i]).git_sha@ ==> x == keyed_commit(commits[i])
            &&& forall|x: Keyed<CommitValues>|
                !shas(commits).contains(x.0) ==> (#[trigger] after.contains(x) <==> table.contains(x))
            &&& upserted(after, keyed_rows(again)) == after
            &&& commits.len() == 0 ==> after == table
        }),
{
    let entries = keyed_rows(rows);
    assert forall|i: int| 0 <= i < rows.len() implies #[trigger] entries[i] == keyed_commit(
        commits[i],
    ) by {
        assert(stores(rows[i], commits[i]));
    }
    assert forall|i: int| 0 <= i < again.len() implies #[trigger] keyed_rows(again)[i]
        == keyed_commit(commits[i]) by {
        assert(stores(again[i], commits[i]));
    }
    assert(keyed_rows(again) =~= entries);
    assert(keys(entries) =~= shas(commits)) by {
        assert forall|i: int| 0 <= i < rows.len() implies keys(entries)[i] == shas(commits)[i] by {
            assert(entries[i] == keyed_commit(commits[i]));
        }
    }
    law_upserted(table, entries);
    let after = upserted(table, entries);
    assert forall|i: int| 0 <= i < commits.len() implies after.contains(
        keyed_commit(#[trigger] commits[i]),
    ) by {
        assert(after.contains(entries[i]));
    }
    assert forall|x: Keyed<CommitValues>, i: int|
        0 <= i < commits.len() && #[trigger] after.contains(x) && x.0 == (
        #[trigger] commits[i]).git_sha@ implies x == keyed_commit(commits[i]) by {
        assert(entries[i] == keyed_commit(commits[i]));
    }
}

/// A commit that a row reads as is among those found exactly where each pattern that compiles
/// matches the whole message or the whole diff of the row, and each symbol pattern that
/// compiles matches one of the symbols that the row lists. No other commit is found.
pub proof fn law_commits_found(
    rows: Seq<CommitRow>,
    commits: Seq<GitCommitInfo>,
    patterns: Seq<Seq<char>>,
    symbol_patterns: Seq<Seq<char>>,
    i: int,
)
    requires
        all_read_as(rows, commits),
        0 <= i < rows.len(),
    ensures
        commits.filter(|c: GitCommitInfo| matches_all(c, patterns, symbol_patterns)).contains(
            commits[i],
        ) <==> (forall|k: int|
            0 <= k < patterns.len() && (pattern_outcome(#[trigger] patterns[k]) is Ok)
                ==> pattern_outcome(patterns[k])->Ok_0.contains(rows[i].message@) || pattern_outcome(
                patterns[k],
            )->Ok_0.contains(rows[i].diff@)) && (forall|k: int|
            0 <= k < symbol_patterns.len() && (pattern_outcome(#[trigger] symbol_patterns[k]) is Ok)
                ==> exists|m: int|
                0 <= m < strings_outcome(rows[i].symbols@)->Ok_0.len() && pattern_outcome(
                    symbol_patterns[k],
                )->Ok_0.contains(#[trigger] strings_outcome(rows[i].symbols@)->Ok_0[m])),
        forall|x: GitCommitInfo|
            commits.filter(
                |c: GitCommitInfo| matches_all(c, patterns, symbol_patterns),
            ).contains(x) ==> #[trigger] commits.contains(x),
{
    let keep = |c: GitCommitInfo| matches_all(c, patterns, symbol_patterns);
    let found = commits.filter(keep);
    let c = commits[i];
    let row = rows[i];
    assert(reads_as(rows[i], commits[i]));
    assert(strings_outcome(row.symbols@)->Ok_0 == strs(c.symbols@));
    if found.contains(c) {
        let k = choose|k: int| 0 <= k < found.len() && found[k] == c;
        commits.lemma_filter_pred(keep, k);
    }
    if keep(c) {
        commits.lemma_filter_contains(keep, i);
    }
    assert(found.contains(c) <==> matches_all(c, patterns, symbol_patterns));
    if matches_all(c, patterns, symbol_patterns) {
        assert forall|k: int|
            0 <= k < patterns.len() && (pattern_outcome(
                #[trigger] patterns[k],
            ) is Ok) implies pattern_outcome(patterns[k])->Ok_0.contains(row.message@)
            || pattern_outcome(patterns[k])->Ok_0.contains(row.diff@) by {
            law_valid(patterns, patterns[k]);
            let v = choose|v: int| 0 <= v < valid(patterns).len() && valid(patterns)[v] == patterns[k];
            assert(in_message_or_diff(valid(patterns)[v], c));
        }
        assert forall|k: int|
            0 <= k < symbol_patterns.len() && (pattern_outcome(
                #[trigger] symbol_patterns[k],
            ) is Ok) implies exists|m: int|
            0 <= m < strings_outcome(row.symbols@)->Ok_0.len() && pattern_outcome(
                symbol_patterns[k],
            )->Ok_0.contains(#[trigger] strings_outcome(row.symbols@)->Ok_0[m]) by {
            let p = symbol_patterns[k];
            law_valid(symbol_patterns, p);
            let v = choose|v: int|
                0 <= v < valid(symbol_patterns).len() && valid(symbol_patterns)[v] == p;
            assert(in_some_symbol(valid(symbol_patterns)[v], c));
            let m = choose|m: int|
                0 <= m < c.symbols@.len() && pattern_matches(p, #[trigger] strs(c.symbols@)[m]);
            assert(strings_outcome(row.symbols@)->Ok_0[m] == strs(c.symbols@)[m]);
        }
    }
    if (forall|k: int|
        0 <= k < patterns.len() && (pattern_outcome(#[trigger] patterns[k]) is Ok)
            ==> pattern_outcome(patterns[k])->Ok_0.contains(rows[i].message@) || pattern_outcome(
            patterns[k],
        )->Ok_0.contains(rows[i].diff@)) && (forall|k: int|
        0 <= k < symbol_patterns.len() && (pattern_outcome(#[trigger] symbol_patterns[k]) is Ok)
            ==> exists|m: int|
            0 <= m < strings_outcome(rows[i].symbols@)->Ok_0.len() && pattern_outcome(
                symbol_patterns[k],
            )->Ok_0.contains(#[trigger] strings_outcome(rows[i].symbols@)->Ok_0[m])) {
        assert forall|k: int| 0 <= k < valid(patterns).len() implies in_message_or_diff(
            #[trigger] valid(patterns)[k],
            c,
        ) by {
            let p = valid(patterns)[k];
            law_valid(patterns, p);
            let v = choose|v: int| 0 <= v < patterns.len() && patterns[v] == p;
            assert(pattern_outcome(patterns[v]) is Ok);
        }
        assert forall|k: int| 0 <= k < valid(symbol_patterns).len() implies in_some_symbol(
            #[trigger] valid(symbol_patterns)[k],
            c,
        ) by {
            let p = valid(symbol_patterns)[k];
            law_valid(symbol_patterns, p);
            let v = choose|v: int| 0 <= v < symbol_patterns.len() && symbol_patterns[v] == p;
            assert(pattern_outcome(symbol_patterns[v]) is Ok);
            let m = choose|m: int|
                0 <= m < strings_outcome(row.symbols@)->Ok_0.len() && pattern_outcome(
                    symbol_patterns[v],
                )->Ok_0.contains(#[trigger] strings_outcome(row.symbols@)->Ok_0[m]);
            assert(pattern_matches(p, strs(c.symbols@)[m]));
        }
    }
    assert forall|x: GitCommitInfo| found.contains(x) implies #[trigger] commits.contains(x) by {
        commits.lemma_filter_contains_rev(keep, x);
    }
}

/// What a row reads as, column by column, and what it holds of a commit.
pub proof fn law_commit_columns(row: CommitRow, c: GitCommitInfo)
    ensures
        reads_as(row, c) ==> {
            &&& c.git_sha@ == row.git_sha@
            &&& c.author@ == row.author@
            &&& c.subject@ == row.subject@
            &&& c.message@ == row.message@
            &&& c.diff@ == row.diff@
            &&& strings_outcome(row.parent_sha@) == Ok::<_, Seq<char>>(strs(c.parent_sha@))
            &&& strings_outcome(row.symbols@) == Ok::<_, Seq<char>>(strs(c.symbols@))
            &&& strings_outcome(row.files@) == Ok::<_, Seq<char>>(strs(c.files@))
            &&& tags_outcome(row.tags@) == Ok::<_, Seq<char>>(c.tags@)
        },
        stores(row, c) ==> {
            &&& row.git_sha@ == c.git_sha@
            &&& row.author@ == c.author@
            &&& row.subject@ == c.subject@
            &&& row.message@ == c.message@
            &&& row.diff@ == c.diff@
            &&& row.parent_sha@ == strings_json(strs(c.parent_sha@))
            &&& row.symbols@ == strings_json(strs(c.symbols@))
            &&& row.files@ == strings_json(strs(c.files@))
            &&& row.tags@ == tags_json(c.tags@)
        },
{
}

/// A row is read exactly where each of its four columns of JSON holds what it should. An error
/// names the first of them that does not, in the order of the parents, the tags, the symbols
/// and the files, and its reason is that column's own.
pub proof fn law_bad_columns(row: CommitRow, e: ColumnError)
    ensures
        bad_column(row) is None <==> (strings_outcome(row.parent_sha@) is Ok) && (tags_outcome(
            row.tags@,
        ) is Ok) && (strings_outcome(row.symbols@) is Ok) && (strings_outcome(row.files@) is Ok),
        tells_of(e, row) && e.column == CommitColumn::ParentSha ==> strings_outcome(row.parent_sha@)
            == Err::<Seq<Seq<char>>, _>(e.reason@),
        tells_of(e, row) && e.column == CommitColumn::Tags ==> (strings_outcome(
            row.parent_sha@,
        ) is Ok) && tags_outcome(row.tags@) == Err::<Map<Seq<char>, Seq<Seq<char>>>, _>(e.reason@),
        tells_of(e, row) && e.column == CommitColumn::Symbols ==> (strings_outcome(
            row.parent_sha@,
        ) is Ok) && (tags_outcome(row.tags@) is Ok) && strings_outcome(row.symbols@) == Err::<
            Seq<Seq<char>>,
            _,
        >(e.reason@),
        tells_of(e, row) && e.column == CommitColumn::Files ==> (strings_outcome(
            row.parent_sha@,
        ) is Ok) && (tags_outcome(row.tags@) is Ok) && (strings_outcome(row.symbols@) is Ok)
            && strings_outcome(row.files@) == Err::<Seq<Seq<char>>, _>(e.reason@),
{
}

/// The first row that cannot be read cannot, and all before it can.
pub proof fn law_first_unreadable(rows: Seq<CommitRow>)
    ensures
        0 <= first_unreadable(rows) <= rows.len(),
        forall|i: int|
            0 <= i < first_unreadable(rows) ==> bad_column(#[trigger] rows[i]) is None,
        first_unreadable(rows) < rows.len() ==> bad_column(rows[first_unreadable(rows)]) is Some,
    decreases rows.len(),
{
    if rows.len() > 0 && bad_column(rows[0]) is None {
        let rest = rows.drop_first();
        law_first_unreadable(rest);
        assert forall|i: int| 0 <= i < first_unreadable(rows) implies bad_column(
            #[trigger] rows[i],
        ) is None by {
            if i > 0 {
                assert(rows[i] == rest[i - 1]);
            }
        }
    }
}

/// The conditions by which commits are found, from one commit and from one more.
pub proof fn law_commit_filters(sha: Seq<char>, some: Seq<Seq<char>>)
    ensures
        sha_filter(sha) == "git_sha = '"@ + sql_escaped(sha) + "'"@,
        shas_filter(seq![sha]) == "git_sha IN ("@ + ("'"@ + sql_escaped(sha) + "'"@) + ")"@,
        some.len() > 0 ==> shas_filter(some.push(sha)) == "git_sha IN ("@ + (joined(
            sql_literals(some),
            ", "@,
        ) + ", "@ + ("'"@ + sql_escaped(sha) + "'"@)) + ")"@,
        sql_literals(some.push(sha)) == sql_literals(some).push("'"@ + sql_escaped(sha) + "'"@),
{
    let literal = "'"@ + sql_escaped(sha) + "'"@;
    assert(sql_literals(seq![sha]) =~= seq![literal]);
    assert(sql_literals(some.push(sha)) =~= sql_literals(some).push(literal));
    assert(sql_literals(some).push(literal).drop_last() =~= sql_literals(some));
}

/// Commits that rows read as are as many, and each is what its row reads as.
pub proof fn law_all_read_as(rows: Seq<CommitRow>, commits: Seq<GitCommitInfo>, i: int)
    requires
        all_read_as(rows, commits),
        0 <= i < rows.len(),
    ensures
        commits.len() == rows.len(),
        reads_as(rows[i], commits[i]),
{
}

} // verus!
