//! The tables of a database: their columns and their indices.
use crate::database::SchemaManager;
use crate::text::{lemma_strs_empty, lemma_strs_push, strs};
use vstd::prelude::*;

verus! {

broadcast use {lemma_strs_push, lemma_strs_empty};

/// How many numbers a vector has.
pub const VECTOR_DIMENSIONS: usize = 256;

/// How many rows make it likely that a database has its indices.
pub const INDEXED_ROWS: usize = 100;

/// What a column holds.
#[derive(Clone, Copy, PartialEq, Eq, Structural)]
pub enum ColumnKind {
    Text,
    Integer,
    Vector { dimensions: usize },
}

/// A column of a table.
pub struct ColumnSpec {
    pub name: String,
    pub kind: ColumnKind,
    pub nullable: bool,
}

/// A column as text: its name, what it holds, and whether a value may be absent.
pub type Column = (Seq<char>, ColumnKind, bool);

/// The texts of columns.
pub open spec fn columns(specs: Seq<ColumnSpec>) -> Seq<Column> {
    specs.map_values(|c: ColumnSpec| (c.name@, c.kind, c.nullable))
}

fn column(name: &str, kind: ColumnKind, nullable: bool) -> (r: ColumnSpec)
    ensures
        r.name@ == name@,
        r.kind == kind,
        r.nullable == nullable,
{
    ColumnSpec { name: name.to_owned(), kind, nullable }
}

/// Indices of one table, each a list of columns.
pub struct IndexGroup {
    pub table: String,
    pub indices: Vec<Vec<String>>,
}

/// Indices as texts.
pub type IndexGroupText = (Seq<char>, Seq<Seq<Seq<char>>>);

/// The texts of a group.
pub open spec fn group_text(g: IndexGroup) -> IndexGroupText {
    (g.table@, g.indices@.map_values(|c: Vec<String>| strs(c@)))
}

/// The texts of groups.
pub open spec fn group_texts(groups: Seq<IndexGroup>) -> Seq<IndexGroupText> {
    groups.map_values(|g: IndexGroup| group_text(g))
}

pub(crate) fn one(a: &str) -> (r: Vec<String>)
    ensures
        strs(r@) == seq![a@],
{
    let mut out: Vec<String> = Vec::new();
    out.push(a.to_owned());
    assert(strs(out@) =~= seq![a@]);
    out
}

fn two(a: &str, b: &str) -> (r: Vec<String>)
    ensures
        strs(r@) == seq![a@, b@],
{
    let mut out: Vec<String> = Vec::new();
    out.push(a.to_owned());
    out.push(b.to_owned());
    assert(strs(out@) =~= seq![a@, b@]);
    out
}

fn three(a: &str, b: &str, c: &str) -> (r: Vec<String>)
    ensures
        strs(r@) == seq![a@, b@, c@],
{
    let mut out: Vec<String> = Vec::new();
    out.push(a.to_owned());
    out.push(b.to_owned());
    out.push(c.to_owned());
    assert(strs(out@) =~= seq![a@, b@, c@]);
    out
}

/// The columns of the table of functions.
pub open spec fn functions_columns() -> Seq<Column> {
    seq![
        ("name"@, ColumnKind::Text, false),
        ("file_path"@, ColumnKind::Text, false),
        ("git_file_hash"@, ColumnKind::Text, false),
        ("line_start"@, ColumnKind::Integer, false),
        ("line_end"@, ColumnKind::Integer, false),
        ("return_type"@, ColumnKind::Text, false),
        ("parameters"@, ColumnKind::Text, false),
        ("body_hash"@, ColumnKind::Text, true),
        ("calls"@, ColumnKind::Text, true),
        ("types"@, ColumnKind::Text, true),
    ]
}

/// The columns of the table of types.
pub open spec fn types_columns() -> Seq<Column> {
    seq![
        ("name"@, ColumnKind::Text, false),
        ("file_path"@, ColumnKind::Text, false),
        ("git_file_hash"@, ColumnKind::Text, false),
        ("line"@, ColumnKind::Integer, false),
        ("kind"@, ColumnKind::Text, false),
        ("size"@, ColumnKind::Integer, true),
        ("fields"@, ColumnKind::Text, false),
        ("definition_hash"@, ColumnKind::Text, true),
        ("types"@, ColumnKind::Text, true),
    ]
}

/// The columns of the table of vectors of contents.
pub open spec fn vectors_columns() -> Seq<Column> {
    seq![
        ("content_hash"@, ColumnKind::Text, false),
        ("vector"@, ColumnKind::Vector { dimensions: VECTOR_DIMENSIONS }, false),
    ]
}

/// The columns of the table of vectors of commits.
pub open spec fn commit_vectors_columns() -> Seq<Column> {
    seq![
        ("git_commit_sha"@, ColumnKind::Text, false),
        ("vector"@, ColumnKind::Vector { dimensions: VECTOR_DIMENSIONS }, false),
    ]
}

/// The columns of the table of vectors of mail.
pub open spec fn lore_vectors_columns() -> Seq<Column> {
    seq![
        ("message_id"@, ColumnKind::Text, false),
        ("vector"@, ColumnKind::Vector { dimensions: VECTOR_DIMENSIONS }, false),
    ]
}

/// The columns of the table of processed files.
pub open spec fn processed_files_columns() -> Seq<Column> {
    seq![
        ("file"@, ColumnKind::Text, false),
        ("git_sha"@, ColumnKind::Text, true),
        ("git_file_sha"@, ColumnKind::Text, false),
    ]
}

/// The columns of the table of symbols and their files.
pub open spec fn symbol_filename_columns() -> Seq<Column> {
    seq![
        ("symbol"@, ColumnKind::Text, false),
        ("filename"@, ColumnKind::Text, false),
    ]
}

/// The columns of the table of commits.
pub open spec fn git_commits_columns() -> Seq<Column> {
    seq![
        ("git_sha"@, ColumnKind::Text, false),
        ("parent_sha"@, ColumnKind::Text, false),
        ("author"@, ColumnKind::Text, false),
        ("subject"@, ColumnKind::Text, false),
        ("message"@, ColumnKind::Text, false),
        ("tags"@, ColumnKind::Text, false),
        ("diff"@, ColumnKind::Text, false),
        ("symbols"@, ColumnKind::Text, false),
        ("files"@, ColumnKind::Text, false),
    ]
}

/// The columns of the table of mail.
pub open spec fn lore_columns() -> Seq<Column> {
    seq![
        ("git_commit_sha"@, ColumnKind::Text, false),
        ("from"@, ColumnKind::Text, false),
        ("date"@, ColumnKind::Text, false),
        ("message_id"@, ColumnKind::Text, false),
        ("in_reply_to"@, ColumnKind::Text, true),
        ("subject"@, ColumnKind::Text, false),
        ("references"@, ColumnKind::Text, true),
        ("recipients"@, ColumnKind::Text, false),
        ("headers"@, ColumnKind::Text, false),
        ("body"@, ColumnKind::Text, false),
        ("symbols"@, ColumnKind::Text, false),
    ]
}

/// The columns of the table of contents.
pub open spec fn content_columns() -> Seq<Column> {
    seq![
        ("blake3_hash"@, ColumnKind::Text, false),
        ("content"@, ColumnKind::Text, false),
    ]
}

impl SchemaManager {
    /// The columns with which the table of functions is created.
    pub fn create_functions_table(&self) -> (r: Vec<ColumnSpec>)
        ensures
            columns(r@) == functions_columns(),
    {
        let mut out: Vec<ColumnSpec> = Vec::new();
        out.push(column("name", ColumnKind::Text, false));
        out.push(column("file_path", ColumnKind::Text, false));
        out.push(column("git_file_hash", ColumnKind::Text, false));
        out.push(column("line_start", ColumnKind::Integer, false));
        out.push(column("line_end", ColumnKind::Integer, false));
        out.push(column("return_type", ColumnKind::Text, false));
        out.push(column("parameters", ColumnKind::Text, false));
        out.push(column("body_hash", ColumnKind::Text, true));
        out.push(column("calls", ColumnKind::Text, true));
        out.push(column("types", ColumnKind::Text, true));
        assert(columns(out@) =~= functions_columns());
        out
    }

    /// The columns with which the table of types is created.
    pub fn create_types_table(&self) -> (r: Vec<ColumnSpec>)
        ensures
            columns(r@) == types_columns(),
    {
        let mut out: Vec<ColumnSpec> = Vec::new();
        out.push(column("name", ColumnKind::Text, false));
        out.push(column("file_path", ColumnKind::Text, false));
        out.push(column("git_file_hash", ColumnKind::Text, false));
        out.push(column("line", ColumnKind::Integer, false));
        out.push(column("kind", ColumnKind::Text, false));
        out.push(column("size", ColumnKind::Integer, true));
        out.push(column("fields", ColumnKind::Text, false));
        out.push(column("definition_hash", ColumnKind::Text, true));
        out.push(column("types", ColumnKind::Text, true));
        assert(columns(out@) =~= types_columns());
        out
    }

    /// The columns with which the table of vectors of contents is created.
    pub fn create_vectors_table(&self) -> (r: Vec<ColumnSpec>)
        ensures
            columns(r@) == vectors_columns(),
    {
        let mut out: Vec<ColumnSpec> = Vec::new();
        out.push(column("content_hash", ColumnKind::Text, false));
        out.push(column("vector", ColumnKind::Vector { dimensions: VECTOR_DIMENSIONS }, false));
        assert(columns(out@) =~= vectors_columns());
        out
    }

    /// The columns with which the table of vectors of commits is created.
    pub fn create_commit_vectors_table(&self) -> (r: Vec<ColumnSpec>)
        ensures
            columns(r@) == commit_vectors_columns(),
    {
        let mut out: Vec<ColumnSpec> = Vec::new();
        out.push(column("git_commit_sha", ColumnKind::Text, false));
        out.push(column("vector", ColumnKind::Vector { dimensions: VECTOR_DIMENSIONS }, false));
        assert(columns(out@) =~= commit_vectors_columns());
        out
    }

    /// The columns with which the table of vectors of mail is created.
    pub fn create_lore_vectors_table(&self) -> (r: Vec<ColumnSpec>)
        ensures
            columns(r@) == lore_vectors_columns(),
    {
        let mut out: Vec<ColumnSpec> = Vec::new();
        out.push(column("message_id", ColumnKind::Text, false));
        out.push(column("vector", ColumnKind::Vector { dimensions: VECTOR_DIMENSIONS }, false));
        assert(columns(out@) =~= lore_vectors_columns());
        out
    }

    /// The columns with which the table of processed files is created.
    pub fn create_processed_files_table(&self) -> (r: Vec<ColumnSpec>)
        ensures
            columns(r@) == processed_files_columns(),
    {
        let mut out: Vec<ColumnSpec> = Vec::new();
        out.push(column("file", ColumnKind::Text, false));
        out.push(column("git_sha", ColumnKind::Text, true));
        out.push(column("git_file_sha", ColumnKind::Text, false));
        assert(columns(out@) =~= processed_files_columns());
        out
    }

    /// The columns with which the table of symbols and their files is created.
    pub fn create_symbol_filename_table(&self) -> (r: Vec<ColumnSpec>)
        ensures
            columns(r@) == symbol_filename_columns(),
    {
        let mut out: Vec<ColumnSpec> = Vec::new();
        out.push(column("symbol", ColumnKind::Text, false));
        out.push(column("filename", ColumnKind::Text, false));
        assert(columns(out@) =~= symbol_filename_columns());
        out
    }

    /// The columns with which the table of commits is created.
    pub fn create_git_commits_table(&self) -> (r: Vec<ColumnSpec>)
        ensures
            columns(r@) == git_commits_columns(),
    {
        let mut out: Vec<ColumnSpec> = Vec::new();
        out.push(column("git_sha", ColumnKind::Text, false));
        out.push(column("parent_sha", ColumnKind::Text, false));
        out.push(column("author", ColumnKind::Text, false));
        out.push(column("subject", ColumnKind::Text, false));
        out.push(column("message", ColumnKind::Text, false));
        out.push(column("tags", ColumnKind::Text, false));
        out.push(column("diff", ColumnKind::Text, false));
        out.push(column("symbols", ColumnKind::Text, false));
        out.push(column("files", ColumnKind::Text, false));
        assert(columns(out@) =~= git_commits_columns());
        out
    }

    /// The columns with which the table of mail is created.
    pub fn create_lore_table(&self) -> (r: Vec<ColumnSpec>)
        ensures
            columns(r@) == lore_columns(),
    {
        let mut out: Vec<ColumnSpec> = Vec::new();
        out.push(column("git_commit_sha", ColumnKind::Text, false));
        out.push(column("from", ColumnKind::Text, false));
        out.push(column("date", ColumnKind::Text, false));
        out.push(column("message_id", ColumnKind::Text, false));
        out.push(column("in_reply_to", ColumnKind::Text, true));
        out.push(column("subject", ColumnKind::Text, false));
        out.push(column("references", ColumnKind::Text, true));
        out.push(column("recipients", ColumnKind::Text, false));
        out.push(column("headers", ColumnKind::Text, false));
        out.push(column("body", ColumnKind::Text, false));
        out.push(column("symbols", ColumnKind::Text, false));
        assert(columns(out@) =~= lore_columns());
        out
    }

    /// The columns with which the table of contents is created.
    pub fn create_content_table(&self) -> (r: Vec<ColumnSpec>)
        ensures
            columns(r@) == content_columns(),
    {
        let mut out: Vec<ColumnSpec> = Vec::new();
        out.push(column("blake3_hash", ColumnKind::Text, false));
        out.push(column("content", ColumnKind::Text, false));
        assert(columns(out@) =~= content_columns());
        out
    }
}

/// The indices of the table of functions.
pub open spec fn functions_indices() -> IndexGroupText {
    (
        "functions"@,
        seq![
            seq!["name"@],
            seq!["git_file_hash"@],
            seq!["file_path"@],
            seq!["body_hash"@],
            seq!["line_start"@],
            seq!["line_end"@],
            seq!["name"@, "git_file_hash"@],
        ],
    )
}

/// The indices of the table of types.
pub open spec fn types_indices() -> IndexGroupText {
    (
        "types"@,
        seq![
            seq!["name"@],
            seq!["git_file_hash"@],
            seq!["kind"@],
            seq!["file_path"@],
            seq!["definition_hash"@],
            seq!["name"@, "kind"@, "git_file_hash"@],
        ],
    )
}

/// The indices of the table of vectors of contents.
pub open spec fn vectors_indices() -> IndexGroupText {
    (
        "vectors"@,
        seq![
            seq!["content_hash"@],
        ],
    )
}

/// The indices of the table of vectors of commits.
pub open spec fn commit_vectors_indices() -> IndexGroupText {
    (
        "commit_vectors"@,
        seq![
            seq!["git_commit_sha"@],
        ],
    )
}

/// The indices of the table of vectors of mail.
pub open spec fn lore_vectors_indices() -> IndexGroupText {
    (
        "lore_vectors"@,
        seq![
            seq!["message_id"@],
        ],
    )
}

/// The indices of the table of mail.
pub open spec fn lore_indices() -> IndexGroupText {
    (
        "lore"@,
        seq![
            seq!["message_id"@],
            seq!["from"@],
            seq!["subject"@],
            seq!["git_commit_sha"@],
            seq!["date"@],
            seq!["in_reply_to"@],
            seq!["references"@],
        ],
    )
}

/// The indices of the table of processed files.
pub open spec fn processed_files_indices() -> IndexGroupText {
    (
        "processed_files"@,
        seq![
            seq!["file"@],
            seq!["git_sha"@],
            seq!["git_file_sha"@],
            seq!["file"@, "git_sha"@],
        ],
    )
}

/// The indices of the table of symbols and their files.
pub open spec fn symbol_filename_indices() -> IndexGroupText {
    (
        "symbol_filename"@,
        seq![
            seq!["symbol"@],
            seq!["filename"@],
            seq!["symbol"@, "filename"@],
        ],
    )
}

/// The indices of the table of commits.
pub open spec fn git_commits_indices() -> IndexGroupText {
    (
        "git_commits"@,
        seq![
            seq!["git_sha"@],
            seq!["parent_sha"@],
            seq!["author"@],
            seq!["subject"@],
        ],
    )
}

/// The indices of the table of mail, in the order in which they are seen to again.
pub open spec fn lore_again_indices() -> IndexGroupText {
    (
        "lore"@,
        seq![
            seq!["git_commit_sha"@],
            seq!["message_id"@],
            seq!["from"@],
            seq!["date"@],
            seq!["in_reply_to"@],
            seq!["subject"@],
            seq!["references"@],
        ],
    )
}

/// The indices of the table of indexed branches.
pub open spec fn indexed_branches_indices() -> IndexGroupText {
    (
        "indexed_branches"@,
        seq![
            seq!["branch_name"@],
            seq!["tip_commit"@],
            seq!["remote"@],
        ],
    )
}

fn functions_group() -> (r: IndexGroup)
    ensures
        group_text(r) == functions_indices(),
{
    let mut all: Vec<Vec<String>> = Vec::new();
    all.push(one("name"));
    all.push(one("git_file_hash"));
    all.push(one("file_path"));
    all.push(one("body_hash"));
    all.push(one("line_start"));
    all.push(one("line_end"));
    all.push(two("name", "git_file_hash"));
    let r = IndexGroup { table: "functions".to_owned(), indices: all };
    assert(group_text(r).1 =~= functions_indices().1);
    r
}

fn types_group() -> (r: IndexGroup)
    ensures
        group_text(r) == types_indices(),
{
    let mut all: Vec<Vec<String>> = Vec::new();
    all.push(one("name"));
    all.push(one("git_file_hash"));
    all.push(one("kind"));
    all.push(one("file_path"));
    all.push(one("definition_hash"));
    all.push(three("name", "kind", "git_file_hash"));
    let r = IndexGroup { table: "types".to_owned(), indices: all };
    assert(group_text(r).1 =~= types_indices().1);
    r
}

fn vectors_group() -> (r: IndexGroup)
    ensures
        group_text(r) == vectors_indices(),
{
    let mut all: Vec<Vec<String>> = Vec::new();
    all.push(one("content_hash"));
    let r = IndexGroup { table: "vectors".to_owned(), indices: all };
    assert(group_text(r).1 =~= vectors_indices().1);
    r
}

fn commit_vectors_group() -> (r: IndexGroup)
    ensures
        group_text(r) == commit_vectors_indices(),
{
    let mut all: Vec<Vec<String>> = Vec::new();
    all.push(one("git_commit_sha"));
    let r = IndexGroup { table: "commit_vectors".to_owned(), indices: all };
    assert(group_text(r).1 =~= commit_vectors_indices().1);
    r
}

fn lore_vectors_group() -> (r: IndexGroup)
    ensures
        group_text(r) == lore_vectors_indices(),
{
    let mut all: Vec<Vec<String>> = Vec::new();
    all.push(one("message_id"));
    let r = IndexGroup { table: "lore_vectors".to_owned(), indices: all };
    assert(group_text(r).1 =~= lore_vectors_indices().1);
    r
}

fn lore_group() -> (r: IndexGroup)
    ensures
        group_text(r) == lore_indices(),
{
    let mut all: Vec<Vec<String>> = Vec::new();
    all.push(one("message_id"));
    all.push(one("from"));
    all.push(one("subject"));
    all.push(one("git_commit_sha"));
    all.push(one("date"));
    all.push(one("in_reply_to"));
    all.push(one("references"));
    let r = IndexGroup { table: "lore".to_owned(), indices: all };
    assert(group_text(r).1 =~= lore_indices().1);
    r
}

fn processed_files_group() -> (r: IndexGroup)
    ensures
        group_text(r) == processed_files_indices(),
{
    let mut all: Vec<Vec<String>> = Vec::new();
    all.push(one("file"));
    all.push(one("git_sha"));
    all.push(one("git_file_sha"));
    all.push(two("file", "git_sha"));
    let r = IndexGroup { table: "processed_files".to_owned(), indices: all };
    assert(group_text(r).1 =~= processed_files_indices().1);
    r
}

fn symbol_filename_group() -> (r: IndexGroup)
    ensures
        group_text(r) == symbol_filename_indices(),
{
    let mut all: Vec<Vec<String>> = Vec::new();
    all.push(one("symbol"));
    all.push(one("filename"));
    all.push(two("symbol", "filename"));
    let r = IndexGroup { table: "symbol_filename".to_owned(), indices: all };
    assert(group_text(r).1 =~= symbol_filename_indices().1);
    r
}

fn git_commits_group() -> (r: IndexGroup)
    ensures
        group_text(r) == git_commits_indices(),
{
    let mut all: Vec<Vec<String>> = Vec::new();
    all.push(one("git_sha"));
    all.push(one("parent_sha"));
    all.push(one("author"));
    all.push(one("subject"));
    let r = IndexGroup { table: "git_commits".to_owned(), indices: all };
    assert(group_text(r).1 =~= git_commits_indices().1);
    r
}

fn lore_again_group() -> (r: IndexGroup)
    ensures
        group_text(r) == lore_again_indices(),
{
    let mut all: Vec<Vec<String>> = Vec::new();
    all.push(one("git_commit_sha"));
    all.push(one("message_id"));
    all.push(one("from"));
    all.push(one("date"));
    all.push(one("in_reply_to"));
    all.push(one("subject"));
    all.push(one("references"));
    let r = IndexGroup { table: "lore".to_owned(), indices: all };
    assert(group_text(r).1 =~= lore_again_indices().1);
    r
}

fn indexed_branches_group() -> (r: IndexGroup)
    ensures
        group_text(r) == indexed_branches_indices(),
{
    let mut all: Vec<Vec<String>> = Vec::new();
    all.push(one("branch_name"));
    all.push(one("tip_commit"));
    all.push(one("remote"));
    let r = IndexGroup { table: "indexed_branches".to_owned(), indices: all };
    assert(group_text(r).1 =~= indexed_branches_indices().1);
    r
}

/// All groups of indices but those of the tables of contents, in order.
pub open spec fn main_index_groups() -> Seq<IndexGroupText> {
    seq![
        functions_indices(),
        types_indices(),
        vectors_indices(),
        commit_vectors_indices(),
        lore_vectors_indices(),
        lore_indices(),
        processed_files_indices(),
        symbol_filename_indices(),
        git_commits_indices(),
        lore_again_indices(),
        indexed_branches_indices(),
    ]
}

pub(crate) fn main_groups() -> (r: Vec<IndexGroup>)
    ensures
        group_texts(r@) == main_index_groups(),
{
    let mut out: Vec<IndexGroup> = Vec::new();
    out.push(functions_group());
    out.push(types_group());
    out.push(vectors_group());
    out.push(commit_vectors_group());
    out.push(lore_vectors_group());
    out.push(lore_group());
    out.push(processed_files_group());
    out.push(symbol_filename_group());
    out.push(git_commits_group());
    out.push(lore_again_group());
    out.push(indexed_branches_group());
    assert(group_texts(out@) =~= main_index_groups());
    out
}

/// The texts of columns and of indices are those of their parts, one for one.
pub proof fn law_schema_texts(specs: Seq<ColumnSpec>, g: IndexGroup, i: int, k: int)
    ensures
        columns(specs).len() == specs.len(),
        0 <= i < specs.len() ==> columns(specs)[i] == (specs[i].name@, specs[i].kind, specs[i].nullable),
        group_text(g).0 == g.table@,
        group_text(g).1.len() == g.indices@.len(),
        0 <= i < g.indices@.len() ==> group_text(g).1[i].len() == g.indices@[i]@.len(),
        0 <= i < g.indices@.len() && 0 <= k < g.indices@[i]@.len() ==> group_text(g).1[i][k]
            == g.indices@[i]@[k]@,
{
}

/// The key of each table is its first column, is text and is never absent; vectors have 256
/// numbers; and what may be absent is the hash of a body or a definition, a list of calls or of
/// types, a size, a commit of a processed file, and what a mail replies or refers to.
pub proof fn law_columns(i: int)
    ensures
        functions_columns().len() == 10,
        types_columns().len() == 9,
        git_commits_columns().len() == 9,
        lore_columns().len() == 11,
        processed_files_columns().len() == 3,
        symbol_filename_columns().len() == 2,
        content_columns().len() == 2,
        vectors_columns().len() == 2,
        commit_vectors_columns().len() == 2,
        lore_vectors_columns().len() == 2,
        vectors_columns()[1].1 == (ColumnKind::Vector { dimensions: 256 }),
        commit_vectors_columns()[1].1 == (ColumnKind::Vector { dimensions: 256 }),
        lore_vectors_columns()[1].1 == (ColumnKind::Vector { dimensions: 256 }),
        vectors_columns()[0].1 == ColumnKind::Text,
        commit_vectors_columns()[0].1 == ColumnKind::Text,
        lore_vectors_columns()[0].1 == ColumnKind::Text,
        0 <= i < 10 && i != 3 && i != 4 ==> functions_columns()[i].1 == ColumnKind::Text,
        0 <= i < 9 && i != 3 && i != 5 ==> types_columns()[i].1 == ColumnKind::Text,
        0 <= i < 10 ==> (functions_columns()[i].2 <==> i >= 7),
        0 <= i < 10 ==> (functions_columns()[i].1 == ColumnKind::Integer <==> i == 3 || i == 4),
        0 <= i < 9 ==> (types_columns()[i].2 <==> i == 5 || i >= 7),
        0 <= i < 9 ==> (types_columns()[i].1 == ColumnKind::Integer <==> i == 3 || i == 5),
        0 <= i < 9 ==> git_commits_columns()[i].1 == ColumnKind::Text && !git_commits_columns()[i].2,
        0 <= i < 11 ==> lore_columns()[i].1 == ColumnKind::Text && (lore_columns()[i].2 <==> i == 4
            || i == 6),
        0 <= i < 3 ==> processed_files_columns()[i].1 == ColumnKind::Text && (
        processed_files_columns()[i].2 <==> i == 1),
        0 <= i < 2 ==> symbol_filename_columns()[i].1 == ColumnKind::Text
            && !symbol_filename_columns()[i].2 && content_columns()[i].1 == ColumnKind::Text
            && !content_columns()[i].2 && !vectors_columns()[i].2 && !commit_vectors_columns()[i].2
            && !lore_vectors_columns()[i].2,
{
}

/// The names of the columns of each table, in their order.
pub proof fn law_column_names()
    ensures
        functions_columns().map_values(|c: Column| c.0) == seq![
            "name"@,
            "file_path"@,
            "git_file_hash"@,
            "line_start"@,
            "line_end"@,
            "return_type"@,
            "parameters"@,
            "body_hash"@,
            "calls"@,
            "types"@,
        ],
        types_columns().map_values(|c: Column| c.0) == seq![
            "name"@,
            "file_path"@,
            "git_file_hash"@,
            "line"@,
            "kind"@,
            "size"@,
            "fields"@,
            "definition_hash"@,
            "types"@,
        ],
        git_commits_columns().map_values(|c: Column| c.0) == seq![
            "git_sha"@,
            "parent_sha"@,
            "author"@,
            "subject"@,
            "message"@,
            "tags"@,
            "diff"@,
            "symbols"@,
            "files"@,
        ],
        lore_columns().map_values(|c: Column| c.0) == seq![
            "git_commit_sha"@,
            "from"@,
            "date"@,
            "message_id"@,
            "in_reply_to"@,
            "subject"@,
            "references"@,
            "recipients"@,
            "headers"@,
            "body"@,
            "symbols"@,
        ],
        vectors_columns().map_values(|c: Column| c.0) == seq!["content_hash"@, "vector"@],
        commit_vectors_columns().map_values(|c: Column| c.0) == seq!["git_commit_sha"@, "vector"@],
        lore_vectors_columns().map_values(|c: Column| c.0) == seq!["message_id"@, "vector"@],
        processed_files_columns().map_values(|c: Column| c.0) == seq![
            "file"@,
            "git_sha"@,
            "git_file_sha"@,
        ],
        symbol_filename_columns().map_values(|c: Column| c.0) == seq!["symbol"@, "filename"@],
        content_columns().map_values(|c: Column| c.0) == seq!["blake3_hash"@, "content"@],
{
}

/// An index on each of some columns by itself.
pub open spec fn each_alone(cols: Seq<Seq<char>>) -> Seq<Seq<Seq<char>>> {
    cols.map_values(|c: Seq<char>| seq![c])
}

/// The indices of each table: one on each of some columns, and on functions, types, processed
/// files and symbols one more on several columns together.
pub proof fn law_index_lists()
    ensures
        functions_indices() == (
            "functions"@,
            each_alone(seq![
                "name"@,
                "git_file_hash"@,
                "file_path"@,
                "body_hash"@,
                "line_start"@,
                "line_end"@,
            ]).push(seq!["name"@, "git_file_hash"@]),
        ),
        types_indices() == (
            "types"@,
            each_alone(seq![
                "name"@,
                "git_file_hash"@,
                "kind"@,
                "file_path"@,
                "definition_hash"@,
            ]).push(seq!["name"@, "kind"@, "git_file_hash"@]),
        ),
        vectors_indices() == ("vectors"@, each_alone(seq!["content_hash"@])),
        commit_vectors_indices() == ("commit_vectors"@, each_alone(seq!["git_commit_sha"@])),
        lore_vectors_indices() == ("lore_vectors"@, each_alone(seq!["message_id"@])),
        lore_indices() == ("lore"@, each_alone(seq![
            "message_id"@,
            "from"@,
            "subject"@,
            "git_commit_sha"@,
            "date"@,
            "in_reply_to"@,
            "references"@,
        ])),
        processed_files_indices() == (
            "processed_files"@,
            each_alone(seq!["file"@, "git_sha"@, "git_file_sha"@]).push(seq!["file"@, "git_sha"@]),
        ),
        symbol_filename_indices() == (
            "symbol_filename"@,
            each_alone(seq!["symbol"@, "filename"@]).push(seq!["symbol"@, "filename"@]),
        ),
        git_commits_indices() == (
            "git_commits"@,
            each_alone(seq!["git_sha"@, "parent_sha"@, "author"@, "subject"@]),
        ),
        lore_again_indices() == ("lore"@, each_alone(seq![
            "git_commit_sha"@,
            "message_id"@,
            "from"@,
            "date"@,
            "in_reply_to"@,
            "subject"@,
            "references"@,
        ])),
        indexed_branches_indices() == (
            "indexed_branches"@,
            each_alone(seq!["branch_name"@, "tip_commit"@, "remote"@]),
        ),
{
    assert(functions_indices().1 =~= each_alone(seq![
        "name"@,
        "git_file_hash"@,
        "file_path"@,
        "body_hash"@,
        "line_start"@,
        "line_end"@,
    ]).push(seq!["name"@, "git_file_hash"@]));
    assert(types_indices().1 =~= each_alone(seq![
        "name"@,
        "git_file_hash"@,
        "kind"@,
        "file_path"@,
        "definition_hash"@,
    ]).push(seq!["name"@, "kind"@, "git_file_hash"@]));
    assert(vectors_indices().1 =~= each_alone(seq!["content_hash"@]));
    assert(commit_vectors_indices().1 =~= each_alone(seq!["git_commit_sha"@]));
    assert(lore_vectors_indices().1 =~= each_alone(seq!["message_id"@]));
    assert(lore_indices().1 =~= each_alone(seq![
        "message_id"@,
        "from"@,
        "subject"@,
        "git_commit_sha"@,
        "date"@,
        "in_reply_to"@,
        "references"@,
    ]));
    assert(processed_files_indices().1 =~= each_alone(seq!["file"@, "git_sha"@, "git_file_sha"@]).push(seq!["file"@, "git_sha"@]));
    assert(symbol_filename_indices().1 =~= each_alone(seq!["symbol"@, "filename"@]).push(seq!["symbol"@, "filename"@]));
    assert(git_commits_indices().1 =~= each_alone(seq!["git_sha"@, "parent_sha"@, "author"@, "subject"@]));
    assert(lore_again_indices().1 =~= each_alone(seq![
        "git_commit_sha"@,
        "message_id"@,
        "from"@,
        "date"@,
        "in_reply_to"@,
        "subject"@,
        "references"@,
    ]));
    assert(indexed_branches_indices().1 =~= each_alone(seq!["branch_name"@, "tip_commit"@, "remote"@]));
}

/// The groups of indices, by their tables, in the order in which they are created; the indices
/// of mail are seen to twice.
pub proof fn law_index_groups(groups: Seq<IndexGroup>, i: int)
    ensures
        main_index_groups().map_values(|g: IndexGroupText| g.0) == seq![
            "functions"@,
            "types"@,
            "vectors"@,
            "commit_vectors"@,
            "lore_vectors"@,
            "lore"@,
            "processed_files"@,
            "symbol_filename"@,
            "git_commits"@,
            "lore"@,
            "indexed_branches"@,
        ],
        main_index_groups()[0] == functions_indices(),
        main_index_groups()[1] == types_indices(),
        main_index_groups()[5] == lore_indices(),
        main_index_groups()[6] == processed_files_indices(),
        main_index_groups()[7] == symbol_filename_indices(),
        main_index_groups()[8] == git_commits_indices(),
        main_index_groups()[9] == lore_again_indices(),
        main_index_groups()[10] == indexed_branches_indices(),
        group_texts(groups).len() == groups.len(),
        0 <= i < groups.len() ==> group_texts(groups)[i] == group_text(groups[i]),
{
}

} // verus!
