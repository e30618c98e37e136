//! The names of a database's tables.
use crate::database::{DatabaseManager, CONTENT_SHARDS};
use crate::text::{decimal, decimal_text, lemma_strs_empty, lemma_strs_push, strs};
use vstd::prelude::*;

verus! {

broadcast use {lemma_strs_push, lemma_strs_empty};

/// The name of a table of contents.
pub open spec fn shard_table(shard: nat) -> Seq<char> {
    "content_"@ + decimal(shard)
}

/// The names of the tables of contents.
pub open spec fn shard_tables() -> Seq<Seq<char>> {
    Seq::new(CONTENT_SHARDS as nat, |i: int| shard_table(i as nat))
}

/// The tables but those of contents, in the order in which they are looked after.
pub open spec fn main_tables() -> Seq<Seq<char>> {
    seq![
        "functions"@,
        "types"@,
        "vectors"@,
        "commit_vectors"@,
        "lore_vectors"@,
        "processed_files"@,
        "git_commits"@,
        "lore"@,
        "symbol_filename"@,
    ]
}

/// The tables that are emptied, in order.
pub open spec fn cleared_tables() -> Seq<Seq<char>> {
    seq![
        "functions"@,
        "types"@,
        "vectors"@,
        "commit_vectors"@,
        "lore_vectors"@,
        "processed_files"@,
        "symbol_filename"@,
        "git_commits"@,
        "lore"@,
    ] + shard_tables()
}

/// The tables that are scanned for duplicates, in order.
pub open spec fn scanned_tables() -> Seq<Seq<char>> {
    seq![
        "functions"@,
        "types"@,
        "processed_files"@,
        "symbol_filename"@,
        "git_commits"@,
        "vectors"@,
        "commit_vectors"@,
        "lore"@,
        "lore_vectors"@,
        "indexed_branches"@,
    ] + shard_tables()
}

/// The name of a table of contents.
pub fn shard_name(shard: usize) -> (r: String)
    ensures
        r@ == shard_table(shard as nat),
{
    let mut out: String = "content_".to_owned();
    out.append(decimal_text(shard as u64).as_str());
    out
}

/// The names of the tables of contents.
pub fn shard_names() -> (r: Vec<String>)
    ensures
        strs(r@) == shard_tables(),
{
    let mut out: Vec<String> = Vec::new();
    let mut i: usize = 0;
    while i < CONTENT_SHARDS
        invariant
            i <= CONTENT_SHARDS,
            strs(out@) == shard_tables().take(i as int),
        decreases CONTENT_SHARDS - i,
    {
        out.push(shard_name(i));
        proof {
            assert(shard_tables().take(i + 1) =~= shard_tables().take(i as int).push(
                shard_table(i as nat),
            ));
        }
        i += 1;
    }
    proof {
        assert(shard_tables().take(i as int) =~= shard_tables());
    }
    out
}

/// The tables but those of contents, in the order in which they are looked after.
pub fn main_table_names() -> (r: Vec<String>)
    ensures
        strs(r@) == main_tables(),
{
    let mut out: Vec<String> = Vec::new();
    out.push("functions".to_owned());
    out.push("types".to_owned());
    out.push("vectors".to_owned());
    out.push("commit_vectors".to_owned());
    out.push("lore_vectors".to_owned());
    out.push("processed_files".to_owned());
    out.push("git_commits".to_owned());
    out.push("lore".to_owned());
    out.push("symbol_filename".to_owned());
    proof {
        assert(strs(out@) =~= main_tables());
    }
    out
}

impl DatabaseManager {
    /// The tables that are emptied when all data is cleared, in order; those that do
    /// not exist are passed over.
    pub fn clear_all_data(&self) -> (r: Vec<String>)
        ensures
            strs(r@) == cleared_tables(),
    {
        let mut out: Vec<String> = Vec::new();
        out.push("functions".to_owned());
        out.push("types".to_owned());
        out.push("vectors".to_owned());
        out.push("commit_vectors".to_owned());
        out.push("lore_vectors".to_owned());
        out.push("processed_files".to_owned());
        out.push("symbol_filename".to_owned());
        out.push("git_commits".to_owned());
        out.push("lore".to_owned());
        let ghost head = strs(out@);
        let mut shards = shard_names();
        let ghost tail = strs(shards@);
        out.append(&mut shards);
        proof {
            assert(strs(out@) =~= head + tail);
            assert(strs(out@) =~= cleared_tables());
        }
        out
    }

    /// The tables that are scanned for duplicates, in order.
    pub fn scan_for_duplicates(&self) -> (r: Vec<String>)
        ensures
            strs(r@) == scanned_tables(),
    {
        let mut out: Vec<String> = Vec::new();
        out.push("functions".to_owned());
        out.push("types".to_owned());
        out.push("processed_files".to_owned());
        out.push("symbol_filename".to_owned());
        out.push("git_commits".to_owned());
        out.push("vectors".to_owned());
        out.push("commit_vectors".to_owned());
        out.push("lore".to_owned());
        out.push("lore_vectors".to_owned());
        out.push("indexed_branches".to_owned());
        let ghost head = strs(out@);
        let mut shards = shard_names();
        let ghost tail = strs(shards@);
        out.append(&mut shards);
        proof {
            assert(strs(out@) =~= head + tail);
            assert(strs(out@) =~= scanned_tables());
        }
        out
    }
}

/// When all data is cleared, every main table and every table of contents is emptied.
pub proof fn law_main_tables_are_cleared(name: Seq<char>)
    requires
        main_tables().contains(name) || shard_tables().contains(name),
    ensures
        cleared_tables().contains(name),
{
    let c = cleared_tables();
    if main_tables().contains(name) {
        let m = main_tables();
        assert(m[0] == c[0] && m[1] == c[1] && m[2] == c[2] && m[3] == c[3] && m[4] == c[4] && m[5]
            == c[5] && m[6] == c[7] && m[7] == c[8] && m[8] == c[6]);
        let i = choose|i: int| 0 <= i < m.len() && m[i] == name;
    } else {
        let i = choose|i: int| 0 <= i < shard_tables().len() && shard_tables()[i] == name;
        assert(c[9 + i] == name);
    }
}

/// The tables of contents are sixteen, each with its number behind the same name; the other
/// tables that are looked after are nine, and those that are scanned or emptied hold them all,
/// each once, and beside them only the table of indexed branches where tables are scanned.
pub proof fn law_table_lists(i: int)
    ensures
        shard_tables().len() == 16,
        0 <= i < 16 ==> shard_tables()[i] == "content_"@ + decimal(i as nat),
        main_tables() == seq![
            "functions"@,
            "types"@,
            "vectors"@,
            "commit_vectors"@,
            "lore_vectors"@,
            "processed_files"@,
            "git_commits"@,
            "lore"@,
            "symbol_filename"@,
        ],
        cleared_tables().len() == 25,
        cleared_tables().skip(9) == shard_tables(),
        cleared_tables().take(9) == main_tables().remove(8).insert(6, "symbol_filename"@),
        scanned_tables().len() == 26,
        scanned_tables().skip(10) == shard_tables(),
        scanned_tables().take(10) == seq![
            "functions"@,
            "types"@,
            "processed_files"@,
            "symbol_filename"@,
            "git_commits"@,
            "vectors"@,
            "commit_vectors"@,
            "lore"@,
            "lore_vectors"@,
            "indexed_branches"@,
        ],
{
    assert(cleared_tables().skip(9) =~= shard_tables());
    assert(cleared_tables().take(9) =~= main_tables().remove(8).insert(6, "symbol_filename"@));
    assert(scanned_tables().skip(10) =~= shard_tables());
}

} // verus!
