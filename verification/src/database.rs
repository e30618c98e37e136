//! The database of an index.
use vstd::prelude::*;

verus! {

/// How many rows are written at a time.
pub const OPTIMAL_BATCH_SIZE: usize = 65536;

/// How many tables the contents are spread over.
pub const CONTENT_SHARDS: usize = 16;

/// The decisions of a database over one git repository.
pub struct DatabaseManager {
    pub git_repo_path: String,
}

/// The tables of a database: their layout, their indices and their upkeep.
pub struct SchemaManager {}

impl DatabaseManager {
    /// A database over the repository at a path.
    pub fn new(git_repo_path: String) -> (r: DatabaseManager)
        ensures
            r.git_repo_path@ == git_repo_path@,
    {
        DatabaseManager { git_repo_path }
    }
}

impl SchemaManager {
    /// The upkeep of a database's tables.
    pub fn new() -> SchemaManager {
        SchemaManager {  }
    }
}

} // verus!
