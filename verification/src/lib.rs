//! The rules of a source-code index: what is stored for functions, types,
//! commits and archived mail, how it is looked up, and how the tables that hold
//! it are laid out and kept healthy.
pub mod text;
pub mod lists;
pub mod patterns;
pub mod dates;
pub mod tags;
pub mod email;
pub mod commits;
pub mod pipeline;
pub mod runs;
pub mod database;
pub mod signatures;
pub mod duplicates;
pub mod functions;
pub mod callchain;
pub mod json;
pub mod manifest;
pub mod calls;
pub mod grep;
pub mod tables;
pub mod health;
pub mod incremental;
pub mod upserts;
pub mod history;
pub mod lore;
pub mod lore_search;
pub mod inserts;
pub mod schema;
pub mod upkeep;
