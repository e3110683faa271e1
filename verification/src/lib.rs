//! Filters on the files and the history of a repository.
//!
//! A filter makes a tree of files out of another: it takes a directory out, moves everything
//! below a path, hides a path, keeps what matches a pattern, or puts several such results
//! together in a workspace. Many filters can also take a change back, from the tree that they
//! made to the tree that they made it of. Applied to commits, a filter rewrites all history.
//!
//! A repository is held in memory, as objects with ids; what it stands for is described as
//! plain values, and every function is specified by what it does to those values.

pub mod apply;
pub mod arena;
pub mod bytes;
pub mod cache;
pub mod chain_laws;
pub mod combine_laws;
pub mod commit_laws;
pub mod commits;
pub mod entries;
pub mod error;
pub mod filter;
pub mod filter_laws;
pub mod glob_laws;
pub mod grammar;
pub mod grammar_laws;
pub mod history;
pub mod history_laws;
pub mod id_laws;
pub mod ids;
pub mod info_laws;
pub mod laws;
pub mod memo;
pub mod merge;
pub mod merge_laws;
pub mod mount_laws;
pub mod name_laws;
pub mod nesting_laws;
pub mod node;
pub mod path;
pub mod path_laws;
pub mod pattern;
pub mod reading_laws;
pub mod repo;
pub mod select_laws;
pub mod step_laws;
pub mod storage_laws;
pub mod strip;
pub mod table;
pub mod text;
pub mod text_laws;
pub mod tree;
pub mod tree_laws;
pub mod values;
pub mod walk;
pub mod walk_laws;
