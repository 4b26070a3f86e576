//! Chronicle records immutable snapshots of a directory tree and answers what
//! changed between any two of them, or between a snapshot and the live tree.
//!
//! This crate is the verified core: the data model, the diff engine, the
//! rules of the snapshot store, revision resolution and the pure part of the
//! git history import. Walking directories, talking to the database and
//! reading repositories is left to the caller, who hands in plain values.

pub mod database;
pub mod engine;
pub mod models;
pub mod output_formatter;
pub mod server;
pub mod utils;
