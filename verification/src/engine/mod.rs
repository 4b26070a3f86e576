//! The engine: comparing record sets, resolving revisions, assembling
//! snapshots, importing commit history.

pub mod diff;
pub mod git_sync;
pub mod revision;
pub mod snapshot;
