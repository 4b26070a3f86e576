//! What the visualization service hands out: snapshot summaries for a
//! timeline and the file tree of a snapshot.

pub mod tree;
pub use tree::{build_file_tree, ApiNode, TreeView};

use vstd::prelude::*;

use crate::models::{SnapshotMetadata, SnapshotSummary};

verus! {

/// The mathematical value of an [`ApiSnapshot`].
pub struct ApiSnapshotView {
    pub id: i64,
    pub timestamp: Seq<char>,
    pub files_count: i64,
    pub total_size: i64,
}

/// A snapshot on the timeline.
#[derive(Debug)]
pub struct ApiSnapshot {
    pub id: i64,
    /// ISO 8601 formatted string
    pub timestamp: String,
    pub files_count: i64,
    pub total_size: i64,
}

impl View for ApiSnapshot {
    type V = ApiSnapshotView;

    open spec fn view(&self) -> ApiSnapshotView {
        ApiSnapshotView {
            id: self.id,
            timestamp: self.timestamp@,
            files_count: self.files_count,
            total_size: self.total_size,
        }
    }
}

/// The time `seconds` after the Unix epoch, written in UTC as RFC 3339
/// has it, such as `2015-05-15T00:00:00+00:00`. There is none where the
/// time lies beyond the dates that can be written.
pub uninterp spec fn rfc3339_of(seconds: i64) -> Option<Seq<char>>;

/// `chrono::DateTime::<Utc>::from_timestamp` with no nanoseconds, then
/// `DateTime::to_rfc3339` on what it made: the date and time in UTC as
/// text, or nothing where the first refuses the number of seconds as out
/// of range.
#[verifier::external_body]
fn rfc3339_utc(seconds: i64) -> (text: Option<String>)
    ensures
        text.deep_view() == rfc3339_of(seconds),
{
    chrono::DateTime::<chrono::Utc>::from_timestamp(seconds, 0).map(|time| time.to_rfc3339())
}

/// The timeline entry of a snapshot whose time is written as `timestamp`.
pub open spec fn timeline_entry(summary: SnapshotSummary, timestamp: Seq<char>) -> ApiSnapshotView {
    ApiSnapshotView {
        id: summary.id,
        timestamp,
        files_count: summary.file_count,
        total_size: summary.total_size,
    }
}

/// The timeline entry of a snapshot, if its time can be written.
pub open spec fn api_snapshot_of(summary: SnapshotSummary) -> Option<ApiSnapshotView> {
    match rfc3339_of(summary.timestamp) {
        Some(timestamp) => Some(timeline_entry(summary, timestamp)),
        None => None,
    }
}

impl ApiSnapshot {
    /// The timeline entry of a snapshot, given its time as text.
    pub fn new(summary: &SnapshotMetadata, timestamp: String) -> (entry: ApiSnapshot)
        ensures
            entry@ == timeline_entry(summary@, timestamp@),
    {
        ApiSnapshot {
            id: summary.id,
            timestamp,
            files_count: summary.file_count,
            total_size: summary.total_size,
        }
    }

    /// The timeline entry of a snapshot, with its time in UTC. There is
    /// none for a snapshot whose time no date can express.
    pub fn from_metadata(summary: &SnapshotMetadata) -> (entry: Option<ApiSnapshot>)
        ensures
            entry is Some == api_snapshot_of(summary@) is Some,
            entry is Some ==> entry->0@ == api_snapshot_of(summary@)->0,
    {
        match rfc3339_utc(summary.timestamp) {
            Some(timestamp) => Some(ApiSnapshot::new(summary, timestamp)),
            None => None,
        }
    }
}

} // verus!
