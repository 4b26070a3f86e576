use vstd::prelude::*;
use vstd::string::StringExecFns;

use crate::database::insert_snapshot::loaded_length;
use crate::models::{SnapshotMetadata, SnapshotSummary};
use crate::utils::file_size::{format_size_auto, size_auto_text};
use crate::utils::text::{push_signed_decimal, signed_decimal_text};

verus! {

/// The headers of the table of snapshots.
pub open spec fn listing_headers() -> Seq<Seq<char>> {
    seq!["ID"@, "Timestamp"@, "Files"@, "Size"@]
}

/// The cells of one snapshot in the table of snapshots: its id, the time
/// it was taken at as the caller wrote it, the number of its files and
/// their total size in the largest unit that it fills.
pub open spec fn listing_cells(summary: SnapshotSummary, taken_at: Seq<char>) -> Seq<Seq<char>> {
    seq![
        signed_decimal_text(summary.id as int),
        taken_at,
        signed_decimal_text(summary.file_count as int),
        size_auto_text(loaded_length(summary.total_size)),
    ]
}

/// The headers of the table of snapshots.
pub fn snapshot_headers() -> (headers: Vec<String>)
    ensures
        headers.deep_view() == listing_headers(),
{
    let mut headers: Vec<String> = Vec::new();
    headers.push(String::from_str("ID"));
    headers.push(String::from_str("Timestamp"));
    headers.push(String::from_str("Files"));
    headers.push(String::from_str("Size"));
    assert(headers.deep_view() =~= listing_headers());
    headers
}

fn decimal(n: i64) -> (text: String)
    ensures
        text@ == signed_decimal_text(n as int),
{
    let mut text = String::new();
    push_signed_decimal(&mut text, n);
    assert(text@ =~= signed_decimal_text(n as int));
    text
}

/// The row of a snapshot in the table of snapshots, `taken_at` being the
/// time of the snapshot written for the reader.
pub fn snapshot_cells(summary: &SnapshotMetadata, taken_at: String) -> (cells: Vec<String>)
    ensures
        cells.deep_view() == listing_cells(summary@, taken_at@),
{
    let total: u64 = if summary.total_size >= 0 {
        summary.total_size as u64
    } else {
        ((summary.total_size - i64::MIN) as u64) + 0x8000_0000_0000_0000
    };
    let mut cells: Vec<String> = Vec::new();
    cells.push(decimal(summary.id));
    cells.push(taken_at);
    cells.push(decimal(summary.file_count));
    cells.push(format_size_auto(total));
    assert(cells.deep_view() =~= listing_cells(summary@, taken_at@));
    cells
}

} // verus!
