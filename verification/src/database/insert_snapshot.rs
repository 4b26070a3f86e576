use vstd::prelude::*;
use vstd::string::StringExecFns;

use crate::database::compute_diff::{compute_diff, diff_against};
use crate::engine::diff::{
    hash_index, last_position, lemma_hash_index_lookup, lemma_nothing_after_the_last, paths_of,
};
use crate::models::{Diff, DiffView, FileMetadata, FileRecord, Snapshot};
use crate::utils::file_lister::{ascends_strictly, has_unique_paths, sort_by_path, sorted_by_path};
use crate::utils::path_order::lemma_path_before_is_total;
use crate::utils::ranking::{arranges, is_sorted_copy, lists, ranks_before};
use crate::utils::text::{decimal_text, push_decimal};

verus! {

/// The mathematical value of a [`FileRow`].
pub struct FileRowView {
    pub path: Seq<char>,
    pub bytes: i64,
    pub modified_at: Option<i64>,
    pub created_at: Option<i64>,
    pub accessed_at: Option<i64>,
    pub content_hash: Option<Seq<char>>,
}

/// One row of the table of files, without the id of its snapshot: the
/// store keeps a length as a signed integer and a time as seconds since the
/// Unix epoch or as null.
#[derive(Debug)]
pub struct FileRow {
    pub path: String,
    pub bytes: i64,
    pub modified_at: Option<i64>,
    pub created_at: Option<i64>,
    pub accessed_at: Option<i64>,
    pub content_hash: Option<String>,
}

impl View for FileRow {
    type V = FileRowView;

    open spec fn view(&self) -> FileRowView {
        FileRowView {
            path: self.path@,
            bytes: self.bytes,
            modified_at: self.modified_at,
            created_at: self.created_at,
            accessed_at: self.accessed_at,
            content_hash: self.content_hash.deep_view(),
        }
    }
}

impl DeepView for FileRow {
    type V = FileRowView;

    open spec fn deep_view(&self) -> FileRowView {
        self@
    }
}

/// A length as the store keeps it: the same 64 bits, read as a signed
/// integer.
pub open spec fn stored_length(bytes: u64) -> i64 {
    if bytes <= i64::MAX {
        bytes as i64
    } else {
        (bytes - 0x1_0000_0000_0000_0000) as i64
    }
}

/// The length that the store kept as `stored`.
pub open spec fn loaded_length(stored: i64) -> u64 {
    if stored >= 0 {
        stored as u64
    } else {
        (stored + 0x1_0000_0000_0000_0000) as u64
    }
}

/// A time as the store keeps it. A time before the Unix epoch is kept as
/// null, like a time that is not known.
pub open spec fn stored_time(time: Option<i64>) -> Option<i64> {
    match time {
        Some(seconds) => if seconds >= 0 {
            Some(seconds)
        } else {
            None
        },
        None => None,
    }
}

/// The row that a record is written as.
pub open spec fn row_of(record: FileRecord) -> FileRowView {
    FileRowView {
        path: record.path,
        bytes: stored_length(record.bytes),
        modified_at: stored_time(record.modified_at),
        created_at: stored_time(record.created_at),
        accessed_at: stored_time(record.accessed_at),
        content_hash: record.content_hash,
    }
}

/// The record that a row is read as.
pub open spec fn record_from(row: FileRowView) -> FileRecord {
    FileRecord {
        path: row.path,
        bytes: loaded_length(row.bytes),
        modified_at: row.modified_at,
        created_at: row.created_at,
        accessed_at: row.accessed_at,
        content_hash: row.content_hash,
    }
}

/// The rows that the records of a snapshot are written as, in order.
pub open spec fn rows_of(records: Seq<FileRecord>) -> Seq<FileRowView> {
    Seq::new(records.len(), |i: int| row_of(records[i]))
}

/// The records that rows are read as, in order.
pub open spec fn records_from(rows: Seq<FileRowView>) -> Seq<FileRecord> {
    Seq::new(rows.len(), |i: int| record_from(rows[i]))
}

/// A record that was written and read again has its path, its length and
/// its content hash as before, and its times unless they lay before the
/// Unix epoch.
pub proof fn lemma_row_round_trip(record: FileRecord)
    ensures
        record_from(row_of(record)) == (FileRecord {
            modified_at: stored_time(record.modified_at),
            created_at: stored_time(record.created_at),
            accessed_at: stored_time(record.accessed_at),
            ..record
        }),
{
}

/// Writing a record set and reading it again changes nothing that a diff
/// looks at.
pub proof fn lemma_stored_records_compare_alike(records: Seq<FileRecord>)
    ensures
        hash_index(records_from(rows_of(records))) == hash_index(records),
    decreases records.len(),
{
    let loaded = records_from(rows_of(records));
    if records.len() > 0 {
        lemma_stored_records_compare_alike(records.drop_last());
        assert(loaded.drop_last() =~= records_from(rows_of(records.drop_last())));
        lemma_row_round_trip(records.last());
    }
}

/// A sorted copy has a path exactly when its input has it, and then with
/// the hash of the same record.
proof fn lemma_sorting_keeps_a_path(input: Seq<FileRecord>, sorted: Seq<FileRecord>, p: Seq<char>)
    requires
        is_sorted_copy(input, sorted),
    ensures
        hash_index(sorted).dom().contains(p) == hash_index(input).dom().contains(p),
        hash_index(input).dom().contains(p) ==> hash_index(sorted)[p] == hash_index(input)[p],
{
    let order = choose|order: Seq<usize>| arranges(input, order, sorted);
    lemma_hash_index_lookup(input, p);
    lemma_hash_index_lookup(sorted, p);
    lemma_nothing_after_the_last(input, p);
    lemma_nothing_after_the_last(sorted, p);
    if last_position(sorted, p) is Some {
        let k = last_position(sorted, p)->0;
        assert(sorted[k] == input[order[k] as int]);
        assert(paths_of(input)[order[k] as int] == p);
    }
    if last_position(input, p) is Some {
        let i = last_position(input, p)->0;
        assert(lists(order, i));
        let at = choose|m: int| 0 <= m < order.len() && #[trigger] order[m] == i;
        assert(sorted[at] == input[i]);
        assert(paths_of(sorted)[at] == p);
        let k = last_position(sorted, p)->0;
        assert(sorted[k] == input[order[k] as int]);
        lemma_path_before_is_total(p, p, p);
        if at < k {
            assert(ranks_before(input, order[at] as int, order[k] as int));
            assert(input[order[k] as int].path == p);
        }
        if at > k {
            assert(sorted[at].path != p);
        }
    }
}

/// Sorting a record set by path changes nothing that a diff looks at: each
/// path keeps the hash of its last record.
pub proof fn lemma_sorting_keeps_the_index(input: Seq<FileRecord>, sorted: Seq<FileRecord>)
    requires
        is_sorted_copy(input, sorted),
    ensures
        hash_index(sorted) == hash_index(input),
{
    assert forall|p: Seq<char>|
        hash_index(sorted).dom().contains(p) == hash_index(input).dom().contains(p) by {
        lemma_sorting_keeps_a_path(input, sorted, p);
    }
    assert forall|p: Seq<char>| hash_index(input).dom().contains(p) implies hash_index(sorted)[p]
        == hash_index(input)[p] by {
        lemma_sorting_keeps_a_path(input, sorted, p);
    }
    assert(hash_index(sorted).dom() =~= hash_index(input).dom());
    assert(hash_index(sorted) =~= hash_index(input));
}

/// A record set that was written and read again compares as before, in
/// whatever order its rows were kept.
pub proof fn lemma_read_records_compare_alike(records: Seq<FileRecord>, read: Seq<FileRecord>)
    requires
        is_sorted_copy(records_from(rows_of(records)), read),
    ensures
        hash_index(read) == hash_index(records),
{
    lemma_stored_records_compare_alike(records);
    lemma_sorting_keeps_the_index(records_from(rows_of(records)), read);
}

fn store_time(time: Option<i64>) -> (stored: Option<i64>)
    ensures
        stored == stored_time(time),
{
    match time {
        Some(seconds) => if seconds >= 0 {
            Some(seconds)
        } else {
            None
        },
        None => None,
    }
}

fn clone_text(text: &Option<String>) -> (copy: Option<String>)
    ensures
        copy.deep_view() == text.deep_view(),
{
    match text {
        Some(t) => Some(t.clone()),
        None => None,
    }
}

/// The row that `file` is written as.
pub fn file_row(file: &FileMetadata) -> (row: FileRow)
    ensures
        row@ == row_of(file@),
{
    let bytes: i64 = if file.bytes <= 0x7fff_ffff_ffff_ffff {
        file.bytes as i64
    } else {
        ((file.bytes - 0x8000_0000_0000_0000) as i64) + i64::MIN
    };
    FileRow {
        path: file.path.clone(),
        bytes,
        modified_at: store_time(file.modified_at),
        created_at: store_time(file.created_at),
        accessed_at: store_time(file.accessed_at),
        content_hash: clone_text(&file.content_hash),
    }
}

/// The rows that the files of `snapshot` are written as. They are to be
/// written together with the row of the snapshot, in one transaction.
pub fn file_rows(snapshot: &Snapshot) -> (rows: Vec<FileRow>)
    ensures
        rows.deep_view() == rows_of(snapshot@.files),
{
    let mut rows: Vec<FileRow> = Vec::new();
    let mut i: usize = 0;
    while i < snapshot.files.len()
        invariant
            i <= snapshot.files.len(),
            rows.len() == i,
            forall|k: int| 0 <= k < i ==> #[trigger] rows.deep_view()[k] == row_of(snapshot@.files[k]),
        decreases snapshot.files.len() - i,
    {
        let ghost earlier = rows.deep_view();
        let row = file_row(&snapshot.files[i]);
        rows.push(row);
        assert(rows.deep_view() =~= earlier.push(row_of(snapshot@.files[i as int])));
        i += 1;
    }
    assert(rows.deep_view() =~= rows_of(snapshot@.files));
    rows
}

impl FileMetadata {
    /// The record that `row` is read as.
    pub fn from_row(row: &FileRow) -> (file: FileMetadata)
        ensures
            file@ == record_from(row@),
    {
        let bytes: u64 = if row.bytes >= 0 {
            row.bytes as u64
        } else {
            ((row.bytes - i64::MIN) as u64) + 0x8000_0000_0000_0000
        };
        FileMetadata {
            path: row.path.clone(),
            bytes,
            modified_at: row.modified_at,
            created_at: row.created_at,
            accessed_at: row.accessed_at,
            content_hash: clone_text(&row.content_hash),
        }
    }
}

/// The record set that the rows of one snapshot are read as: the records
/// of the rows, sorted by path, in whatever order the rows were stored or
/// read. Where the rows name no path twice, the paths ascend strictly.
pub fn get_files_for_snapshot(rows: &[FileRow]) -> (files: Vec<FileMetadata>)
    ensures
        is_sorted_copy(records_from(rows.deep_view()), files.deep_view()),
        sorted_by_path(files.deep_view()),
        has_unique_paths(records_from(rows.deep_view())) ==> has_unique_paths(files.deep_view()),
        has_unique_paths(records_from(rows.deep_view())) ==> ascends_strictly(files.deep_view()),
{
    let mut read: Vec<FileMetadata> = Vec::new();
    let mut i: usize = 0;
    while i < rows.len()
        invariant
            i <= rows.len(),
            read.len() == i,
            forall|k: int|
                0 <= k < i ==> #[trigger] read.deep_view()[k] == record_from(rows.deep_view()[k]),
        decreases rows.len() - i,
    {
        let ghost earlier = read.deep_view();
        let file = FileMetadata::from_row(&rows[i]);
        read.push(file);
        assert(read.deep_view() =~= earlier.push(record_from(rows.deep_view()[i as int])));
        i += 1;
    }
    assert(read.deep_view() =~= records_from(rows.deep_view()));
    sort_by_path(read.as_slice())
}

/// The lines that tell what a new snapshot changed: a heading, then one
/// line for each kind of change that occurred, with the number of paths.
pub open spec fn summary_of(diff: DiffView) -> Seq<Seq<char>> {
    let heading = seq!["Snapshot detected changes:"@];
    let added = if diff.added.len() > 0 {
        seq!["  + "@ + decimal_text(diff.added.len()) + " added files"@]
    } else {
        seq![]
    };
    let removed = if diff.removed.len() > 0 {
        seq!["  - "@ + decimal_text(diff.removed.len()) + " removed files"@]
    } else {
        seq![]
    };
    let modified = if diff.modified.len() > 0 {
        seq!["  * "@ + decimal_text(diff.modified.len()) + " modified files"@]
    } else {
        seq![]
    };
    heading + added + removed + modified
}

/// What is to be done with a fresh snapshot.
#[derive(Debug)]
pub struct StorePlan {
    /// What the snapshot changed against the newest stored one
    pub diff: Diff,
    /// Whether the snapshot is to be written; a snapshot that changed
    /// nothing is not
    pub store: bool,
    /// The lines to report, empty where nothing is written
    pub summary: Vec<String>,
}

/// One line of the summary.
fn summary_line(mark: &str, count: usize, what: &str) -> (line: String)
    ensures
        line@ == mark@ + decimal_text(count as nat) + what@,
{
    let mut line = String::from_str(mark);
    push_decimal(&mut line, count as u128);
    line.append(what);
    line
}

/// Decides whether a fresh snapshot is written to the store, given the
/// files of the newest stored snapshot of its root, and says what it
/// changed. A snapshot that changed nothing is not written.
pub fn store_snapshot(previous: Option<&Vec<FileMetadata>>, snapshot: &Snapshot) -> (plan: StorePlan)
    ensures
        plan.diff@ == diff_against(previous.deep_view(), snapshot@.files),
        plan.store == !plan.diff@.is_empty(),
        plan.store ==> plan.summary.deep_view() == summary_of(plan.diff@),
        !plan.store ==> plan.summary.deep_view() == Seq::<Seq<char>>::empty(),
{
    let diff = compute_diff(previous, snapshot.files.as_slice());
    let mut summary: Vec<String> = Vec::new();
    if diff.is_empty() {
        assert(summary.deep_view() =~= Seq::<Seq<char>>::empty());
        return StorePlan { diff, store: false, summary };
    }
    summary.push(String::from_str("Snapshot detected changes:"));
    if !diff.added.is_empty() {
        summary.push(summary_line("  + ", diff.added.len(), " added files"));
    }
    if !diff.removed.is_empty() {
        summary.push(summary_line("  - ", diff.removed.len(), " removed files"));
    }
    if !diff.modified.is_empty() {
        summary.push(summary_line("  * ", diff.modified.len(), " modified files"));
    }
    assert(summary.deep_view() =~= summary_of(diff@));
    StorePlan { diff, store: true, summary }
}

} // verus!
