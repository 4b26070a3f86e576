use vstd::prelude::*;

use crate::models::{FileMetadata, FileRecord};
use crate::utils::path_order::{lemma_path_before_is_total, path_before, sorts_before};
use crate::utils::ranking::{
    arranges, is_ranking, is_sorted_copy, lemma_ranks_before_is_total, lemma_sorted_copy, rank,
    ranks_before, Ordered, Ranked,
};

verus! {

impl Ordered for FileRecord {
    /// Records are ranked by path.
    open spec fn precedes(&self, other: &Self) -> bool {
        path_before(self.path, other.path)
    }

    proof fn lemma_precedes_is_strict_weak(a: &Self, b: &Self, c: &Self) {
        lemma_path_before_is_total(a.path, b.path, c.path);
    }
}

impl Ordered for FileMetadata {
    /// Records are ranked by path.
    open spec fn precedes(&self, other: &Self) -> bool {
        path_before(self.path@, other.path@)
    }

    proof fn lemma_precedes_is_strict_weak(a: &Self, b: &Self, c: &Self) {
        lemma_path_before_is_total(a.path@, b.path@, c.path@);
    }
}

impl Ranked for FileMetadata {
    fn comes_before(&self, other: &Self) -> (before: bool) {
        sorts_before(self.path.as_str(), other.path.as_str())
    }
}

/// What a directory entry turned out to be.
#[derive(Clone, Copy, Debug, PartialEq, Eq, Structural)]
pub enum EntryKind {
    /// A regular file
    File,
    /// A directory
    Directory,
    /// A symbolic link
    Symlink,
    /// Anything else, or an entry whose kind could not be told
    Other,
}

/// What the platform told about a file.
#[derive(Clone, Copy, Debug)]
pub struct FileStat {
    /// The size of the file in bytes
    pub bytes: u64,
    pub modified_at: Option<i64>,
    pub created_at: Option<i64>,
    pub accessed_at: Option<i64>,
}

/// The mathematical value of a [`WalkEntry`].
pub struct WalkEntryView {
    pub path: Seq<char>,
    pub kind: EntryKind,
    pub stat: Option<FileStat>,
    pub content_hash: Option<Seq<char>>,
}

/// One entry that the walk of a directory tree came across.
#[derive(Debug)]
pub struct WalkEntry {
    /// The path of the entry, relative to the root of the walk
    pub path: String,
    pub kind: EntryKind,
    /// Absent where the entry could not be examined
    pub stat: Option<FileStat>,
    /// Absent where the content could not be hashed
    pub content_hash: Option<String>,
}

impl View for WalkEntry {
    type V = WalkEntryView;

    open spec fn view(&self) -> WalkEntryView {
        WalkEntryView {
            path: self.path@,
            kind: self.kind,
            stat: self.stat,
            content_hash: self.content_hash.deep_view(),
        }
    }
}

impl DeepView for WalkEntry {
    type V = WalkEntryView;

    open spec fn deep_view(&self) -> WalkEntryView {
        self@
    }
}

/// The record of a regular file: what could not be found out stays absent,
/// and a length that could not be found out counts as zero.
pub open spec fn record_of(entry: WalkEntryView) -> FileRecord {
    FileRecord {
        path: entry.path,
        bytes: match entry.stat {
            Some(stat) => stat.bytes,
            None => 0,
        },
        modified_at: match entry.stat {
            Some(stat) => stat.modified_at,
            None => None,
        },
        created_at: match entry.stat {
            Some(stat) => stat.created_at,
            None => None,
        },
        accessed_at: match entry.stat {
            Some(stat) => stat.accessed_at,
            None => None,
        },
        content_hash: entry.content_hash,
    }
}

/// The records of the regular files among `entries`, in the order of the
/// walk. Directories and symbolic links leave no record.
pub open spec fn records_of(entries: Seq<WalkEntryView>) -> Seq<FileRecord>
    decreases entries.len(),
{
    if entries.len() == 0 {
        Seq::empty()
    } else if entries.last().kind == EntryKind::File {
        records_of(entries.drop_last()).push(record_of(entries.last()))
    } else {
        records_of(entries.drop_last())
    }
}

/// Whether the paths of `records` never go down.
pub open spec fn sorted_by_path(records: Seq<FileRecord>) -> bool {
    forall|a: int, b: int|
        0 <= a < b < records.len() ==> !path_before(
            (#[trigger] records[b]).path,
            (#[trigger] records[a]).path,
        )
}

/// Whether no two records have the same path.
pub open spec fn has_unique_paths(records: Seq<FileRecord>) -> bool {
    forall|a: int, b: int|
        0 <= a < records.len() && 0 <= b < records.len() && a != b ==> (
        #[trigger] records[a]).path != (#[trigger] records[b]).path
}

/// Whether the paths of `records` go up from each record to every later
/// one. This is what makes a sequence of records a record set: sorted by
/// path, no path twice.
pub open spec fn ascends_strictly(records: Seq<FileRecord>) -> bool {
    forall|a: int, b: int|
        0 <= a < b < records.len() ==> path_before(
            (#[trigger] records[a]).path,
            (#[trigger] records[b]).path,
        )
}

/// Paths ascend strictly exactly when they never go down and none occurs
/// twice.
pub proof fn lemma_ascends_strictly(records: Seq<FileRecord>)
    ensures
        ascends_strictly(records) <==> sorted_by_path(records) && has_unique_paths(records),
{
    if ascends_strictly(records) {
        assert forall|a: int, b: int| 0 <= a < b < records.len() implies !path_before(
            (#[trigger] records[b]).path,
            (#[trigger] records[a]).path,
        ) by {
            lemma_path_before_is_total(records[a].path, records[b].path, records[a].path);
        }
        assert forall|a: int, b: int|
            0 <= a < records.len() && 0 <= b < records.len() && a != b implies (
        #[trigger] records[a]).path != (#[trigger] records[b]).path by {
            lemma_path_before_is_total(records[a].path, records[a].path, records[a].path);
            if a < b {
                assert(path_before(records[a].path, records[b].path));
            } else {
                assert(path_before(records[b].path, records[a].path));
            }
        }
    }
    if sorted_by_path(records) && has_unique_paths(records) {
        assert forall|a: int, b: int| 0 <= a < b < records.len() implies path_before(
            (#[trigger] records[a]).path,
            (#[trigger] records[b]).path,
        ) by {
            lemma_path_before_is_total(records[a].path, records[b].path, records[a].path);
            assert(!path_before(records[b].path, records[a].path));
            assert(records[a].path != records[b].path);
        }
    }
}

/// A sorted copy has the records of its input, no more and no fewer, with
/// paths that never go down; where the input has no path twice, neither has
/// the copy, and its paths ascend strictly.
pub proof fn lemma_sorted_records(input: Seq<FileRecord>, sorted: Seq<FileRecord>)
    requires
        is_sorted_copy(input, sorted),
    ensures
        sorted.len() == input.len(),
        sorted_by_path(sorted),
        forall|r: FileRecord| sorted.contains(r) <==> input.contains(r),
        has_unique_paths(input) ==> has_unique_paths(sorted),
        has_unique_paths(input) ==> ascends_strictly(sorted),
{
    let order = choose|order: Seq<usize>| arranges(input, order, sorted);
    lemma_sorted_copy(input, sorted);
    lemma_ascends_strictly(sorted);
    assert forall|a: int, b: int| 0 <= a < b < sorted.len() implies !path_before(
        (#[trigger] sorted[b]).path,
        (#[trigger] sorted[a]).path,
    ) by {
        assert(!sorted[b].precedes(&sorted[a]));
    }
    if has_unique_paths(input) {
        assert forall|a: int, b: int|
            0 <= a < sorted.len() && 0 <= b < sorted.len() && a != b implies (
        #[trigger] sorted[a]).path != (#[trigger] sorted[b]).path by {
            lemma_ranks_before_is_total(input, order[a] as int, order[b] as int, order[a] as int);
            if a < b {
                assert(ranks_before(input, order[a] as int, order[b] as int));
            } else {
                assert(ranks_before(input, order[b] as int, order[a] as int));
            }
            assert(order[a] != order[b]);
        }
    }
}

/// The ranking of records is the ranking of their values.
proof fn lemma_ranking_of_values(files: Seq<FileMetadata>, values: Seq<FileRecord>, order: Seq<usize>)
    requires
        is_ranking(files, 0, files.len() as int, order),
        values.len() == files.len(),
        forall|i: int| 0 <= i < files.len() ==> #[trigger] values[i] == files[i]@,
    ensures
        is_ranking(values, 0, values.len() as int, order),
{
    assert forall|a: int, b: int| 0 <= a < b < order.len() implies ranks_before(
        values,
        #[trigger] order[a] as int,
        #[trigger] order[b] as int,
    ) by {
        assert(ranks_before(files, order[a] as int, order[b] as int));
    }
}

/// Two record sets with the same records, sorted and without a path twice,
/// agree on their first `k` records.
proof fn lemma_sorted_sets_agree(x: Seq<FileRecord>, y: Seq<FileRecord>, k: int)
    requires
        x.len() == y.len(),
        sorted_by_path(x),
        sorted_by_path(y),
        has_unique_paths(x),
        has_unique_paths(y),
        forall|r: FileRecord| x.contains(r) <==> y.contains(r),
        0 <= k <= x.len(),
    ensures
        forall|i: int| 0 <= i < k ==> x[i] == y[i],
    decreases k,
{
    if k > 0 {
        let m = k - 1;
        lemma_sorted_sets_agree(x, y, m);
        assert(x.contains(x[m]));
        assert(y.contains(y[m]));
        let j = choose|j: int| 0 <= j < y.len() && y[j] == x[m];
        let i = choose|i: int| 0 <= i < x.len() && x[i] == y[m];
        if j < m {
            assert(x[j].path == x[m].path);
        }
        if i < m {
            assert(y[i].path == y[m].path);
        }
        lemma_path_before_is_total(x[m].path, y[m].path, x[m].path);
        if i > m {
            assert(!path_before(x[i].path, x[m].path));
        }
        if j > m {
            assert(!path_before(y[j].path, y[m].path));
        }
        if i != m {
            assert(x[i].path == x[m].path);
        }
    }
}

/// The order in which a walk comes across the files does not show in the
/// result: two walks that found the same files, none under a path twice,
/// sort to the same sequence of records.
pub proof fn lemma_walk_order_is_forgotten(
    first: Seq<FileRecord>,
    second: Seq<FileRecord>,
    first_sorted: Seq<FileRecord>,
    second_sorted: Seq<FileRecord>,
)
    requires
        first.to_multiset() == second.to_multiset(),
        has_unique_paths(first),
        has_unique_paths(second),
        is_sorted_copy(first, first_sorted),
        is_sorted_copy(second, second_sorted),
    ensures
        first_sorted == second_sorted,
{
    broadcast use vstd::seq_lib::to_multiset_len, vstd::seq_lib::to_multiset_contains;

    lemma_sorted_records(first, first_sorted);
    lemma_sorted_records(second, second_sorted);
    assert(first.len() == first.to_multiset().len());
    assert(second.len() == second.to_multiset().len());
    assert forall|r: FileRecord| first_sorted.contains(r) <==> second_sorted.contains(r) by {
        assert(first.contains(r) <==> first.to_multiset().count(r) > 0);
        assert(second.contains(r) <==> second.to_multiset().count(r) > 0);
    }
    lemma_sorted_sets_agree(first_sorted, second_sorted, first_sorted.len() as int);
    assert(first_sorted =~= second_sorted);
}

/// Sorts records by path. Records with the same path stay in the order
/// they came in.
pub fn sort_by_path(files: &[FileMetadata]) -> (sorted: Vec<FileMetadata>)
    ensures
        is_sorted_copy(files.deep_view(), sorted.deep_view()),
        sorted.len() == files.len(),
        sorted_by_path(sorted.deep_view()),
        forall|r: FileRecord| sorted.deep_view().contains(r) <==> files.deep_view().contains(r),
        has_unique_paths(files.deep_view()) ==> has_unique_paths(sorted.deep_view()),
        has_unique_paths(files.deep_view()) ==> ascends_strictly(sorted.deep_view()),
{
    let order = rank(files);
    let ghost input = files.deep_view();
    let mut sorted: Vec<FileMetadata> = Vec::new();
    let mut k: usize = 0;
    while k < order.len()
        invariant
            k <= order.len(),
            input == files.deep_view(),
            is_ranking(files@, 0, files.len() as int, order@),
            sorted.len() == k,
            forall|a: int| 0 <= a < k ==> #[trigger] sorted.deep_view()[a] == input[order[a] as int],
        decreases order.len() - k,
    {
        let ghost earlier = sorted.deep_view();
        sorted.push(files[order[k]].clone());
        assert(sorted.deep_view() =~= earlier.push(input[order[k as int] as int]));
        k += 1;
    }
    proof {
        lemma_ranking_of_values(files@, input, order@);
        assert(arranges(input, order@, sorted.deep_view()));
        lemma_sorted_records(input, sorted.deep_view());
    }
    sorted
}

/// Decides whether records form a record set: whether their paths ascend
/// strictly.
pub fn is_record_set(files: &[FileMetadata]) -> (yes: bool)
    ensures
        yes == ascends_strictly(files.deep_view()),
{
    let ghost records = files.deep_view();
    let mut i: usize = 1;
    while i < files.len()
        invariant
            1 <= i,
            records == files.deep_view(),
            forall|a: int, b: int|
                0 <= a < b < i && b < records.len() ==> path_before(
                    (#[trigger] records[a]).path,
                    (#[trigger] records[b]).path,
                ),
        decreases files.len() - i,
    {
        if !sorts_before(files[i - 1].path.as_str(), files[i].path.as_str()) {
            assert(!path_before(records[i - 1].path, records[i as int].path));
            return false;
        }
        proof {
            assert forall|a: int, b: int| 0 <= a < b < i + 1 && b < records.len() implies path_before(
                (#[trigger] records[a]).path,
                (#[trigger] records[b]).path,
            ) by {
                if b == i && a < i - 1 {
                    assert(path_before(records[a].path, records[i - 1].path));
                    lemma_path_before_is_total(
                        records[a].path,
                        records[i - 1].path,
                        records[i as int].path,
                    );
                }
            }
        }
        i += 1;
    }
    true
}

/// Turns the entries of a walk into the record set of the tree: one record
/// for each regular file, sorted by path. Where the walk names no path
/// twice, as on any directory, the paths ascend strictly.
pub fn list_files_with_metadata(entries: &[WalkEntry]) -> (files: Vec<FileMetadata>)
    ensures
        is_sorted_copy(records_of(entries.deep_view()), files.deep_view()),
        sorted_by_path(files.deep_view()),
        has_unique_paths(records_of(entries.deep_view())) ==> has_unique_paths(files.deep_view()),
        has_unique_paths(records_of(entries.deep_view())) ==> ascends_strictly(files.deep_view()),
{
    let ghost walked = entries.deep_view();
    let mut found: Vec<FileMetadata> = Vec::new();
    let mut i: usize = 0;
    assert(walked.take(0) =~= Seq::<WalkEntryView>::empty());
    while i < entries.len()
        invariant
            i <= entries.len(),
            walked == entries.deep_view(),
            found.deep_view() == records_of(walked.take(i as int)),
        decreases entries.len() - i,
    {
        let entry = &entries[i];
        proof {
            assert(walked.take(i as int + 1).drop_last() =~= walked.take(i as int));
            assert(walked.take(i as int + 1).last() == entry@);
        }
        if entry.kind == EntryKind::File {
            let record = match entry.stat {
                Some(stat) => FileMetadata {
                    path: entry.path.clone(),
                    bytes: stat.bytes,
                    modified_at: stat.modified_at,
                    created_at: stat.created_at,
                    accessed_at: stat.accessed_at,
                    content_hash: clone_hash(&entry.content_hash),
                },
                None => FileMetadata {
                    path: entry.path.clone(),
                    bytes: 0,
                    modified_at: None,
                    created_at: None,
                    accessed_at: None,
                    content_hash: clone_hash(&entry.content_hash),
                },
            };
            let ghost earlier = found.deep_view();
            assert(record@ == record_of(entry@));
            found.push(record);
            assert(found.deep_view() =~= earlier.push(record_of(entry@)));
        }
        i += 1;
    }
    assert(walked.take(i as int) =~= walked);
    sort_by_path(found.as_slice())
}

/// A copy of an optional hash.
fn clone_hash(hash: &Option<String>) -> (copy: Option<String>)
    ensures
        copy.deep_view() == hash.deep_view(),
{
    match hash {
        Some(h) => Some(h.clone()),
        None => None,
    }
}

} // verus!
