use vstd::prelude::*;

use crate::models::{SnapshotMetadata, SnapshotSummary};
use crate::utils::ranking::{
    arranges, is_ranking, is_sorted_copy, lemma_sorted_copy, rank, ranks_before, Ordered, Ranked,
};

verus! {

/// The mathematical value of a [`SnapshotRow`].
pub struct SnapshotRowView {
    pub id: i64,
    pub root: Seq<char>,
    pub timestamp: i64,
    pub git_commit_hash: Option<Seq<char>>,
}

/// One row of the table of snapshots, as it was read.
#[derive(Debug)]
pub struct SnapshotRow {
    pub id: i64,
    /// The root that the snapshot belongs to
    pub root: String,
    /// When the snapshot was taken, in seconds since the Unix epoch
    pub timestamp: i64,
    /// The commit that the snapshot was imported from, if any
    pub git_commit_hash: Option<String>,
}

impl View for SnapshotRow {
    type V = SnapshotRowView;

    open spec fn view(&self) -> SnapshotRowView {
        SnapshotRowView {
            id: self.id,
            root: self.root@,
            timestamp: self.timestamp,
            git_commit_hash: self.git_commit_hash.deep_view(),
        }
    }
}

impl DeepView for SnapshotRow {
    type V = SnapshotRowView;

    open spec fn deep_view(&self) -> SnapshotRowView {
        self@
    }
}

/// Whether the snapshot `(taken, id)` is newer than `(other_taken,
/// other_id)`: it was captured later, or at the same second under a higher
/// id.
pub open spec fn newer(taken: i64, id: i64, other_taken: i64, other_id: i64) -> bool {
    taken > other_taken || (taken == other_taken && id > other_id)
}

/// Whether position `i` of `rows` holds a snapshot of `root`. Roots match
/// only when they are the same text.
pub open spec fn of_root(rows: Seq<SnapshotRowView>, root: Seq<char>, i: int) -> bool {
    0 <= i < rows.len() && rows[i].root == root
}

/// Whether position `i` holds a snapshot of `root` than which no snapshot of
/// `root` is newer.
pub open spec fn newest_at(rows: Seq<SnapshotRowView>, root: Seq<char>, i: int) -> bool {
    &&& of_root(rows, root, i)
    &&& forall|j: int| #[trigger]
        of_root(rows, root, j) ==> !newer(
            rows[j].timestamp,
            rows[j].id,
            rows[i].timestamp,
            rows[i].id,
        )
}

/// Whether position `i` holds the newest of the snapshots of `root` that
/// stand elsewhere than at position `k`.
pub open spec fn newest_besides(
    rows: Seq<SnapshotRowView>,
    root: Seq<char>,
    k: int,
    i: int,
) -> bool {
    &&& of_root(rows, root, i)
    &&& i != k
    &&& forall|j: int| #[trigger]
        of_root(rows, root, j) && j != k ==> !newer(
            rows[j].timestamp,
            rows[j].id,
            rows[i].timestamp,
            rows[i].id,
        )
}

/// Whether `id` is the id of the newest snapshot of `root`.
pub open spec fn is_latest_id(rows: Seq<SnapshotRowView>, root: Seq<char>, id: i64) -> bool {
    exists|i: int| #[trigger] newest_at(rows, root, i) && rows[i].id == id
}

/// Whether `id` is the id of the second newest snapshot of `root`.
pub open spec fn is_penultimate_id(rows: Seq<SnapshotRowView>, root: Seq<char>, id: i64) -> bool {
    exists|k: int, i: int|
        newest_at(rows, root, k) && #[trigger] newest_besides(rows, root, k, i) && rows[i].id
            == id
}

/// Whether `root` has a snapshot among the rows.
pub open spec fn has_snapshot(rows: Seq<SnapshotRowView>, root: Seq<char>) -> bool {
    exists|i: int| of_root(rows, root, i)
}

/// Whether `root` has two snapshots or more among the rows.
pub open spec fn has_history(rows: Seq<SnapshotRowView>, root: Seq<char>) -> bool {
    exists|i: int, j: int| of_root(rows, root, i) && of_root(rows, root, j) && i != j
}

/// A root has one newest snapshot only.
pub proof fn lemma_latest_is_unique(rows: Seq<SnapshotRowView>, root: Seq<char>, one: i64, other: i64)
    requires
        is_latest_id(rows, root, one),
        is_latest_id(rows, root, other),
    ensures
        one == other,
{
    let i = choose|i: int| #[trigger] newest_at(rows, root, i) && rows[i].id == one;
    let j = choose|j: int| #[trigger] newest_at(rows, root, j) && rows[j].id == other;
    assert(of_root(rows, root, i) && of_root(rows, root, j));
}

/// A root has one second newest snapshot only.
pub proof fn lemma_penultimate_is_unique(
    rows: Seq<SnapshotRowView>,
    root: Seq<char>,
    one: i64,
    other: i64,
)
    requires
        is_penultimate_id(rows, root, one),
        is_penultimate_id(rows, root, other),
    ensures
        one == other,
{
    let (k, i) = choose|k: int, i: int|
        newest_at(rows, root, k) && #[trigger] newest_besides(rows, root, k, i) && rows[i].id
            == one;
    let (l, j) = choose|l: int, j: int|
        newest_at(rows, root, l) && #[trigger] newest_besides(rows, root, l, j) && rows[j].id
            == other;
    assert(of_root(rows, root, i) && of_root(rows, root, j));
    assert(of_root(rows, root, k) && of_root(rows, root, l));
}

/// Whether `place` names position `j`.
spec fn is_at(place: Option<usize>, j: int) -> bool {
    place is Some && place->0 == j
}

/// Whether `(taken, id)` is newer than `(other_taken, other_id)`.
fn is_newer(taken: i64, id: i64, other_taken: i64, other_id: i64) -> (yes: bool)
    ensures
        yes == newer(taken, id, other_taken, other_id),
{
    taken > other_taken || (taken == other_taken && id > other_id)
}

/// The position of the newest snapshot of `root` among the rows that are not
/// at position `skip`.
fn newest_position(rows: &[SnapshotRow], root: &String, skip: Option<usize>) -> (found: Option<
    usize,
>)
    ensures
        found is None <==> forall|j: int| #[trigger]
            of_root(rows.deep_view(), root@, j) ==> is_at(skip, j),
        found is Some ==> of_root(rows.deep_view(), root@, found->0 as int) && skip != found,
        found is Some ==> forall|j: int| #[trigger]
            of_root(rows.deep_view(), root@, j) && !is_at(skip, j) ==> !newer(
                rows[j].timestamp,
                rows[j].id,
                rows[found->0 as int].timestamp,
                rows[found->0 as int].id,
            ),
{
    let ghost all = rows.deep_view();
    let mut best: Option<usize> = None;
    let mut i: usize = 0;
    while i < rows.len()
        invariant
            i <= rows.len(),
            all == rows.deep_view(),
            best is None <==> forall|j: int| #[trigger]
                of_root(all, root@, j) && j < i ==> is_at(skip, j),
            best is Some ==> best->0 < i && of_root(all, root@, best->0 as int) && skip != best,
            best is Some ==> forall|j: int| #[trigger]
                of_root(all, root@, j) && j < i && !is_at(skip, j) ==> !newer(
                    rows[j].timestamp,
                    rows[j].id,
                    rows[best->0 as int].timestamp,
                    rows[best->0 as int].id,
                ),
        decreases rows.len() - i,
    {
        let skipped = match skip {
            Some(s) => s == i,
            None => false,
        };
        if !skipped && rows[i].root == *root {
            assert(of_root(all, root@, i as int));
            let better = match best {
                Some(b) => is_newer(rows[i].timestamp, rows[i].id, rows[b].timestamp, rows[b].id),
                None => true,
            };
            if better {
                best = Some(i);
            }
        }
        i += 1;
    }
    best
}

/// The id of the most recently captured snapshot of `root`; of those
/// captured in the same second, the one with the highest id.
pub fn get_latest_snapshot_id(rows: &[SnapshotRow], root: &str) -> (latest: Option<i64>)
    ensures
        latest is Some == has_snapshot(rows.deep_view(), root@),
        latest is Some ==> is_latest_id(rows.deep_view(), root@, latest->0),
{
    let wanted = root.to_owned();
    match newest_position(rows, &wanted, None) {
        Some(i) => {
            assert(newest_at(rows.deep_view(), root@, i as int));
            Some(rows[i].id)
        },
        None => None,
    }
}

/// The id of the second most recent snapshot of `root`. There is none where
/// `root` has fewer than two snapshots.
pub fn get_penultimate_snapshot_id(rows: &[SnapshotRow], root: &str) -> (second: Option<i64>)
    ensures
        second is Some == has_history(rows.deep_view(), root@),
        second is Some ==> is_penultimate_id(rows.deep_view(), root@, second->0),
{
    let wanted = root.to_owned();
    match newest_position(rows, &wanted, None) {
        Some(k) => {
            assert(newest_at(rows.deep_view(), root@, k as int));
            match newest_position(rows, &wanted, Some(k)) {
                Some(i) => {
                    assert forall|j: int| #[trigger]
                        of_root(rows.deep_view(), root@, j) && j != k implies !newer(
                        rows[j].timestamp,
                        rows[j].id,
                        rows[i as int].timestamp,
                        rows[i as int].id,
                    ) by {
                        assert(!is_at(Some(k), j));
                    }
                    assert(newest_besides(rows.deep_view(), root@, k as int, i as int));
                    Some(rows[i].id)
                },
                None => {
                    assert forall|i: int, j: int|
                        of_root(rows.deep_view(), root@, i) && of_root(
                            rows.deep_view(),
                            root@,
                            j,
                        ) implies i == j by {
                        assert(i == k);
                        assert(j == k);
                    }
                    None
                },
            }
        },
        None => None,
    }
}

/// Whether the rows hold a snapshot of `root` that was imported from
/// `commit`.
pub open spec fn is_imported(rows: Seq<SnapshotRowView>, root: Seq<char>, commit: Seq<char>) -> bool {
    exists|i: int| #[trigger] of_root(rows, root, i) && rows[i].git_commit_hash == Some(commit)
}

/// Whether a snapshot of `root` that was imported from the commit
/// `git_commit_hash` is among the rows.
pub fn snapshot_exists(rows: &[SnapshotRow], root: &str, git_commit_hash: &str) -> (found: bool)
    ensures
        found == is_imported(rows.deep_view(), root@, git_commit_hash@),
{
    let wanted = root.to_owned();
    let hash = git_commit_hash.to_owned();
    let mut i: usize = 0;
    while i < rows.len()
        invariant
            i <= rows.len(),
            wanted@ == root@,
            hash@ == git_commit_hash@,
            forall|j: int| #[trigger]
                of_root(rows.deep_view(), root@, j) && j < i ==> rows.deep_view()[j].git_commit_hash
                    != Some(hash@),
        decreases rows.len() - i,
    {
        if rows[i].root == wanted {
            let same = match &rows[i].git_commit_hash {
                Some(h) => *h == hash,
                None => false,
            };
            if same {
                assert(of_root(rows.deep_view(), root@, i as int));
                assert(rows.deep_view()[i as int].git_commit_hash == Some(git_commit_hash@));
                return true;
            }
        }
        i += 1;
    }
    false
}

impl Ordered for SnapshotSummary {
    /// Summaries are ranked from the newest to the oldest.
    open spec fn precedes(&self, other: &Self) -> bool {
        newer(self.timestamp, self.id, other.timestamp, other.id)
    }

    proof fn lemma_precedes_is_strict_weak(a: &Self, b: &Self, c: &Self) {
    }
}

impl Ordered for SnapshotMetadata {
    /// Summaries are ranked from the newest to the oldest.
    open spec fn precedes(&self, other: &Self) -> bool {
        newer(self.timestamp, self.id, other.timestamp, other.id)
    }

    proof fn lemma_precedes_is_strict_weak(a: &Self, b: &Self, c: &Self) {
    }
}

impl Ranked for SnapshotMetadata {
    fn comes_before(&self, other: &Self) -> (before: bool) {
        is_newer(self.timestamp, self.id, other.timestamp, other.id)
    }
}

/// The summaries of the snapshots of `root`, in the order of `rows`.
pub open spec fn summaries_of_root(rows: Seq<SnapshotSummary>, root: Seq<char>) -> Seq<
    SnapshotSummary,
>
    decreases rows.len(),
{
    if rows.len() == 0 {
        Seq::empty()
    } else if rows.last().root == root {
        summaries_of_root(rows.drop_last(), root).push(rows.last())
    } else {
        summaries_of_root(rows.drop_last(), root)
    }
}

/// Whether `listed` is `input` from the newest to the oldest; rows of the
/// same time and id keep their order.
pub open spec fn is_newest_first(input: Seq<SnapshotSummary>, listed: Seq<SnapshotSummary>) -> bool {
    is_sorted_copy(input, listed)
}

/// Whether no row of `listed` is newer than a row before it.
pub open spec fn never_gets_newer(listed: Seq<SnapshotSummary>) -> bool {
    forall|a: int, b: int|
        0 <= a < b < listed.len() ==> !newer(
            (#[trigger] listed[b]).timestamp,
            listed[b].id,
            (#[trigger] listed[a]).timestamp,
            listed[a].id,
        )
}

/// A listing from the newest to the oldest has the rows of its input, no
/// more and no fewer, and never gets newer.
pub proof fn lemma_newest_first(input: Seq<SnapshotSummary>, listed: Seq<SnapshotSummary>)
    requires
        is_newest_first(input, listed),
    ensures
        listed.len() == input.len(),
        never_gets_newer(listed),
        forall|r: SnapshotSummary| listed.contains(r) <==> input.contains(r),
{
    lemma_sorted_copy(input, listed);
    assert forall|a: int, b: int| 0 <= a < b < listed.len() implies !newer(
        (#[trigger] listed[b]).timestamp,
        listed[b].id,
        (#[trigger] listed[a]).timestamp,
        listed[a].id,
    ) by {
        assert(!listed[b].precedes(&listed[a]));
    }
}

/// Lists the snapshots of `root` from the newest to the oldest; of those
/// captured in the same second, the one with the highest id first.
pub fn list_snapshots_for_root(rows: &[SnapshotMetadata], root: &str) -> (listed: Vec<
    SnapshotMetadata,
>)
    ensures
        is_newest_first(summaries_of_root(rows.deep_view(), root@), listed.deep_view()),
        never_gets_newer(listed.deep_view()),
        forall|k: int| 0 <= k < listed.len() ==> (#[trigger] listed.deep_view()[k]).root == root@,
{
    let wanted = root.to_owned();
    let ghost all = rows.deep_view();
    let mut chosen: Vec<SnapshotMetadata> = Vec::new();
    let mut i: usize = 0;
    assert(all.take(0) =~= Seq::<SnapshotSummary>::empty());
    while i < rows.len()
        invariant
            i <= rows.len(),
            wanted@ == root@,
            all == rows.deep_view(),
            chosen.deep_view() == summaries_of_root(all.take(i as int), root@),
            forall|k: int| 0 <= k < chosen.len() ==> (#[trigger] chosen.deep_view()[k]).root == root@,
        decreases rows.len() - i,
    {
        proof {
            assert(all.take(i as int + 1).drop_last() =~= all.take(i as int));
            assert(all.take(i as int + 1).last() == rows[i as int]@);
        }
        if rows[i].root == wanted {
            let ghost earlier = chosen.deep_view();
            chosen.push(rows[i].clone());
            assert(chosen.deep_view() =~= earlier.push(rows[i as int]@));
        }
        i += 1;
    }
    assert(all.take(i as int) =~= all);
    let ghost input = chosen.deep_view();
    let order = rank(chosen.as_slice());
    let mut listed: Vec<SnapshotMetadata> = Vec::new();
    let mut k: usize = 0;
    while k < order.len()
        invariant
            k <= order.len(),
            input == chosen.deep_view(),
            is_ranking(chosen@, 0, chosen.len() as int, order@),
            listed.len() == k,
            forall|a: int| 0 <= a < k ==> #[trigger] listed.deep_view()[a] == input[order[a] as int],
        decreases order.len() - k,
    {
        let ghost earlier = listed.deep_view();
        listed.push(chosen[order[k]].clone());
        assert(listed.deep_view() =~= earlier.push(input[order[k as int] as int]));
        k += 1;
    }
    proof {
        assert forall|a: int, b: int| 0 <= a < b < order.len() implies ranks_before(
            input,
            #[trigger] order[a] as int,
            #[trigger] order[b] as int,
        ) by {
            assert(ranks_before(chosen@, order[a] as int, order[b] as int));
        }
        assert(arranges(input, order@, listed.deep_view()));
        lemma_newest_first(input, listed.deep_view());
    }
    listed
}

} // verus!
