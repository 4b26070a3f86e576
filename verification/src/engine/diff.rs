use vstd::prelude::*;

use crate::models::{Diff, DiffView, FileMetadata, FileRecord};
use crate::utils::path_order::{lemma_path_before_is_total, path_before, sorts_before};
use crate::utils::ranking::{is_ranking, lists, rank, ranks_before};

verus! {

/// A record set read as a map from path to content hash. Where a path occurs
/// more than once, the last record decides.
pub open spec fn hash_index(files: Seq<FileRecord>) -> Map<Seq<char>, Option<Seq<char>>>
    decreases files.len(),
{
    if files.len() == 0 {
        Map::empty()
    } else {
        hash_index(files.drop_last()).insert(files.last().path, files.last().content_hash)
    }
}

/// The paths of a record set, in the order of its records.
pub open spec fn paths_of(files: Seq<FileRecord>) -> Seq<Seq<char>> {
    Seq::new(files.len(), |i: int| files[i].path)
}

/// The kind of change that a path went through.
#[derive(Clone, Copy, Debug, PartialEq, Eq, Structural)]
pub enum Change {
    Added,
    Removed,
    Modified,
}

/// The paths that went through `change` from `before` to `after`.
///
/// Added paths are in `after` only, removed paths in `before` only. A path
/// is modified when it is in both with different hashes; an absent hash
/// differs from every hash and equals only another absent hash.
pub open spec fn changed_paths(
    change: Change,
    before: Map<Seq<char>, Option<Seq<char>>>,
    after: Map<Seq<char>, Option<Seq<char>>>,
) -> Set<Seq<char>> {
    match change {
        Change::Added => Set::new(|p: Seq<char>| after.dom().contains(p) && !before.dom().contains(p)),
        Change::Removed => Set::new(
            |p: Seq<char>| before.dom().contains(p) && !after.dom().contains(p),
        ),
        Change::Modified => Set::new(
            |p: Seq<char>|
                before.dom().contains(p) && after.dom().contains(p) && before[p] != after[p],
        ),
    }
}

/// The paths of `paths` that are in `wanted`, each once, in the order in
/// which they first occur.
pub open spec fn pick_distinct(paths: Seq<Seq<char>>, wanted: Set<Seq<char>>) -> Seq<Seq<char>>
    decreases paths.len(),
{
    if paths.len() == 0 {
        Seq::empty()
    } else {
        let earlier = pick_distinct(paths.drop_last(), wanted);
        let p = paths.last();
        if wanted.contains(p) && !earlier.contains(p) {
            earlier.push(p)
        } else {
            earlier
        }
    }
}

/// The difference between two record sets.
///
/// Added paths come in the order of `after`, removed and modified paths in
/// the order of `before`.
pub open spec fn diff_of(before: Seq<FileRecord>, after: Seq<FileRecord>) -> DiffView {
    let old_index = hash_index(before);
    let new_index = hash_index(after);
    DiffView {
        added: pick_distinct(paths_of(after), changed_paths(Change::Added, old_index, new_index)),
        removed: pick_distinct(
            paths_of(before),
            changed_paths(Change::Removed, old_index, new_index),
        ),
        modified: pick_distinct(
            paths_of(before),
            changed_paths(Change::Modified, old_index, new_index),
        ),
    }
}

/// The list of a diff that holds the paths of one kind of change.
pub open spec fn listed(diff: DiffView, change: Change) -> Seq<Seq<char>> {
    match change {
        Change::Added => diff.added,
        Change::Removed => diff.removed,
        Change::Modified => diff.modified,
    }
}

/// The position of the last record with the given path.
pub open spec fn last_position(files: Seq<FileRecord>, path: Seq<char>) -> Option<int>
    decreases files.len(),
{
    if files.len() == 0 {
        None
    } else if files.last().path == path {
        Some(files.len() - 1)
    } else {
        last_position(files.drop_last(), path)
    }
}

/// The index holds a path exactly when some record has it, and then with the
/// hash of the last such record.
pub proof fn lemma_hash_index_lookup(files: Seq<FileRecord>, path: Seq<char>)
    ensures
        hash_index(files).dom().contains(path) <==> last_position(files, path) is Some,
        hash_index(files).dom().contains(path) <==> paths_of(files).contains(path),
        last_position(files, path) matches Some(k) ==> (0 <= k < files.len() && files[k].path
            == path && hash_index(files)[path] == files[k].content_hash),
    decreases files.len(),
{
    if files.len() > 0 {
        let front = files.drop_last();
        lemma_hash_index_lookup(front, path);
        if files.last().path == path {
            assert(paths_of(files)[files.len() - 1] == path);
        } else if paths_of(front).contains(path) {
            let k = choose|k: int| 0 <= k < front.len() && paths_of(front)[k] == path;
            assert(paths_of(files)[k] == path);
        } else if paths_of(files).contains(path) {
            let k = choose|k: int| 0 <= k < files.len() && paths_of(files)[k] == path;
            assert(paths_of(front)[k] == path);
        }
    }
}

/// `pick_distinct` names no path twice, and names exactly the paths of
/// `paths` that are wanted.
pub proof fn lemma_pick_distinct(paths: Seq<Seq<char>>, wanted: Set<Seq<char>>)
    ensures
        pick_distinct(paths, wanted).no_duplicates(),
        forall|p: Seq<char>|
            #![trigger pick_distinct(paths, wanted).contains(p)]
            #![trigger paths.contains(p)]
            pick_distinct(paths, wanted).contains(p) <==> paths.contains(p) && wanted.contains(p),
    decreases paths.len(),
{
    let picked = pick_distinct(paths, wanted);
    if paths.len() > 0 {
        let front = paths.drop_last();
        let earlier = pick_distinct(front, wanted);
        let last = paths.last();
        lemma_pick_distinct(front, wanted);
        assert forall|p: Seq<char>|
            #![trigger picked.contains(p)]
            #![trigger paths.contains(p)]
            picked.contains(p) <==> paths.contains(p) && wanted.contains(p) by {
            if picked.contains(p) {
                let k = choose|k: int| 0 <= k < picked.len() && picked[k] == p;
                if k < earlier.len() {
                    assert(earlier[k] == p);
                    assert(earlier.contains(p));
                    let j = choose|j: int| 0 <= j < front.len() && front[j] == p;
                    assert(paths[j] == p);
                } else {
                    assert(p == last);
                    assert(paths[paths.len() - 1] == p);
                }
            }
            if paths.contains(p) && wanted.contains(p) {
                let j = choose|j: int| 0 <= j < paths.len() && paths[j] == p;
                if j < front.len() {
                    assert(front[j] == p);
                    assert(front.contains(p));
                    let k = choose|k: int| 0 <= k < earlier.len() && earlier[k] == p;
                    assert(picked[k] == p);
                } else {
                    assert(p == last);
                    if earlier.contains(p) {
                        let k = choose|k: int| 0 <= k < earlier.len() && earlier[k] == p;
                        assert(picked[k] == p);
                    } else {
                        assert(picked[picked.len() - 1] == p);
                    }
                }
            }
        }
    }
}

/// Each list of a diff names exactly the paths that went through its kind of
/// change, each once, and the three lists share no path.
pub proof fn lemma_diff_lists(before: Seq<FileRecord>, after: Seq<FileRecord>)
    ensures
        diff_of(before, after).is_partition(),
        forall|change: Change, p: Seq<char>|
            #![trigger listed(diff_of(before, after), change).contains(p)]
            listed(diff_of(before, after), change).contains(p) <==> changed_paths(
                change,
                hash_index(before),
                hash_index(after),
            ).contains(p),
{
    let old_index = hash_index(before);
    let new_index = hash_index(after);
    let diff = diff_of(before, after);
    lemma_pick_distinct(paths_of(after), changed_paths(Change::Added, old_index, new_index));
    lemma_pick_distinct(paths_of(before), changed_paths(Change::Removed, old_index, new_index));
    lemma_pick_distinct(paths_of(before), changed_paths(Change::Modified, old_index, new_index));
    assert forall|change: Change, p: Seq<char>|
        #![trigger listed(diff, change).contains(p)]
        listed(diff, change).contains(p) <==> changed_paths(
            change,
            old_index,
            new_index,
        ).contains(p) by {
        lemma_hash_index_lookup(before, p);
        lemma_hash_index_lookup(after, p);
    }
    assert forall|p: Seq<char>| !(diff.added.contains(p) && diff.removed.contains(p)) by {
        assert(listed(diff, Change::Added) == diff.added);
        assert(listed(diff, Change::Removed) == diff.removed);
    }
    assert forall|p: Seq<char>| !(diff.added.contains(p) && diff.modified.contains(p)) by {
        assert(listed(diff, Change::Added) == diff.added);
        assert(listed(diff, Change::Modified) == diff.modified);
    }
    assert forall|p: Seq<char>| !(diff.removed.contains(p) && diff.modified.contains(p)) by {
        assert(listed(diff, Change::Removed) == diff.removed);
        assert(listed(diff, Change::Modified) == diff.modified);
    }
}

/// Comparing a record set with itself finds no change.
pub proof fn lemma_diff_identity(files: Seq<FileRecord>)
    ensures
        diff_of(files, files).is_empty(),
{
    let diff = diff_of(files, files);
    lemma_diff_lists(files, files);
    if diff.added.len() > 0 {
        assert(listed(diff, Change::Added).contains(diff.added[0]));
    }
    if diff.removed.len() > 0 {
        assert(listed(diff, Change::Removed).contains(diff.removed[0]));
    }
    if diff.modified.len() > 0 {
        assert(listed(diff, Change::Modified).contains(diff.modified[0]));
    }
}

/// A path that only one of the two record sets has stands in exactly one of
/// `added` and `removed`, and no path stands in more than one of the three
/// lists.
pub proof fn lemma_diff_partition(before: Seq<FileRecord>, after: Seq<FileRecord>)
    ensures
        diff_of(before, after).is_partition(),
        forall|p: Seq<char>|
            #![trigger paths_of(before).contains(p)]
            #![trigger paths_of(after).contains(p)]
            paths_of(before).contains(p) != paths_of(after).contains(p) ==> (diff_of(
                before,
                after,
            ).added.contains(p) != diff_of(before, after).removed.contains(p) && !diff_of(
                before,
                after,
            ).modified.contains(p)),
{
    let diff = diff_of(before, after);
    lemma_diff_lists(before, after);
    assert forall|p: Seq<char>|
        #![trigger paths_of(before).contains(p)]
        #![trigger paths_of(after).contains(p)]
        paths_of(before).contains(p) != paths_of(after).contains(p) implies {
        &&& diff.added.contains(p) != diff.removed.contains(p)
        &&& !diff.modified.contains(p)
    } by {
        lemma_hash_index_lookup(before, p);
        lemma_hash_index_lookup(after, p);
        assert(listed(diff, Change::Added).contains(p) == diff.added.contains(p));
        assert(listed(diff, Change::Removed).contains(p) == diff.removed.contains(p));
        assert(listed(diff, Change::Modified).contains(p) == diff.modified.contains(p));
    }
}

/// Whether two optional hashes are the same value.
fn same_hash(a: &Option<String>, b: &Option<String>) -> (same: bool)
    ensures
        same == (a.deep_view() == b.deep_view()),
{
    match (a, b) {
        (Some(x), Some(y)) => *x == *y,
        (None, None) => true,
        _ => false,
    }
}

/// The path of the record that `order` puts at place `m`.
spec fn path_at(files: Seq<FileMetadata>, order: Seq<usize>, m: int) -> Seq<char> {
    files[order[m] as int].path@
}

/// Whether the path `q` lies below `p`: before it, or also at it where
/// `inclusive` is set.
spec fn lies_below(q: Seq<char>, p: Seq<char>, inclusive: bool) -> bool {
    if inclusive {
        !path_before(p, q)
    } else {
        path_before(q, p)
    }
}

/// Along a ranking the paths never go down, and records with the same path
/// keep their order.
proof fn lemma_ranking_is_sorted(files: Seq<FileMetadata>, order: Seq<usize>, a: int, b: int)
    requires
        is_ranking(files, 0, files.len() as int, order),
        0 <= a <= b < order.len(),
    ensures
        !path_before(path_at(files, order, b), path_at(files, order, a)),
        a < b && path_at(files, order, a) == path_at(files, order, b) ==> order[a] < order[b],
        a < b ==> order[a] != order[b],
{
    let p = path_at(files, order, a);
    let q = path_at(files, order, b);
    lemma_path_before_is_total(p, q, p);
    if a < b {
        assert(ranks_before(files, order[a] as int, order[b] as int));
    }
}

/// After the last record with a path no record has that path.
pub proof fn lemma_nothing_after_the_last(files: Seq<FileRecord>, path: Seq<char>)
    ensures
        forall|j: int|
            last_position(files, path) is Some && last_position(files, path)->0 < j < files.len()
                ==> (#[trigger] files[j]).path != path,
    decreases files.len(),
{
    if files.len() > 0 && files.last().path != path {
        let front = files.drop_last();
        lemma_nothing_after_the_last(front, path);
        lemma_hash_index_lookup(front, path);
        assert forall|j: int|
            last_position(files, path) is Some && last_position(files, path)->0 < j
                < files.len() implies (#[trigger] files[j]).path != path by {
            if j < front.len() {
                assert(front[j] == files[j]);
            }
        }
    } else if files.len() > 0 {
        assert(last_position(files, path) == Some(files.len() - 1));
    }
}

/// The position of the last record with a path is the greatest position
/// with that path.
proof fn lemma_last_position_is_greatest(files: Seq<FileRecord>, path: Seq<char>, k: int)
    requires
        0 <= k < files.len(),
        files[k].path == path,
        forall|j: int| k < j < files.len() ==> (#[trigger] files[j]).path != path,
    ensures
        last_position(files, path) == Some(k),
    decreases files.len(),
{
    if files.len() - 1 > k {
        lemma_last_position_is_greatest(files.drop_last(), path, k);
    }
}

/// No record has the path: no position is the last with it.
proof fn lemma_last_position_of_none(files: Seq<FileRecord>, path: Seq<char>)
    requires
        forall|j: int| 0 <= j < files.len() ==> (#[trigger] files[j]).path != path,
    ensures
        last_position(files, path) is None,
    decreases files.len(),
{
    if files.len() > 0 {
        lemma_last_position_of_none(files.drop_last(), path);
    }
}

/// Counts, by bisection, the records whose path lies below `path` in a
/// ranking of `files`.
fn count_below(files: &[FileMetadata], order: &Vec<usize>, path: &str, inclusive: bool) -> (k:
    usize)
    requires
        is_ranking(files@, 0, files.len() as int, order@),
    ensures
        k <= order.len(),
        forall|m: int| 0 <= m < k ==> lies_below(#[trigger] path_at(files@, order@, m), path@, inclusive),
        forall|m: int|
            k <= m < order.len() ==> !lies_below(
                #[trigger] path_at(files@, order@, m),
                path@,
                inclusive,
            ),
{
    let mut lo: usize = 0;
    let mut hi: usize = order.len();
    while lo < hi
        invariant
            lo <= hi <= order.len(),
            is_ranking(files@, 0, files.len() as int, order@),
            forall|m: int|
                0 <= m < lo ==> lies_below(#[trigger] path_at(files@, order@, m), path@, inclusive),
            forall|m: int|
                hi <= m < order.len() ==> !lies_below(
                    #[trigger] path_at(files@, order@, m),
                    path@,
                    inclusive,
                ),
        decreases hi - lo,
    {
        let mid = lo + (hi - lo) / 2;
        let other = files[order[mid]].path.as_str();
        let below = if inclusive {
            !sorts_before(path, other)
        } else {
            sorts_before(other, path)
        };
        let ghost q = path_at(files@, order@, mid as int);
        if below {
            proof {
                assert forall|m: int| 0 <= m < mid + 1 implies lies_below(
                    #[trigger] path_at(files@, order@, m),
                    path@,
                    inclusive,
                ) by {
                    lemma_ranking_is_sorted(files@, order@, m, mid as int);
                    lemma_path_before_is_total(path@, q, path_at(files@, order@, m));
                    lemma_path_before_is_total(q, path_at(files@, order@, m), path@);
                }
            }
            lo = mid + 1;
        } else {
            proof {
                assert forall|m: int| mid <= m < order.len() implies !lies_below(
                    #[trigger] path_at(files@, order@, m),
                    path@,
                    inclusive,
                ) by {
                    lemma_ranking_is_sorted(files@, order@, mid as int, m);
                    lemma_path_before_is_total(path@, path_at(files@, order@, m), q);
                    lemma_path_before_is_total(path_at(files@, order@, m), q, path@);
                }
            }
            hi = mid;
        }
    }
    lo
}

/// Finds the last record of `files` with the given path, in a ranking of
/// the records.
fn find_last(files: &[FileMetadata], order: &Vec<usize>, path: &str) -> (found: Option<usize>)
    requires
        is_ranking(files@, 0, files.len() as int, order@),
    ensures
        found is Some ==> last_position(files.deep_view(), path@) == Some(found->0 as int),
        found is None ==> last_position(files.deep_view(), path@) is None,
{
    let ghost records = files.deep_view();
    let k = count_below(files, order, path, true);
    if k > 0 && !sorts_before(files[order[k - 1]].path.as_str(), path) {
        let j = order[k - 1];
        proof {
            lemma_path_before_is_total(path@, records[j as int].path, path@);
            assert(lies_below(path_at(files@, order@, k - 1), path@, true));
            assert forall|t: int| j < t < records.len() implies (#[trigger] records[t]).path
                != path@ by {
                if records[t].path == path@ {
                    assert(lists(order@, t));
                    let m = choose|m: int| 0 <= m < order.len() && #[trigger] order[m] == t;
                    lemma_path_before_is_total(path@, path@, path@);
                    assert(lies_below(path_at(files@, order@, m), path@, true));
                    lemma_ranking_is_sorted(files@, order@, m, k - 1);
                }
            }
            lemma_last_position_is_greatest(records, path@, j as int);
        }
        Some(j)
    } else {
        proof {
            assert forall|t: int| 0 <= t < records.len() implies (#[trigger] records[t]).path
                != path@ by {
                if records[t].path == path@ {
                    assert(lists(order@, t));
                    let m = choose|m: int| 0 <= m < order.len() && #[trigger] order[m] == t;
                    lemma_path_before_is_total(path@, path@, path@);
                    assert(lies_below(path_at(files@, order@, m), path@, true));
                    lemma_ranking_is_sorted(files@, order@, m, k - 1);
                }
            }
            lemma_last_position_of_none(records, path@);
        }
        None
    }
}

/// Whether a record before position `i` of `files` has the same path as
/// the record at `i`, decided in a ranking of the records.
fn occurs_earlier(files: &[FileMetadata], order: &Vec<usize>, i: usize) -> (earlier: bool)
    requires
        is_ranking(files@, 0, files.len() as int, order@),
        i < files.len(),
    ensures
        earlier == paths_of(files.deep_view()).take(i as int).contains(files[i as int].path@),
{
    let ghost records = files.deep_view();
    let ghost paths = paths_of(records);
    let path = files[i].path.as_str();
    let k = count_below(files, order, path, false);
    proof {
        lemma_path_before_is_total(path@, path@, path@);
        assert(lists(order@, i as int));
        let at = choose|m: int| 0 <= m < order.len() && #[trigger] order[m] == i;
        assert(!lies_below(path_at(files@, order@, at), path@, false));
        assert(k <= at);
    }
    let first = order[k];
    proof {
        let at = choose|m: int| 0 <= m < order.len() && #[trigger] order[m] == i;
        lemma_ranking_is_sorted(files@, order@, k as int, at);
        assert(!lies_below(path_at(files@, order@, k as int), path@, false));
        lemma_path_before_is_total(records[first as int].path, path@, path@);
        assert(records[first as int].path == path@);
        if first < i {
            assert(paths.take(i as int)[first as int] == path@);
        } else {
            assert(first == i) by {
                if k < at {
                    lemma_ranking_is_sorted(files@, order@, k as int, at);
                }
            }
            if paths.take(i as int).contains(path@) {
                let t = choose|t: int| 0 <= t < i && paths.take(i as int)[t] == path@;
                assert(lists(order@, t));
                let m = choose|m: int| 0 <= m < order.len() && #[trigger] order[m] == t;
                assert(!lies_below(path_at(files@, order@, m), path@, false));
                assert(m >= k);
                if m > k {
                    lemma_ranking_is_sorted(files@, order@, k as int, m);
                }
            }
        }
    }
    first < i
}

/// Decides whether `path` went through `change` between the two record
/// sets, each given with a ranking of its records.
fn went_through(
    change: Change,
    before: &[FileMetadata],
    before_order: &Vec<usize>,
    after: &[FileMetadata],
    after_order: &Vec<usize>,
    path: &str,
) -> (yes: bool)
    requires
        is_ranking(before@, 0, before.len() as int, before_order@),
        is_ranking(after@, 0, after.len() as int, after_order@),
    ensures
        yes == changed_paths(
            change,
            hash_index(before.deep_view()),
            hash_index(after.deep_view()),
        ).contains(path@),
{
    proof {
        lemma_hash_index_lookup(before.deep_view(), path@);
        lemma_hash_index_lookup(after.deep_view(), path@);
    }
    let old_place = find_last(before, before_order, path);
    let new_place = find_last(after, after_order, path);
    match change {
        Change::Added => old_place.is_none() && new_place.is_some(),
        Change::Removed => old_place.is_some() && new_place.is_none(),
        Change::Modified => match (old_place, new_place) {
            (Some(i), Some(j)) => !same_hash(&before[i].content_hash, &after[j].content_hash),
            _ => false,
        },
    }
}

/// Lists the paths that went through `change`, each once: those of `after`
/// where `from_after` is set, else those of `before`, in the order of their
/// records.
fn collect_changes(
    change: Change,
    from_after: bool,
    before: &[FileMetadata],
    before_order: &Vec<usize>,
    after: &[FileMetadata],
    after_order: &Vec<usize>,
) -> (paths: Vec<String>)
    requires
        is_ranking(before@, 0, before.len() as int, before_order@),
        is_ranking(after@, 0, after.len() as int, after_order@),
    ensures
        paths.deep_view() == pick_distinct(
            paths_of(
                if from_after {
                    after.deep_view()
                } else {
                    before.deep_view()
                },
            ),
            changed_paths(change, hash_index(before.deep_view()), hash_index(after.deep_view())),
        ),
{
    let source = if from_after {
        after
    } else {
        before
    };
    let source_order = if from_after {
        after_order
    } else {
        before_order
    };
    let ghost all = paths_of(source.deep_view());
    let ghost wanted = changed_paths(
        change,
        hash_index(before.deep_view()),
        hash_index(after.deep_view()),
    );
    let mut paths: Vec<String> = Vec::new();
    let mut i: usize = 0;
    assert(paths.deep_view() =~= pick_distinct(all.take(0), wanted));
    while i < source.len()
        invariant
            i <= source.len(),
            is_ranking(before@, 0, before.len() as int, before_order@),
            is_ranking(after@, 0, after.len() as int, after_order@),
            is_ranking(source@, 0, source.len() as int, source_order@),
            all == paths_of(source.deep_view()),
            wanted == changed_paths(
                change,
                hash_index(before.deep_view()),
                hash_index(after.deep_view()),
            ),
            paths.deep_view() == pick_distinct(all.take(i as int), wanted),
        decreases source.len() - i,
    {
        let path = &source[i].path;
        proof {
            assert(all.take(i as int + 1).drop_last() =~= all.take(i as int));
            assert(all.take(i as int + 1).last() == path@);
            lemma_pick_distinct(all.take(i as int), wanted);
        }
        if went_through(change, before, before_order, after, after_order, path.as_str())
            && !occurs_earlier(source, source_order, i) {
            let ghost earlier = paths.deep_view();
            paths.push(path.clone());
            assert(paths.deep_view() =~= earlier.push(path@));
        }
        i += 1;
    }
    assert(all.take(i as int) =~= all);
    paths
}

/// Compares two record sets by path and content hash.
///
/// A path is added when only `files2` has it, removed when only `files1` has
/// it, and modified when both have it with different hashes. Each list names
/// a path once; added paths come in the order of `files2`, the others in the
/// order of `files1`.
pub fn diff_snapshots(files1: &[FileMetadata], files2: &[FileMetadata]) -> (diff: Diff)
    ensures
        diff@ == diff_of(files1.deep_view(), files2.deep_view()),
        diff@.is_partition(),
        forall|change: Change, p: Seq<char>|
            #![trigger listed(diff@, change).contains(p)]
            listed(diff@, change).contains(p) <==> changed_paths(
                change,
                hash_index(files1.deep_view()),
                hash_index(files2.deep_view()),
            ).contains(p),
{
    let order1 = rank(files1);
    let order2 = rank(files2);
    let added = collect_changes(Change::Added, true, files1, &order1, files2, &order2);
    let removed = collect_changes(Change::Removed, false, files1, &order1, files2, &order2);
    let modified = collect_changes(Change::Modified, false, files1, &order1, files2, &order2);
    proof {
        lemma_diff_lists(files1.deep_view(), files2.deep_view());
    }
    Diff { added, removed, modified }
}

} // verus!
