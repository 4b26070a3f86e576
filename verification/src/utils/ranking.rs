use vstd::prelude::*;

verus! {

/// Values that a strict order ranks: `precedes` is irreflexive, transitive,
/// and what it leaves unranked is transitive too.
pub trait Ordered: Sized {
    /// Whether `self` comes strictly before `other`.
    spec fn precedes(&self, other: &Self) -> bool;

    /// The laws of the order.
    proof fn lemma_precedes_is_strict_weak(a: &Self, b: &Self, c: &Self)
        ensures
            !(a.precedes(b) && b.precedes(a)),
            a.precedes(b) && b.precedes(c) ==> a.precedes(c),
            !a.precedes(b) && !b.precedes(c) ==> !a.precedes(c),
    ;
}

/// Ordered values whose order can be decided when the program runs.
pub trait Ranked: Ordered {
    /// Decides `precedes`.
    fn comes_before(&self, other: &Self) -> (before: bool)
        ensures
            before == self.precedes(other),
    ;
}

/// Whether position `i` stands before position `j` once `items` are ranked:
/// its item precedes the other, or neither precedes the other and `i` is
/// the earlier position.
pub open spec fn ranks_before<T: Ordered>(items: Seq<T>, i: int, j: int) -> bool {
    items[i].precedes(&items[j]) || (!items[j].precedes(&items[i]) && i < j)
}

/// Whether `order` names position `i`.
pub open spec fn lists(order: Seq<usize>, i: int) -> bool {
    exists|k: int| 0 <= k < order.len() && #[trigger] order[k] == i
}

/// Whether `order` lists the positions `lo..hi` of `items`, each once, from
/// the first in rank to the last.
pub open spec fn is_ranking<T: Ordered>(items: Seq<T>, lo: int, hi: int, order: Seq<usize>) -> bool {
    &&& order.len() == hi - lo
    &&& forall|k: int| 0 <= k < order.len() ==> lo <= #[trigger] order[k] < hi
    &&& forall|a: int, b: int|
        0 <= a < b < order.len() ==> ranks_before(items, #[trigger] order[a] as int, #[trigger] order[b] as int)
    &&& forall|i: int| lo <= i < hi ==> #[trigger] lists(order, i)
}

/// `ranks_before` is a strict total order on positions.
pub proof fn lemma_ranks_before_is_total<T: Ordered>(items: Seq<T>, i: int, j: int, k: int)
    ensures
        !ranks_before(items, i, i),
        i != j ==> (ranks_before(items, i, j) != ranks_before(items, j, i)),
        ranks_before(items, i, j) && ranks_before(items, j, k) ==> ranks_before(items, i, k),
{
    T::lemma_precedes_is_strict_weak(&items[i], &items[i], &items[i]);
    T::lemma_precedes_is_strict_weak(&items[i], &items[j], &items[k]);
    T::lemma_precedes_is_strict_weak(&items[k], &items[j], &items[i]);
    T::lemma_precedes_is_strict_weak(&items[j], &items[k], &items[i]);
    T::lemma_precedes_is_strict_weak(&items[k], &items[i], &items[j]);
    T::lemma_precedes_is_strict_weak(&items[j], &items[i], &items[k]);
    T::lemma_precedes_is_strict_weak(&items[i], &items[k], &items[j]);
}

/// Two rankings of the same positions agree on their first `k` places.
proof fn lemma_rankings_agree<T: Ordered>(
    items: Seq<T>,
    lo: int,
    hi: int,
    one: Seq<usize>,
    other: Seq<usize>,
    k: int,
)
    requires
        is_ranking(items, lo, hi, one),
        is_ranking(items, lo, hi, other),
        0 <= k <= hi - lo,
    ensures
        forall|m: int| 0 <= m < k ==> one[m] == other[m],
    decreases k,
{
    if k > 0 {
        let m = k - 1;
        lemma_rankings_agree(items, lo, hi, one, other, m);
        let a = one[m] as int;
        let b = other[m] as int;
        assert(lists(other, a));
        assert(lists(one, b));
        let j = choose|j: int| 0 <= j < other.len() && #[trigger] other[j] == a;
        let i = choose|i: int| 0 <= i < one.len() && #[trigger] one[i] == b;
        lemma_ranks_before_is_total(items, a, b, a);
        lemma_ranks_before_is_total(items, b, a, b);
        if j < m {
            assert(one[j] == other[j]);
            assert(ranks_before(items, one[j] as int, one[m] as int));
        }
        if i < m {
            assert(one[i] == other[i]);
            assert(ranks_before(items, other[i] as int, other[m] as int));
        }
        if j > m {
            assert(ranks_before(items, other[m] as int, other[j] as int));
        }
        if i > m {
            assert(ranks_before(items, one[m] as int, one[i] as int));
        }
    }
}

/// A range of positions has one ranking only.
pub proof fn lemma_ranking_is_unique<T: Ordered>(
    items: Seq<T>,
    lo: int,
    hi: int,
    one: Seq<usize>,
    other: Seq<usize>,
)
    requires
        lo <= hi,
        is_ranking(items, lo, hi, one),
        is_ranking(items, lo, hi, other),
    ensures
        one == other,
{
    lemma_rankings_agree(items, lo, hi, one, other, hi - lo);
    assert(one =~= other);
}

/// Whether `sorted` holds the items of `input` in the arrangement that
/// `order` gives, which is their ranking.
pub open spec fn arranges<T: Ordered>(input: Seq<T>, order: Seq<usize>, sorted: Seq<T>) -> bool {
    &&& is_ranking(input, 0, input.len() as int, order)
    &&& sorted.len() == input.len()
    &&& forall|k: int| 0 <= k < sorted.len() ==> #[trigger] sorted[k] == input[order[k] as int]
}

/// Whether `sorted` is `input` sorted: the same items from the first in
/// rank to the last, items that do not precede one another in the order
/// they came in.
pub open spec fn is_sorted_copy<T: Ordered>(input: Seq<T>, sorted: Seq<T>) -> bool {
    exists|order: Seq<usize>| arranges(input, order, sorted)
}

/// Whether no item precedes an item before it.
pub open spec fn never_descends<T: Ordered>(items: Seq<T>) -> bool {
    forall|a: int, b: int|
        #![trigger items[a], items[b]]
        0 <= a < b < items.len() ==> !items[b].precedes(&items[a])
}

/// A sorted copy has the items of its input, no more and no fewer, and
/// never descends.
pub proof fn lemma_sorted_copy<T: Ordered>(input: Seq<T>, sorted: Seq<T>)
    requires
        is_sorted_copy(input, sorted),
    ensures
        sorted.len() == input.len(),
        never_descends(sorted),
        forall|r: T| sorted.contains(r) <==> input.contains(r),
{
    let order = choose|order: Seq<usize>| arranges(input, order, sorted);
    assert forall|a: int, b: int|
        #![trigger sorted[a], sorted[b]]
        0 <= a < b < sorted.len() implies !sorted[b].precedes(&sorted[a]) by {
        assert(ranks_before(input, order[a] as int, order[b] as int));
        T::lemma_precedes_is_strict_weak(&sorted[a], &sorted[b], &sorted[a]);
    }
    assert forall|r: T| sorted.contains(r) <==> input.contains(r) by {
        if sorted.contains(r) {
            let k = choose|k: int| 0 <= k < sorted.len() && sorted[k] == r;
            assert(input[order[k] as int] == r);
        }
        if input.contains(r) {
            let i = choose|i: int| 0 <= i < input.len() && input[i] == r;
            assert(lists(order, i));
            let k = choose|k: int| 0 <= k < order.len() && #[trigger] order[k] == i;
            assert(sorted[k] == r);
        }
    }
}

/// A sequence has one sorted copy only.
pub proof fn lemma_sorted_copy_is_unique<T: Ordered>(input: Seq<T>, one: Seq<T>, other: Seq<T>)
    requires
        is_sorted_copy(input, one),
        is_sorted_copy(input, other),
    ensures
        one == other,
{
    let first = choose|order: Seq<usize>| arranges(input, order, one);
    let second = choose|order: Seq<usize>| arranges(input, order, other);
    lemma_ranking_is_unique(input, 0, input.len() as int, first, second);
    assert(one =~= other);
}

/// Merges the rankings of two neighbouring ranges into the ranking of both.
fn merge_rankings<T: Ranked>(
    items: &[T],
    left: &Vec<usize>,
    right: &Vec<usize>,
    Ghost(lo): Ghost<int>,
    Ghost(mid): Ghost<int>,
    Ghost(hi): Ghost<int>,
) -> (order: Vec<usize>)
    requires
        0 <= lo <= mid <= hi <= items.len(),
        is_ranking(items@, lo, mid, left@),
        is_ranking(items@, mid, hi, right@),
    ensures
        is_ranking(items@, lo, hi, order@),
{
    let mut order: Vec<usize> = Vec::new();
    let mut i: usize = 0;
    let mut j: usize = 0;
    while i < left.len() || j < right.len()
        invariant
            0 <= lo <= mid <= hi <= items.len(),
            is_ranking(items@, lo, mid, left@),
            is_ranking(items@, mid, hi, right@),
            i <= left.len(),
            j <= right.len(),
            order.len() == i + j,
            forall|k: int| 0 <= k < order.len() ==> lo <= #[trigger] order[k] < hi,
            forall|a: int, b: int|
                0 <= a < b < order.len() ==> ranks_before(
                    items@,
                    #[trigger] order[a] as int,
                    #[trigger] order[b] as int,
                ),
            forall|a: int, b: int|
                0 <= a < order.len() && i <= b < left.len() ==> ranks_before(
                    items@,
                    #[trigger] order[a] as int,
                    #[trigger] left[b] as int,
                ),
            forall|a: int, b: int|
                0 <= a < order.len() && j <= b < right.len() ==> ranks_before(
                    items@,
                    #[trigger] order[a] as int,
                    #[trigger] right[b] as int,
                ),
            forall|a: int| 0 <= a < i ==> lists(order@, #[trigger] left[a] as int),
            forall|a: int| 0 <= a < j ==> lists(order@, #[trigger] right[a] as int),
        decreases left.len() - i + right.len() - j,
    {
        let take_left = if i == left.len() {
            false
        } else if j == right.len() {
            true
        } else {
            !items[right[j]].comes_before(&items[left[i]])
        };
        let ghost before = order@;
        if take_left {
            let x = left[i];
            proof {
                assert forall|b: int| i < b < left.len() implies ranks_before(
                    items@,
                    x as int,
                    #[trigger] left[b] as int,
                ) by {
                    assert(ranks_before(items@, left[i as int] as int, left[b] as int));
                }
                assert forall|b: int| j <= b < right.len() implies ranks_before(
                    items@,
                    x as int,
                    #[trigger] right[b] as int,
                ) by {
                    assert(x < mid <= right[b]);
                    if b > j {
                        assert(ranks_before(items@, right[j as int] as int, right[b] as int));
                    }
                    T::lemma_precedes_is_strict_weak(
                        &items@[right[b] as int],
                        &items@[right[j as int] as int],
                        &items@[x as int],
                    );
                    T::lemma_precedes_is_strict_weak(
                        &items@[right[j as int] as int],
                        &items@[right[b] as int],
                        &items@[x as int],
                    );
                }
            }
            order.push(x);
            i += 1;
            proof {
                assert forall|a: int| 0 <= a < i implies lists(order@, #[trigger] left[a] as int) by {
                    if a < i - 1 {
                        assert(lists(before, left[a] as int));
                        let k = choose|k: int| 0 <= k < before.len() && #[trigger] before[k] == left[a];
                        assert(order[k] == left[a]);
                    } else {
                        assert(order[order.len() - 1] == left[a]);
                    }
                }
                assert forall|a: int| 0 <= a < j implies lists(order@, #[trigger] right[a] as int) by {
                    assert(lists(before, right[a] as int));
                    let k = choose|k: int| 0 <= k < before.len() && #[trigger] before[k] == right[a];
                    assert(order[k] == right[a]);
                }
            }
        } else {
            let y = right[j];
            proof {
                assert forall|b: int| j < b < right.len() implies ranks_before(
                    items@,
                    y as int,
                    #[trigger] right[b] as int,
                ) by {
                    assert(ranks_before(items@, right[j as int] as int, right[b] as int));
                }
                assert forall|b: int| i <= b < left.len() implies ranks_before(
                    items@,
                    y as int,
                    #[trigger] left[b] as int,
                ) by {
                    assert(left[b] < mid <= y);
                    if b > i {
                        assert(ranks_before(items@, left[i as int] as int, left[b] as int));
                    }
                    T::lemma_precedes_is_strict_weak(
                        &items@[y as int],
                        &items@[left[i as int] as int],
                        &items@[left[b] as int],
                    );
                    T::lemma_precedes_is_strict_weak(
                        &items@[y as int],
                        &items@[left[b] as int],
                        &items@[left[i as int] as int],
                    );
                }
            }
            order.push(y);
            j += 1;
            proof {
                assert forall|a: int| 0 <= a < j implies lists(order@, #[trigger] right[a] as int) by {
                    if a < j - 1 {
                        assert(lists(before, right[a] as int));
                        let k = choose|k: int| 0 <= k < before.len() && #[trigger] before[k] == right[a];
                        assert(order[k] == right[a]);
                    } else {
                        assert(order[order.len() - 1] == right[a]);
                    }
                }
                assert forall|a: int| 0 <= a < i implies lists(order@, #[trigger] left[a] as int) by {
                    assert(lists(before, left[a] as int));
                    let k = choose|k: int| 0 <= k < before.len() && #[trigger] before[k] == left[a];
                    assert(order[k] == left[a]);
                }
            }
        }
    }
    proof {
        assert forall|p: int| lo <= p < hi implies #[trigger] lists(order@, p) by {
            if p < mid {
                assert(lists(left@, p));
                let a = choose|a: int| 0 <= a < left.len() && #[trigger] left[a] == p;
                assert(lists(order@, left[a] as int));
            } else {
                assert(lists(right@, p));
                let a = choose|a: int| 0 <= a < right.len() && #[trigger] right[a] == p;
                assert(lists(order@, right[a] as int));
            }
        }
    }
    order
}

/// Ranks the positions `lo..hi` of `items` by merge sort.
fn rank_range<T: Ranked>(items: &[T], lo: usize, hi: usize) -> (order: Vec<usize>)
    requires
        lo <= hi <= items.len(),
    ensures
        is_ranking(items@, lo as int, hi as int, order@),
    decreases hi - lo,
{
    if hi - lo <= 1 {
        let mut order: Vec<usize> = Vec::new();
        if hi - lo == 1 {
            order.push(lo);
            assert(order[0] == lo);
        }
        order
    } else {
        let mid = lo + (hi - lo) / 2;
        let left = rank_range(items, lo, mid);
        let right = rank_range(items, mid, hi);
        merge_rankings(items, &left, &right, Ghost(lo as int), Ghost(mid as int), Ghost(hi as int))
    }
}

/// Ranks all of `items`: the positions of the items from first to last, with
/// items that do not precede one another in the order they came in.
pub fn rank<T: Ranked>(items: &[T]) -> (order: Vec<usize>)
    ensures
        is_ranking(items@, 0, items.len() as int, order@),
{
    rank_range(items, 0, items.len())
}

} // verus!
