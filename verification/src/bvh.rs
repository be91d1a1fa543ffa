use vstd::prelude::*;
use vstd::arithmetic::power2::{lemma2_to64, lemma_pow2_unfold, pow2};
use crate::aabb::AABB;
use crate::hittable::{
    lemma_nearest_agree, lemma_scan_nearest, nearest_among, scan, shortened, HitRecord, Hittable,
    HittableList,
};
use crate::interval::Interval;

verus! {

/// The shape of a bounding-volume hierarchy over numbered objects.
pub enum BVHTree {
    /// One object, by its number.
    Leaf { object: usize },
    /// Two subtrees and a box that holds everything below them.
    Node { left: Box<BVHTree>, right: Box<BVHTree>, bounding_box: AABB },
}

/// The lower bound of `b` on axis `n`.
pub open spec fn lo(b: AABB, n: int) -> int {
    b.spec_axis_interval(n).min as int
}

/// The upper bound of `b` on axis `n`.
pub open spec fn hi(b: AABB, n: int) -> int {
    b.spec_axis_interval(n).max as int
}

/// The join of the boxes numbered `order[start] .. order[end - 1]`, starting
/// from the empty box.
pub open spec fn range_union(boxes: Seq<AABB>, order: Seq<usize>, start: int, end: int) -> AABB
    decreases end - start,
{
    if end <= start {
        AABB::spec_empty()
    } else {
        range_union(boxes, order, start, end - 1).union(boxes[order[end - 1] as int])
    }
}

/// The numbers that `order` holds from position `start` up to `end`.
pub open spec fn range_set(order: Seq<usize>, start: int, end: int) -> Set<int> {
    Set::new(|v: int| exists|k: int| start <= k < end && #[trigger] order[k] == v)
}

impl BVHTree {
    /// The numbers of the objects in the tree.
    pub open spec fn members(self) -> Set<int>
        decreases self,
    {
        match self {
            BVHTree::Leaf { object } => set![object as int],
            BVHTree::Node { left, right, .. } => left.members().union(right.members()),
        }
    }

    /// The box of the tree's root: an object's own box for a leaf.
    pub open spec fn bounds(self, boxes: Seq<AABB>) -> AABB {
        match self {
            BVHTree::Leaf { object } => boxes[object as int],
            BVHTree::Node { bounding_box, .. } => bounding_box,
        }
    }

    /// Every leaf names an object, and the box of every node is the join of
    /// the boxes of its two subtrees.
    pub open spec fn wf(self, boxes: Seq<AABB>) -> bool
        decreases self,
    {
        match self {
            BVHTree::Leaf { object } => object < boxes.len(),
            BVHTree::Node { left, right, bounding_box } => {
                &&& left.wf(boxes)
                &&& right.wf(boxes)
                &&& bounding_box == left.bounds(boxes).union(right.bounds(boxes))
            },
        }
    }

    /// The tree is the hierarchy over `order[start] .. order[end - 1]`: its
    /// root's box is the join of their boxes; over one object both subtrees
    /// are that object; over two, each is a leaf; over more, the subtrees are
    /// the hierarchies over the two halves of the range, and no object of the
    /// lower half has a greater lower bound, on the longest axis of the
    /// root's box, than one of the upper half.
    pub open spec fn shaped(self, boxes: Seq<AABB>, order: Seq<usize>, start: int, end: int) -> bool
        decreases self,
    {
        match self {
            BVHTree::Leaf { .. } => false,
            BVHTree::Node { left, right, bounding_box } => {
                &&& start < end
                &&& bounding_box == range_union(boxes, order, start, end)
                &&& if end - start == 1 {
                    *left == (BVHTree::Leaf { object: order[start] }) && *right == *left
                } else if end - start == 2 {
                    *left == (BVHTree::Leaf { object: order[start] }) && *right == (BVHTree::Leaf {
                        object: order[start + 1],
                    })
                } else {
                    let mid = start + (end - start) / 2;
                    let axis = bounding_box.spec_longest_axis();
                    &&& left.shaped(boxes, order, start, mid)
                    &&& right.shaped(boxes, order, mid, end)
                    &&& forall|a: int, b: int|
                        start <= a < mid && mid <= b < end ==> lo(boxes[order[a] as int], axis)
                            <= lo(boxes[order[b] as int], axis)
                }
            },
        }
    }

    /// The number of nodes on the longest way from the root down to a leaf.
    pub open spec fn height(self) -> nat
        decreases self,
    {
        match self {
            BVHTree::Leaf { .. } => 0,
            BVHTree::Node { left, right, .. } => {
                if left.height() >= right.height() {
                    1 + left.height()
                } else {
                    1 + right.height()
                }
            },
        }
    }

    /// In a well-formed tree the root's box holds the box of every object
    /// below it.
    pub proof fn lemma_covers(self, boxes: Seq<AABB>, i: int)
        requires
            self.wf(boxes),
            self.members().contains(i),
        ensures
            0 <= i < boxes.len(),
            boxes[i].within(self.bounds(boxes)),
        decreases self,
    {
        match self {
            BVHTree::Leaf { object } => {},
            BVHTree::Node { left, right, bounding_box } => {
                if left.members().contains(i) {
                    left.lemma_covers(boxes, i);
                } else {
                    right.lemma_covers(boxes, i);
                }
            },
        }
    }
}

/// The join over a range holds each box of the range, and each of its bounds
/// is the bound of one of them, unless it is still that of the empty box.
pub proof fn lemma_range_union_hull(boxes: Seq<AABB>, order: Seq<usize>, start: int, end: int)
    ensures
        forall|k: int|
            start <= k < end ==> (#[trigger] boxes[order[k] as int]).within(
                range_union(boxes, order, start, end),
            ),
        forall|n: int|
            0 <= n <= 2 ==> #[trigger] lo(range_union(boxes, order, start, end), n) == i64::MAX
                || exists|k: int|
                start <= k < end && lo(#[trigger] boxes[order[k] as int], n) == lo(
                    range_union(boxes, order, start, end),
                    n,
                ),
        forall|n: int|
            0 <= n <= 2 ==> #[trigger] hi(range_union(boxes, order, start, end), n) == i64::MIN
                || exists|k: int|
                start <= k < end && hi(#[trigger] boxes[order[k] as int], n) == hi(
                    range_union(boxes, order, start, end),
                    n,
                ),
    decreases end - start,
{
    if end > start {
        lemma_range_union_hull(boxes, order, start, end - 1);
        let prev = range_union(boxes, order, start, end - 1);
        let last = boxes[order[end - 1] as int];
        let all = range_union(boxes, order, start, end);
        assert(all == prev.union(last));
        assert forall|k: int| start <= k < end implies (#[trigger] boxes[order[k] as int]).within(
            all,
        ) by {
            if k < end - 1 {
                assert(boxes[order[k] as int].within(prev));
            }
        }
        assert forall|n: int| 0 <= n <= 2 implies #[trigger] lo(all, n) == i64::MAX || exists|
            k: int,
        |
            start <= k < end && lo(#[trigger] boxes[order[k] as int], n) == lo(all, n) by {
            if lo(all, n) == lo(last, n) {
                assert(lo(boxes[order[end - 1] as int], n) == lo(all, n));
            } else {
                assert(lo(all, n) == lo(prev, n));
                if lo(prev, n) != i64::MAX {
                    let k0 = choose|k: int|
                        start <= k < end - 1 && lo(#[trigger] boxes[order[k] as int], n) == lo(
                            prev,
                            n,
                        );
                    assert(lo(boxes[order[k0] as int], n) == lo(all, n));
                }
            }
        }
        assert forall|n: int| 0 <= n <= 2 implies #[trigger] hi(all, n) == i64::MIN || exists|
            k: int,
        |
            start <= k < end && hi(#[trigger] boxes[order[k] as int], n) == hi(all, n) by {
            if hi(all, n) == hi(last, n) {
                assert(hi(boxes[order[end - 1] as int], n) == hi(all, n));
            } else {
                assert(hi(all, n) == hi(prev, n));
                if hi(prev, n) != i64::MIN {
                    let k0 = choose|k: int|
                        start <= k < end - 1 && hi(#[trigger] boxes[order[k] as int], n) == hi(
                            prev,
                            n,
                        );
                    assert(hi(boxes[order[k0] as int], n) == hi(all, n));
                }
            }
        }
    }
}

/// If everything in the range of `b` also stands in the range of `a`, the
/// join over `a` holds the join over `b`.
pub proof fn lemma_range_union_holds(
    boxes: Seq<AABB>,
    a: Seq<usize>,
    b: Seq<usize>,
    start: int,
    end: int,
)
    requires
        range_set(b, start, end).subset_of(range_set(a, start, end)),
    ensures
        range_union(boxes, b, start, end).within(range_union(boxes, a, start, end)),
{
    lemma_range_union_hull(boxes, a, start, end);
    lemma_range_union_hull(boxes, b, start, end);
    let ua = range_union(boxes, a, start, end);
    let ub = range_union(boxes, b, start, end);
    assert forall|n: int| 0 <= n <= 2 implies lo(ua, n) <= lo(ub, n) && hi(ub, n) <= hi(ua, n) by {
        if lo(ub, n) != i64::MAX {
            let kb = choose|k: int|
                start <= k < end && lo(#[trigger] boxes[b[k] as int], n) == lo(ub, n);
            assert(range_set(b, start, end).contains(b[kb] as int));
            assert(range_set(a, start, end).contains(b[kb] as int));
            let ka = choose|k: int| start <= k < end && #[trigger] a[k] == b[kb] as int;
            assert(boxes[a[ka] as int].within(ua));
        }
        if hi(ub, n) != i64::MIN {
            let kb = choose|k: int|
                start <= k < end && hi(#[trigger] boxes[b[k] as int], n) == hi(ub, n);
            assert(range_set(b, start, end).contains(b[kb] as int));
            assert(range_set(a, start, end).contains(b[kb] as int));
            let ka = choose|k: int| start <= k < end && #[trigger] a[k] == b[kb] as int;
            assert(boxes[a[ka] as int].within(ua));
        }
    }
    assert(lo(ua, 0) <= lo(ub, 0) && hi(ub, 0) <= hi(ua, 0));
    assert(lo(ua, 1) <= lo(ub, 1) && hi(ub, 1) <= hi(ua, 1));
    assert(lo(ua, 2) <= lo(ub, 2) && hi(ub, 2) <= hi(ua, 2));
}

/// The join over a range depends only on which boxes the range names, not on
/// their order.
pub proof fn lemma_range_union_rearranged(
    boxes: Seq<AABB>,
    a: Seq<usize>,
    b: Seq<usize>,
    start: int,
    end: int,
)
    requires
        range_set(a, start, end) == range_set(b, start, end),
    ensures
        range_union(boxes, a, start, end) == range_union(boxes, b, start, end),
{
    lemma_range_union_holds(boxes, a, b, start, end);
    lemma_range_union_holds(boxes, b, a, start, end);
}

/// The join over a range depends only on the boxes that the range names.
pub proof fn lemma_range_union_agree(
    boxes_a: Seq<AABB>,
    order_a: Seq<usize>,
    boxes_b: Seq<AABB>,
    order_b: Seq<usize>,
    start: int,
    end: int,
)
    requires
        forall|k: int|
            start <= k < end ==> boxes_a[order_a[k] as int] == boxes_b[order_b[k] as int],
    ensures
        range_union(boxes_a, order_a, start, end) == range_union(boxes_b, order_b, start, end),
    decreases end - start,
{
    if end > start {
        lemma_range_union_agree(boxes_a, order_a, boxes_b, order_b, start, end - 1);
    }
}

/// The join over a range is the join of the joins over its two parts.
pub proof fn lemma_range_union_split(
    boxes: Seq<AABB>,
    order: Seq<usize>,
    start: int,
    mid: int,
    end: int,
)
    requires
        start <= mid <= end,
    ensures
        range_union(boxes, order, start, end) == range_union(boxes, order, start, mid).union(
            range_union(boxes, order, mid, end),
        ),
    decreases end - mid,
{
    if end > mid {
        lemma_range_union_split(boxes, order, start, mid, end - 1);
        let last = boxes[order[end - 1] as int];
        crate::aabb::lemma_union_laws(
            range_union(boxes, order, start, mid),
            range_union(boxes, order, mid, end - 1),
            last,
        );
    } else {
        crate::aabb::lemma_union_laws(
            range_union(boxes, order, start, mid),
            AABB::spec_empty(),
            AABB::spec_empty(),
        );
    }
}


/// `after` is `before` put in order of the first components by a stable sort:
/// `p` says for each position of `after` where its pair stood in `before`.
pub open spec fn sorted_from(before: Seq<(i64, usize)>, after: Seq<(i64, usize)>, p: Seq<int>) -> bool {
    &&& after.len() == before.len()
    &&& p.len() == before.len()
    &&& forall|k: int| 0 <= k < p.len() ==> 0 <= #[trigger] p[k] < before.len()
    &&& forall|a: int, b: int| 0 <= a < b < p.len() ==> p[a] != p[b]
    &&& forall|j: int|
        0 <= j < before.len() ==> exists|k: int|
            0 <= k < p.len() && #[trigger] p[k] == j && after[k] == #[trigger] before[j]
    &&& forall|k: int| 0 <= k < p.len() ==> #[trigger] after[k] == before[p[k]]
    &&& forall|a: int, b: int| 0 <= a < b < after.len() ==> after[a].0 <= after[b].0
    &&& forall|a: int, b: int|
        0 <= a < b < after.len() && after[a].0 == after[b].0 ==> p[a] < p[b]
}

/// The objects numbered `order[start] .. order[end - 1]`, each with the lower
/// bound of its box on `axis` in front of it.
pub open spec fn keyed(boxes: Seq<AABB>, order: Seq<usize>, start: int, end: int, axis: int) -> Seq<
    (i64, usize),
> {
    Seq::new(
        (end - start) as nat,
        |k: int| (boxes[order[start + k] as int].spec_axis_interval(axis).min, order[start + k]),
    )
}

/// `a`, which stood at place `ia`, comes before `b`, which stood at place
/// `ib`, in a stable sort: by its key, and among equal keys by its place.
pub open spec fn comes_before(a: (i64, usize), ia: int, b: (i64, usize), ib: int) -> bool {
    a.0 < b.0 || (a.0 == b.0 && ia < ib)
}

/// Two stable sorts of one sequence move every pair from the same place.
proof fn lemma_same_place(
    before: Seq<(i64, usize)>,
    sorted_a: Seq<(i64, usize)>,
    places_a: Seq<int>,
    sorted_b: Seq<(i64, usize)>,
    places_b: Seq<int>,
    k: int,
)
    requires
        sorted_from(before, sorted_a, places_a),
        sorted_from(before, sorted_b, places_b),
        0 <= k < before.len(),
    ensures
        places_a[k] == places_b[k],
    decreases k,
{
    assert forall|m: int| 0 <= m < k implies places_a[m] == places_b[m] by {
        lemma_same_place(before, sorted_a, places_a, sorted_b, places_b, m);
    }
    let j1 = places_a[k];
    let j2 = places_b[k];
    assert(sorted_a[k] == before[j1]);
    assert(sorted_b[k] == before[j2]);
    if j1 != j2 {
        if comes_before(before[j1], j1, before[j2], j2) {
            let m = choose|m: int|
                0 <= m < places_b.len() && #[trigger] places_b[m] == j1 && sorted_b[m] == before[j1];
            if m < k {
                assert(places_a[m] == places_b[m]);
            } else if m > k {
                assert(sorted_b[k].0 <= sorted_b[m].0);
            }
        } else {
            let m = choose|m: int|
                0 <= m < places_a.len() && #[trigger] places_a[m] == j2 && sorted_a[m] == before[j2];
            if m < k {
                assert(places_a[m] == places_b[m]);
            } else if m > k {
                assert(sorted_a[k].0 <= sorted_a[m].0);
            }
        }
    }
}

/// A sequence has only one stable sort.
pub proof fn lemma_stable_sort_unique(
    before: Seq<(i64, usize)>,
    sorted_a: Seq<(i64, usize)>,
    places_a: Seq<int>,
    sorted_b: Seq<(i64, usize)>,
    places_b: Seq<int>,
)
    requires
        sorted_from(before, sorted_a, places_a),
        sorted_from(before, sorted_b, places_b),
    ensures
        sorted_a == sorted_b,
{
    assert forall|k: int| 0 <= k < sorted_a.len() implies sorted_a[k] == sorted_b[k] by {
        lemma_same_place(before, sorted_a, places_a, sorted_b, places_b, k);
        assert(sorted_a[k] == before[places_a[k]]);
        assert(sorted_b[k] == before[places_b[k]]);
    }
    assert(sorted_a =~= sorted_b);
}

/// `after` is a stable sort of `before` by the first components.
pub open spec fn is_stable_sort(before: Seq<(i64, usize)>, after: Seq<(i64, usize)>) -> bool {
    exists|p: Seq<int>| sorted_from(before, after, p)
}

/// The stable sort of `items` by their first components.
pub open spec fn stable_sorted(items: Seq<(i64, usize)>) -> Seq<(i64, usize)> {
    choose|after: Seq<(i64, usize)>| is_stable_sort(items, after)
}

/// Whatever sorts stably gives `stable_sorted`.
pub proof fn lemma_stable_sorted(before: Seq<(i64, usize)>, after: Seq<(i64, usize)>)
    requires
        is_stable_sort(before, after),
    ensures
        after == stable_sorted(before),
{
    let chosen = stable_sorted(before);
    assert(is_stable_sort(before, chosen));
    let places_a = choose|p: Seq<int>| sorted_from(before, after, p);
    let places_b = choose|p: Seq<int>| sorted_from(before, chosen, p);
    lemma_stable_sort_unique(before, after, places_a, chosen, places_b);
}

/// `order` with the positions `start .. end` put in ascending order of the
/// lower bounds, on `axis`, of the boxes that they number; among equal
/// bounds the earlier position stays first.
pub open spec fn sorted_order(
    boxes: Seq<AABB>,
    order: Seq<usize>,
    start: int,
    end: int,
    axis: int,
) -> Seq<usize> {
    Seq::new(
        order.len(),
        |k: int|
            if start <= k < end {
                stable_sorted(keyed(boxes, order, start, end, axis))[k - start].1
            } else {
                order[k]
            },
    )
}

/// The order in which a hierarchy built over `order[start] .. order[end - 1]`
/// leaves the objects: a range of more than two is sorted along the longest
/// axis of its join, and then each half is ordered in the same way.
pub open spec fn built_order(boxes: Seq<AABB>, order: Seq<usize>, start: int, end: int) -> Seq<usize>
    decreases end - start,
{
    if end - start <= 2 {
        order
    } else {
        let axis = range_union(boxes, order, start, end).spec_longest_axis();
        let sorted = sorted_order(boxes, order, start, end, axis);
        let mid = start + (end - start) / 2;
        built_order(boxes, built_order(boxes, sorted, start, mid), mid, end)
    }
}

/// Sorts with `<[T]>::sort_by_key` of std, the key being the first component
/// of each pair. Std documents that sort as stable: the pairs come out in
/// ascending order of their keys, each pair of the input exactly once, and
/// pairs with equal keys in the order in which they went in.
#[verifier::external_body]
fn sort_by_key(items: &mut Vec<(i64, usize)>)
    ensures
        exists|p: Seq<int>| sorted_from(old(items)@, final(items)@, p),
{
    items.sort_by_key(|pair| pair.0);
}

/// Puts `order[start] .. order[end - 1]` in ascending order of the lower
/// bounds, on `axis`, of the boxes that they number.
pub fn sort_range(order: &mut Vec<usize>, start: usize, end: usize, boxes: &Vec<AABB>, axis: usize)
    requires
        start <= end <= old(order).len(),
        forall|k: int| start <= k < end ==> (#[trigger] old(order)@[k]) < boxes.len(),
    ensures
        final(order).len() == old(order).len(),
        forall|k: int|
            0 <= k < old(order).len() && !(start <= k < end) ==> final(order)@[k] == old(order)@[k],
        range_set(final(order)@, start as int, end as int) == range_set(
            old(order)@,
            start as int,
            end as int,
        ),
        forall|k: int| start <= k < end ==> (#[trigger] final(order)@[k]) < boxes.len(),
        forall|a: int, b: int|
            start <= a < b < end ==> lo(boxes@[final(order)@[a] as int], axis as int) <= lo(
                boxes@[final(order)@[b] as int],
                axis as int,
            ),
        final(order)@ == sorted_order(
            boxes@,
            old(order)@,
            start as int,
            end as int,
            axis as int,
        ),
{
    let ghost before = order@;
    let mut items: Vec<(i64, usize)> = Vec::new();
    let mut k: usize = start;
    while k < end
        invariant
            start <= k <= end,
            end <= order.len(),
            order@ == before,
            items.len() == k - start,
            forall|j: int| start <= j < end ==> (#[trigger] order@[j]) < boxes.len(),
            forall|j: int|
                0 <= j < items.len() ==> (#[trigger] items@[j]).1 == before[start + j]
                    && items@[j].0 == lo(boxes@[before[start + j] as int], axis as int),
        decreases end - k,
    {
        let object: usize = order[k];
        let key: i64 = boxes[object].axis_interval(axis).min;
        items.push((key, object));
        k = k + 1;
    }
    let ghost unsorted = items@;
    sort_by_key(&mut items);
    let ghost p = choose|p: Seq<int>| sorted_from(unsorted, items@, p);
    let mut j: usize = 0;
    while j < items.len()
        invariant
            j <= items.len(),
            items.len() == end - start,
            end <= order.len(),
            order.len() == before.len(),
            forall|k: int| 0 <= k < order.len() && !(start <= k < start + j) ==> order@[k] == before[k],
            forall|k: int| 0 <= k < j ==> (#[trigger] order@[start + k]) == items@[k].1,
        decreases items.len() - j,
    {
        let pair: (i64, usize) = items[j];
        order.set(start + j, pair.1);
        j = j + 1;
    }
    proof {
        lemma_sorted_range(boxes@, before, order@, unsorted, items@, p, start as int, end as int, axis as int);
    }
}

/// Writing a sorted copy of a range back in its place rearranges the range
/// and leaves it in ascending order of the keys.
proof fn lemma_sorted_range(
    boxes: Seq<AABB>,
    before: Seq<usize>,
    after: Seq<usize>,
    unsorted: Seq<(i64, usize)>,
    sorted: Seq<(i64, usize)>,
    p: Seq<int>,
    start: int,
    end: int,
    axis: int,
)
    requires
        0 <= start <= end <= before.len(),
        after.len() == before.len(),
        unsorted.len() == end - start,
        sorted_from(unsorted, sorted, p),
        forall|j: int|
            0 <= j < unsorted.len() ==> (#[trigger] unsorted[j]).1 == before[start + j]
                && unsorted[j].0 == lo(boxes[before[start + j] as int], axis),
        forall|k: int| 0 <= k < end - start ==> (#[trigger] after[start + k]) == sorted[k].1,
        forall|k: int| 0 <= k < before.len() && !(start <= k < end) ==> after[k] == before[k],
        forall|k: int| start <= k < end ==> (#[trigger] before[k]) < boxes.len(),
    ensures
        range_set(after, start, end) == range_set(before, start, end),
        forall|k: int| start <= k < end ==> (#[trigger] after[k]) < boxes.len(),
        forall|a: int, b: int|
            start <= a < b < end ==> lo(boxes[after[a] as int], axis) <= lo(
                boxes[after[b] as int],
                axis,
            ),
        after == sorted_order(boxes, before, start, end, axis),
{
    assert forall|k: int| start <= k < end implies (#[trigger] after[k]) == before[start + p[k
        - start]] && lo(boxes[after[k] as int], axis) == sorted[k - start].0 by {
        assert(after[start + (k - start)] == sorted[k - start].1);
        assert(sorted[k - start] == unsorted[p[k - start]]);
    }
    assert forall|a: int, b: int| start <= a < b < end implies lo(boxes[after[a] as int], axis)
        <= lo(boxes[after[b] as int], axis) by {
        assert(sorted[a - start].0 <= sorted[b - start].0);
    }
    assert forall|v: int| range_set(after, start, end).contains(v) implies range_set(
        before,
        start,
        end,
    ).contains(v) by {
        let k = choose|k: int| start <= k < end && #[trigger] after[k] == v;
        assert(before[start + p[k - start]] == v);
    }
    assert forall|v: int| range_set(before, start, end).contains(v) implies range_set(
        after,
        start,
        end,
    ).contains(v) by {
        let j = choose|j: int| start <= j < end && #[trigger] before[j] == v;
        assert(unsorted[j - start].1 == before[start + (j - start)]);
        let k = choose|k: int|
            0 <= k < p.len() && #[trigger] p[k] == j - start && sorted[k] == unsorted[j - start];
        assert(after[start + k] == sorted[k].1);
    }
    assert(range_set(after, start, end) =~= range_set(before, start, end));
    assert(keyed(boxes, before, start, end, axis) =~= unsorted);
    assert forall|k: int| 0 <= k < end - start implies keyed(boxes, after, start, end, axis)[k]
        == sorted[k] by {
        assert(after[start + k] == sorted[k].1);
        assert(sorted[k] == unsorted[p[k]]);
    }
    assert(keyed(boxes, after, start, end, axis) =~= sorted);
    assert(is_stable_sort(unsorted, sorted));
    lemma_stable_sorted(unsorted, sorted);
    assert(after =~= sorted_order(boxes, before, start, end, axis));
}

/// Builds the hierarchy over the objects numbered `order[start] ..
/// order[end - 1]`, whose boxes are `boxes`.
///
/// The root's box is the join of the boxes of the range. A range of one
/// object gives a node whose two subtrees are that object; a range of two
/// gives one leaf for each, in their order. A longer range is sorted by the
/// lower bounds on the longest axis of the root's box and cut in the middle,
/// the lower half going to the left.
pub fn build_tree(boxes: &Vec<AABB>, order: &mut Vec<usize>, start: usize, end: usize) -> (tree:
    BVHTree)
    requires
        start < end <= old(order).len(),
        forall|k: int| start <= k < end ==> (#[trigger] old(order)@[k]) < boxes.len(),
    ensures
        final(order).len() == old(order).len(),
        forall|k: int|
            0 <= k < old(order).len() && !(start <= k < end) ==> final(order)@[k] == old(order)@[k],
        range_set(final(order)@, start as int, end as int) == range_set(
            old(order)@,
            start as int,
            end as int,
        ),
        tree is Node,
        tree.wf(boxes@),
        tree.members() == range_set(old(order)@, start as int, end as int),
        tree.bounds(boxes@) == range_union(boxes@, old(order)@, start as int, end as int),
        tree.shaped(boxes@, final(order)@, start as int, end as int),
        final(order)@ == built_order(boxes@, old(order)@, start as int, end as int),
    decreases end - start,
{
    let ghost entry = order@;
    let mut bounding_box = AABB::empty();
    let mut k: usize = start;
    while k < end
        invariant
            start <= k <= end,
            end <= order.len(),
            order@ == entry,
            forall|j: int| start <= j < end ==> (#[trigger] order@[j]) < boxes.len(),
            bounding_box == range_union(boxes@, entry, start as int, k as int),
        decreases end - k,
    {
        bounding_box = AABB::from_aabbs(&bounding_box, &boxes[order[k]]);
        k = k + 1;
    }
    let axis: usize = bounding_box.longest_axis();
    let object_span: usize = end - start;
    if object_span == 1 {
        let object: usize = order[start];
        proof {
            assert(range_union(boxes@, entry, start as int, start as int) == AABB::spec_empty());
            assert(range_set(entry, start as int, end as int) =~= set![object as int]);
        }
        let tree = BVHTree::Node {
            left: Box::new(BVHTree::Leaf { object }),
            right: Box::new(BVHTree::Leaf { object }),
            bounding_box,
        };
        proof {
            reveal_with_fuel(BVHTree::members, 2);
            reveal_with_fuel(BVHTree::wf, 2);
            crate::aabb::lemma_union_laws(boxes@[object as int], boxes@[object as int], AABB::spec_empty());
            assert(tree.members() =~= set![object as int]);
        }
        tree
    } else if object_span == 2 {
        let first: usize = order[start];
        let second: usize = order[start + 1];
        proof {
            assert(range_union(boxes@, entry, start as int, start as int) == AABB::spec_empty());
            assert(range_union(boxes@, entry, start as int, start + 1) == boxes@[first as int]);
            assert(range_set(entry, start as int, end as int) =~= set![first as int].union(
                set![second as int],
            ));
        }
        let tree = BVHTree::Node {
            left: Box::new(BVHTree::Leaf { object: first }),
            right: Box::new(BVHTree::Leaf { object: second }),
            bounding_box,
        };
        proof {
            reveal_with_fuel(BVHTree::members, 2);
            reveal_with_fuel(BVHTree::wf, 2);
            crate::aabb::lemma_union_laws(boxes@[first as int], boxes@[second as int], AABB::spec_empty());
            assert(tree.members() =~= set![first as int].union(set![second as int]));
        }
        tree
    } else {
        sort_range(order, start, end, boxes, axis);
        let ghost sorted = order@;
        let mid: usize = start + object_span / 2;
        let left = build_tree(boxes, order, start, mid);
        let ghost halfway = order@;
        let right = build_tree(boxes, order, mid, end);
        proof {
            let done = order@;
            lemma_range_set_split(entry, start as int, mid as int, end as int);
            lemma_range_set_split(sorted, start as int, mid as int, end as int);
            lemma_range_set_split(done, start as int, mid as int, end as int);
            lemma_range_set_same(sorted, halfway, mid as int, end as int);
            lemma_range_set_same(halfway, done, start as int, mid as int);
            lemma_range_union_rearranged(boxes@, entry, sorted, start as int, end as int);
            lemma_range_union_split(boxes@, sorted, start as int, mid as int, end as int);
            lemma_range_union_rearranged(boxes@, sorted, halfway, mid as int, end as int);
            assert(left.bounds(boxes@) == range_union(boxes@, sorted, start as int, mid as int));
            assert(right.bounds(boxes@) == range_union(boxes@, sorted, mid as int, end as int));
            lemma_shaped_same(left, boxes@, halfway, done, start as int, mid as int);
            lemma_range_union_rearranged(boxes@, entry, done, start as int, end as int);
            assert forall|a: int, b: int| start <= a < mid && mid <= b < end implies lo(
                boxes@[done[a] as int],
                axis as int,
            ) <= lo(boxes@[done[b] as int], axis as int) by {
                assert(range_set(done, start as int, mid as int).contains(done[a] as int));
                assert(range_set(sorted, start as int, mid as int).contains(done[a] as int));
                let a0 = choose|k: int| start <= k < mid && #[trigger] sorted[k] == done[a] as int;
                assert(range_set(done, mid as int, end as int).contains(done[b] as int));
                assert(range_set(sorted, mid as int, end as int).contains(done[b] as int));
                let b0 = choose|k: int| mid <= k < end && #[trigger] sorted[k] == done[b] as int;
                assert(lo(boxes@[sorted[a0] as int], axis as int) <= lo(
                    boxes@[sorted[b0] as int],
                    axis as int,
                ));
            }
        }
        let tree = BVHTree::Node { left: Box::new(left), right: Box::new(right), bounding_box };
        proof {
            assert(tree.members() =~= left.members().union(right.members()));
            assert(tree.wf(boxes@));
        }
        tree
    }
}

/// What a range holds is what its two parts hold.
pub proof fn lemma_range_set_split(order: Seq<usize>, start: int, mid: int, end: int)
    requires
        start <= mid <= end,
    ensures
        range_set(order, start, end) == range_set(order, start, mid).union(
            range_set(order, mid, end),
        ),
{
    assert forall|v: int| range_set(order, start, end).contains(v) implies range_set(
        order,
        start,
        mid,
    ).union(range_set(order, mid, end)).contains(v) by {
        let k = choose|k: int| start <= k < end && #[trigger] order[k] == v;
        if k < mid {
            assert(range_set(order, start, mid).contains(v));
        } else {
            assert(range_set(order, mid, end).contains(v));
        }
    }
    assert(range_set(order, start, end) =~= range_set(order, start, mid).union(
        range_set(order, mid, end),
    ));
}

/// Two sequences that agree on a range hold the same there.
pub proof fn lemma_range_set_same(a: Seq<usize>, b: Seq<usize>, start: int, end: int)
    requires
        forall|k: int| start <= k < end ==> a[k] == b[k],
    ensures
        range_set(a, start, end) == range_set(b, start, end),
{
    assert forall|v: int| range_set(a, start, end).contains(v) implies range_set(
        b,
        start,
        end,
    ).contains(v) by {
        let k = choose|k: int| start <= k < end && #[trigger] a[k] == v;
        assert(b[k] == v);
    }
    assert forall|v: int| range_set(b, start, end).contains(v) implies range_set(
        a,
        start,
        end,
    ).contains(v) by {
        let k = choose|k: int| start <= k < end && #[trigger] b[k] == v;
        assert(a[k] == v);
    }
    assert(range_set(a, start, end) =~= range_set(b, start, end));
}

/// The shape of a tree over a range depends on the order within that range
/// only.
pub proof fn lemma_shaped_same(
    tree: BVHTree,
    boxes: Seq<AABB>,
    a: Seq<usize>,
    b: Seq<usize>,
    start: int,
    end: int,
)
    requires
        tree.shaped(boxes, a, start, end),
        forall|k: int| start <= k < end ==> a[k] == b[k],
    ensures
        tree.shaped(boxes, b, start, end),
    decreases tree,
{
    lemma_range_set_same(a, b, start, end);
    lemma_range_union_rearranged(boxes, a, b, start, end);
    match tree {
        BVHTree::Leaf { .. } => {},
        BVHTree::Node { left, right, bounding_box } => {
            if end - start > 2 {
                let mid = start + (end - start) / 2;
                lemma_shaped_same(*left, boxes, a, b, start, mid);
                lemma_shaped_same(*right, boxes, a, b, mid, end);
            }
        },
    }
}


/// The order of the objects decides the hierarchy over them.
pub proof fn lemma_shaped_unique(
    a: BVHTree,
    b: BVHTree,
    boxes: Seq<AABB>,
    order: Seq<usize>,
    start: int,
    end: int,
)
    requires
        a.shaped(boxes, order, start, end),
        b.shaped(boxes, order, start, end),
    ensures
        a == b,
    decreases a,
{
    match (a, b) {
        (
            BVHTree::Node { left: la, right: ra, .. },
            BVHTree::Node { left: lb, right: rb, .. },
        ) => {
            if end - start > 2 {
                let mid = start + (end - start) / 2;
                lemma_shaped_unique(*la, *lb, boxes, order, start, mid);
                lemma_shaped_unique(*ra, *rb, boxes, order, mid, end);
            }
        },
        _ => {},
    }
}

/// A hierarchy stays shallow. Over one object it is one node high. Over `n`
/// objects, two to the power of its height less one is below `n`: the height
/// is at most the logarithm of `n` to base two, rounded up.
pub proof fn lemma_shaped_height(
    tree: BVHTree,
    boxes: Seq<AABB>,
    order: Seq<usize>,
    start: int,
    end: int,
)
    requires
        tree.shaped(boxes, order, start, end),
    ensures
        tree.height() >= 1,
        end - start == 1 ==> tree.height() == 1,
        end - start >= 2 ==> pow2((tree.height() - 1) as nat) < end - start,
    decreases tree,
{
    reveal_with_fuel(BVHTree::height, 2);
    lemma2_to64();
    match tree {
        BVHTree::Leaf { .. } => {},
        BVHTree::Node { left, right, .. } => {
            if end - start > 2 {
                let mid = start + (end - start) / 2;
                lemma_shaped_height(*left, boxes, order, start, mid);
                lemma_shaped_height(*right, boxes, order, mid, end);
                lemma_pow2_unfold(left.height());
                lemma_pow2_unfold(right.height());
            }
        },
    }
}

/// The boxes of `objects`, in their order.
pub open spec fn boxes_of<H: Hittable>(objects: Seq<H>) -> Seq<AABB> {
    Seq::new(objects.len(), |i: int| objects[i].bounds())
}

/// The sequence `0, 1, .., n - 1`.
pub open spec fn in_order(n: nat) -> Seq<usize> {
    Seq::new(n, |i: int| i as usize)
}

/// What a descent through `tree` reports for `ray` within `ray_t`.
///
/// A node whose box the ray misses reports nothing. Otherwise the left
/// subtree is asked first, then the right one for a meeting no farther than
/// what the left one found; what the right one finds is kept, else what the
/// left one found.
pub open spec fn probe<H: Hittable>(
    tree: BVHTree,
    objects: Seq<H>,
    ray: &H::Ray,
    ray_t: Interval,
) -> Option<HitRecord>
    decreases tree,
{
    match tree {
        BVHTree::Leaf { object } => match objects[object as int].first_hit(ray, ray_t) {
            Some(t) => Some(HitRecord { object, t }),
            None => None,
        },
        BVHTree::Node { left, right, bounding_box } => {
            if !H::crosses(ray, bounding_box, ray_t) {
                None
            } else {
                let hit_left = probe(*left, objects, ray, ray_t);
                let upper = match hit_left {
                    Some(rec) => rec.t,
                    None => ray_t.max,
                };
                let hit_right = probe(*right, objects, ray, shortened(ray_t, upper));
                if hit_right.is_some() {
                    hit_right
                } else {
                    hit_left
                }
            }
        },
    }
}

/// A descent through a well-formed tree reports a nearest meeting with the
/// objects of the tree: the boxes only ever rule out objects that the ray
/// does not meet.
pub proof fn lemma_probe_nearest<H: Hittable>(
    tree: BVHTree,
    objects: Seq<H>,
    ray: &H::Ray,
    ray_t: Interval,
)
    requires
        tree.wf(boxes_of(objects)),
    ensures
        nearest_among(objects, tree.members(), ray, ray_t, probe(tree, objects, ray, ray_t)),
    decreases tree,
{
    let boxes = boxes_of(objects);
    match tree {
        BVHTree::Leaf { object } => {},
        BVHTree::Node { left, right, bounding_box } => {
            if !H::crosses(ray, bounding_box, ray_t) {
                assert forall|i: int|
                    0 <= i < objects.len() && tree.members().contains(i) implies (
                #[trigger] objects[i].first_hit(ray, ray_t)).is_none() by {
                    tree.lemma_covers(boxes, i);
                    if objects[i].first_hit(ray, ray_t).is_some() {
                        objects[i].lemma_enclosed(ray, ray_t, bounding_box);
                    }
                }
            } else {
                let hit_left = probe(*left, objects, ray, ray_t);
                let upper = match hit_left {
                    Some(rec) => rec.t,
                    None => ray_t.max,
                };
                let cut = shortened(ray_t, upper);
                let hit_right = probe(*right, objects, ray, cut);
                lemma_probe_nearest(*left, objects, ray, ray_t);
                lemma_probe_nearest(*right, objects, ray, cut);
                if hit_left.is_some() {
                    objects[hit_left.unwrap().object as int].lemma_inside(ray, ray_t);
                }
                assert(upper <= ray_t.max);
                if hit_right.is_some() {
                    let rec = hit_right.unwrap();
                    objects[rec.object as int].lemma_narrow(ray, ray_t, upper);
                    objects[rec.object as int].lemma_inside(ray, cut);
                }
                assert forall|i: int|
                    0 <= i < objects.len() && right.members().contains(i) && (
                    #[trigger] objects[i].first_hit(ray, ray_t)).is_some() implies (
                    objects[i].first_hit(ray, ray_t).unwrap() >= upper
                        || objects[i].first_hit(ray, cut) == objects[i].first_hit(ray, ray_t)) by {
                    objects[i].lemma_narrow(ray, ray_t, upper);
                }
                let result = probe(tree, objects, ray, ray_t);
                assert(result == if hit_right.is_some() {
                    hit_right
                } else {
                    hit_left
                });
                match result {
                    None => {
                        assert forall|i: int|
                            0 <= i < objects.len() && tree.members().contains(i) implies (
                        #[trigger] objects[i].first_hit(ray, ray_t)).is_none() by {
                            if right.members().contains(i) && objects[i].first_hit(
                                ray,
                                ray_t,
                            ).is_some() {
                                assert(objects[i].first_hit(ray, cut).is_none());
                                assert(cut == ray_t);
                            }
                        }
                    },
                    Some(rec) => {
                        assert forall|i: int|
                            0 <= i < objects.len() && tree.members().contains(i) && (
                            #[trigger] objects[i].first_hit(ray, ray_t)).is_some() implies rec.t
                            <= objects[i].first_hit(ray, ray_t).unwrap() by {
                            if right.members().contains(i) {
                                if objects[i].first_hit(ray, ray_t).unwrap() < upper {
                                    assert(objects[i].first_hit(ray, cut).is_some());
                                }
                            }
                        }
                    },
                }
            }
        },
    }
}

/// Descends through `tree` as `probe` says.
pub fn hit_tree<H: Hittable>(tree: &BVHTree, objects: &Vec<H>, ray: &H::Ray, ray_t: Interval) -> (r:
    Option<HitRecord>)
    requires
        tree.wf(boxes_of(objects@)),
    ensures
        r == probe(*tree, objects@, ray, ray_t),
    decreases *tree,
{
    match tree {
        BVHTree::Leaf { object } => {
            match objects[*object].hit(ray, ray_t) {
                Some(t) => Some(HitRecord { object: *object, t }),
                None => None,
            }
        },
        BVHTree::Node { left, right, bounding_box } => {
            if !H::box_hit(ray, bounding_box, ray_t) {
                return None;
            }
            let hit_left = hit_tree(&**left, objects, ray, ray_t);
            let upper: i64 = match hit_left {
                Some(rec) => rec.t,
                None => ray_t.max,
            };
            let hit_right = hit_tree(&**right, objects, ray, Interval::new(ray_t.min, upper));
            if hit_right.is_some() {
                hit_right
            } else {
                hit_left
            }
        },
    }
}

/// A bounding-volume hierarchy over a collection of objects.
pub struct BVHNode<H: Hittable> {
    pub objects: Vec<H>,
    pub order: Vec<usize>,
    pub tree: BVHTree,
}

impl<H: Hittable> BVHNode<H> {
    /// The tree is well formed over the boxes of the objects, and its root is
    /// a node.
    pub open spec fn wf(&self) -> bool {
        &&& self.tree is Node
        &&& self.tree.wf(boxes_of(self.objects@))
    }

    /// The hierarchy over `objects[start] .. objects[end - 1]`.
    ///
    /// `order` ends as the order in which the leaves hold the objects, and
    /// the tree has the shape that `BVHTree::shaped` describes over it.
    pub fn new(objects: Vec<H>, start: usize, end: usize) -> (r: Self)
        requires
            start < end <= objects.len(),
        ensures
            r.objects@ == objects@,
            r.wf(),
            r.tree.members() == Set::new(|i: int| start <= i < end),
            r.tree.bounds(boxes_of(objects@)) == range_union(
                boxes_of(objects@),
                in_order(objects@.len()),
                start as int,
                end as int,
            ),
            r.order@.len() == objects@.len(),
            range_set(r.order@, start as int, end as int) == Set::new(|i: int| start <= i < end),
            r.tree.shaped(boxes_of(objects@), r.order@, start as int, end as int),
            r.order@ == built_order(
                boxes_of(objects@),
                in_order(objects@.len()),
                start as int,
                end as int,
            ),
    {
        let mut boxes: Vec<AABB> = Vec::new();
        let mut order: Vec<usize> = Vec::new();
        let mut i: usize = 0;
        while i < objects.len()
            invariant
                i <= objects.len(),
                boxes.len() == i,
                order.len() == i,
                forall|k: int| 0 <= k < i ==> (#[trigger] boxes@[k]) == objects@[k].bounds(),
                forall|k: int| 0 <= k < i ==> (#[trigger] order@[k]) == k,
            decreases objects.len() - i,
        {
            boxes.push(objects[i].bounding_box());
            order.push(i);
            i = i + 1;
        }
        proof {
            assert(boxes@ =~= boxes_of(objects@));
            assert(order@ =~= in_order(objects@.len()));
            assert forall|v: int| (start <= v < end) implies range_set(
                order@,
                start as int,
                end as int,
            ).contains(v) by {
                assert(order@[v] == v);
            }
            assert(range_set(order@, start as int, end as int) =~= Set::new(
                |i: int| start <= i < end,
            ));
        }
        let tree = build_tree(&boxes, &mut order, start, end);
        BVHNode { objects, order, tree }
    }

    /// The hierarchy over all the objects of `list`.
    pub fn from_hittable_list(list: HittableList<H>) -> (r: Self)
        requires
            list.objects@.len() > 0,
        ensures
            r.objects@ == list.objects@,
            r.wf(),
            r.tree.members() == crate::hittable::below(list.objects@.len() as int),
            r.tree.bounds(boxes_of(r.objects@)) == range_union(
                boxes_of(r.objects@),
                in_order(r.objects@.len()),
                0,
                r.objects@.len() as int,
            ),
            r.tree.shaped(boxes_of(r.objects@), r.order@, 0, r.objects@.len() as int),
            r.order@ == built_order(
                boxes_of(r.objects@),
                in_order(r.objects@.len()),
                0,
                r.objects@.len() as int,
            ),
    {
        let num_objects: usize = list.objects.len();
        let node = Self::new(list.objects, 0, num_objects);
        proof {
            assert(node.tree.members() =~= crate::hittable::below(num_objects as int));
        }
        node
    }

    /// The nearest meeting of `ray` with any object of the hierarchy within
    /// `ray_t`; among equally near objects, the one that the descent keeps.
    pub fn hit(&self, ray: &H::Ray, ray_t: Interval) -> (r: Option<HitRecord>)
        requires
            self.wf(),
        ensures
            r == probe(self.tree, self.objects@, ray, ray_t),
            nearest_among(self.objects@, self.tree.members(), ray, ray_t, r),
    {
        proof {
            lemma_probe_nearest(self.tree, self.objects@, ray, ray_t);
        }
        hit_tree(&self.tree, &self.objects, ray, ray_t)
    }

    /// The box of the root.
    pub fn bounding_box(&self) -> (r: AABB)
        requires
            self.wf(),
        ensures
            r == self.tree.bounds(boxes_of(self.objects@)),
    {
        match &self.tree {
            BVHTree::Node { bounding_box, .. } => *bounding_box,
            BVHTree::Leaf { object } => self.objects[*object].bounding_box(),
        }
    }
}

/// A hierarchy over all the objects of a list finds what a scan of the list
/// finds: both report a meeting or neither does, both at the same distance,
/// and both with the same object unless the ray meets two objects at the same
/// distance.
pub proof fn lemma_bvh_matches_scan<H: Hittable>(
    tree: BVHTree,
    objects: Seq<H>,
    ray: &H::Ray,
    ray_t: Interval,
)
    requires
        objects.len() <= usize::MAX,
        tree.wf(boxes_of(objects)),
        tree.members() == crate::hittable::below(objects.len() as int),
    ensures
        probe(tree, objects, ray, ray_t).is_some() == scan(
            objects,
            ray,
            ray_t,
            objects.len() as int,
        ).is_some(),
        probe(tree, objects, ray, ray_t).is_some() ==> probe(tree, objects, ray, ray_t).unwrap().t
            == scan(objects, ray, ray_t, objects.len() as int).unwrap().t,
        (forall|i: int, j: int|
            0 <= i < j < objects.len() && objects[i].first_hit(ray, ray_t).is_some()
                ==> objects[i].first_hit(ray, ray_t) != objects[j].first_hit(ray, ray_t)) ==> probe(
            tree,
            objects,
            ray,
            ray_t,
        ) == scan(objects, ray, ray_t, objects.len() as int),
{
    lemma_probe_nearest(tree, objects, ray, ray_t);
    lemma_scan_nearest(objects, ray, ray_t, objects.len() as int);
    lemma_nearest_agree(
        objects,
        tree.members(),
        ray,
        ray_t,
        probe(tree, objects, ray, ray_t),
        scan(objects, ray, ray_t, objects.len() as int),
    );
}

} // verus!
