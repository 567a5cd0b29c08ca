//! Bounding-volume hierarchy over a list of primitives, kept as an arena of
//! nodes addressed by index. Primitives are named by their position in the
//! caller's list; for each one the caller hands in the minimum corner of its
//! bounding box as three order keys (one per axis, ordered as the coordinates
//! are). The boxes themselves, and every ray test, stay with the caller.
use vstd::prelude::*;

use crate::aabb::{encloses, lemma_encloses_trans, lemma_surrounding_box_is_smallest, surrounding, AABB};
use crate::random::rand_int;

verus! {

/// One side of a node: a primitive of the caller's list, or another node of the arena.
#[derive(Clone, Copy, Debug, PartialEq, Eq, Structural)]
pub enum Child {
    Leaf(usize),
    Node(usize),
}

/// An inner node: the axis its primitives were ordered along, and its two sides.
/// A node built over a single primitive has that primitive on both sides.
#[derive(Clone, Copy, Debug, PartialEq, Eq, Structural)]
pub struct BvhNode {
    pub axis: usize,
    pub left: Child,
    pub right: Child,
}

/// A hierarchy: nodes refer to leaves below `leaf_count` and to nodes of lower
/// index, so `root`, built last, is the highest node. `boxes[i]` is the
/// bounding box of node `i`.
pub struct Bvh {
    pub nodes: Vec<BvhNode>,
    pub boxes: Vec<AABB>,
    pub root: usize,
    pub leaf_count: usize,
}

/// Rank that strictly decreases from a node to each of its sides.
pub open spec fn rank(c: Child) -> nat {
    match c {
        Child::Leaf(_) => 0,
        Child::Node(i) => (i + 1) as nat,
    }
}

/// A side that exists: a leaf below `leaf_count`, or a node below `bound`.
pub open spec fn child_ok(c: Child, bound: int, leaf_count: int) -> bool {
    match c {
        Child::Leaf(l) => l < leaf_count,
        Child::Node(i) => i < bound,
    }
}

/// Every node points only at leaves that exist and at nodes built before it.
pub open spec fn shaped(nodes: Seq<BvhNode>, leaf_count: int) -> bool {
    forall|i: int|
        0 <= i < nodes.len() ==> {
            &&& child_ok(#[trigger] nodes[i].left, i, leaf_count)
            &&& child_ok(nodes[i].right, i, leaf_count)
            &&& nodes[i].axis < 3
        }
}

/// The primitives below a side.
pub open spec fn leaves(nodes: Seq<BvhNode>, c: Child) -> Set<usize>
    decreases rank(c),
{
    match c {
        Child::Leaf(l) => set![l],
        Child::Node(i) => {
            if i < nodes.len() && rank(nodes[i as int].left) < rank(c) && rank(
                nodes[i as int].right,
            ) < rank(c) {
                leaves(nodes, nodes[i as int].left).union(leaves(nodes, nodes[i as int].right))
            } else {
                Set::empty()
            }
        },
    }
}

/// How many primitives lie below a side; a node over a single primitive
/// counts it once.
pub open spec fn leaf_total(nodes: Seq<BvhNode>, c: Child) -> nat
    decreases rank(c),
{
    match c {
        Child::Leaf(_) => 1,
        Child::Node(i) => {
            if i < nodes.len() && rank(nodes[i as int].left) < rank(c) && rank(
                nodes[i as int].right,
            ) < rank(c) {
                if nodes[i as int].left == nodes[i as int].right {
                    leaf_total(nodes, nodes[i as int].left)
                } else {
                    leaf_total(nodes, nodes[i as int].left) + leaf_total(
                        nodes,
                        nodes[i as int].right,
                    )
                }
            } else {
                0
            }
        },
    }
}

/// Every node over two or more primitives holds half of them, rounded down,
/// on its left side.
pub open spec fn halved(nodes: Seq<BvhNode>) -> bool {
    forall|i: int|
        0 <= i < nodes.len() && #[trigger] nodes[i].left != nodes[i].right ==> leaf_total(
            nodes,
            nodes[i].left,
        ) == (leaf_total(nodes, nodes[i].left) + leaf_total(nodes, nodes[i].right)) / 2
}

/// The order key of a primitive's box minimum along an axis.
pub open spec fn key(keys: Seq<[u64; 3]>, item: usize, axis: int) -> u64 {
    keys[item as int][axis]
}

/// At every node, no primitive on the left has a larger key along the node's
/// axis than a primitive on the right.
pub open spec fn split_ordered(nodes: Seq<BvhNode>, keys: Seq<[u64; 3]>) -> bool {
    forall|i: int, a: usize, b: usize|
        0 <= i < nodes.len() && #[trigger] leaves(nodes, nodes[i].left).contains(a)
            && #[trigger] leaves(nodes, nodes[i].right).contains(b) ==> key(keys, a, nodes[i].axis as int)
            <= key(keys, b, nodes[i].axis as int)
}

/// Growing the arena does not change what an existing side covers.
proof fn lemma_leaves_prefix(small: Seq<BvhNode>, big: Seq<BvhNode>, c: Child, leaf_count: int)
    requires
        shaped(small, leaf_count),
        small.len() <= big.len(),
        big.subrange(0, small.len() as int) == small,
        child_ok(c, small.len() as int, leaf_count),
    ensures
        leaves(big, c) == leaves(small, c),
        leaf_total(big, c) == leaf_total(small, c),
    decreases rank(c),
{
    if let Child::Node(i) = c {
        assert(big[i as int] == small[i as int]);
        lemma_leaves_prefix(small, big, small[i as int].left, leaf_count);
        lemma_leaves_prefix(small, big, small[i as int].right, leaf_count);
    }
}

/// Whether `a` comes before `b` along `axis`: strictly smaller minimum; a tie
/// does not.
fn box_compare(keys: &Vec<[u64; 3]>, a: usize, b: usize, axis: usize) -> (r: bool)
    requires
        a < keys.len(),
        b < keys.len(),
        axis < 3,
    ensures
        r == (key(keys@, a, axis as int) < key(keys@, b, axis as int)),
{
    keys[a][axis] < keys[b][axis]
}

/// The items in order of their key along `axis`; items with equal keys keep
/// their relative order.
fn sort_along(objects: &Vec<usize>, keys: &Vec<[u64; 3]>, axis: usize) -> (out: Vec<usize>)
    requires
        axis < 3,
        forall|i: int| 0 <= i < objects.len() ==> objects[i] < keys.len(),
    ensures
        out@.to_multiset() == objects@.to_multiset(),
        out.len() == objects.len(),
        forall|i: int| 0 <= i < out.len() ==> out[i] < keys.len(),
        forall|i: int, j: int|
            0 <= i < j < out.len() ==> key(keys@, out[i], axis as int) <= key(
                keys@,
                out[j],
                axis as int,
            ),
{
    broadcast use vstd::seq_lib::group_to_multiset_ensures;
    let mut out: Vec<usize> = Vec::new();
    let n = objects.len();
    let mut k: usize = 0;
    while k < n
        invariant
            k <= n == objects.len(),
            axis < 3,
            forall|i: int| 0 <= i < objects.len() ==> objects[i] < keys.len(),
            out@.to_multiset() == objects@.subrange(0, k as int).to_multiset(),
            out.len() == k,
            forall|i: int| 0 <= i < out.len() ==> out[i] < keys.len(),
            forall|i: int, j: int|
                0 <= i < j < out.len() ==> key(keys@, out[i], axis as int) <= key(
                    keys@,
                    out[j],
                    axis as int,
                ),
        decreases n - k,
    {
        let x = objects[k];
        let mut p: usize = 0;
        while p < out.len() && !box_compare(keys, x, out[p], axis)
            invariant
                p <= out.len(),
                x < keys.len(),
                axis < 3,
                forall|i: int| 0 <= i < out.len() ==> out[i] < keys.len(),
                forall|i: int| 0 <= i < p ==> key(keys@, out[i], axis as int) <= key(keys@, x, axis as int),
            decreases out.len() - p,
        {
            p = p + 1;
        }
        proof {
            if p < out.len() {
                assert(key(keys@, x, axis as int) < key(keys@, out[p as int], axis as int));
            }
            assert(objects@.subrange(0, k + 1) == objects@.subrange(0, k as int).push(x));
        }
        let ghost before = out@;
        out.insert(p, x);
        proof {
            before.insert_ensures(p as int, x);
            assert(out@ == before.insert(p as int, x));
            vstd::seq_lib::to_multiset_insert(before, p as int, x);
            vstd::seq_lib::to_multiset_build(objects@.subrange(0, k as int), x);
        }
        k = k + 1;
    }
    assert(objects@.subrange(0, n as int) == objects@);
    out
}

/// Sequences holding the same items, counted with multiplicity, hold the same items.
proof fn lemma_same_multiset_same_set(a: Seq<usize>, b: Seq<usize>)
    requires
        a.to_multiset() == b.to_multiset(),
    ensures
        a.to_set() == b.to_set(),
{
    broadcast use vstd::seq_lib::to_multiset_contains;
    assert forall|x: usize| a.to_set().contains(x) <==> b.to_set().contains(x) by {
        assert(a.contains(x) <==> a.to_multiset().count(x) > 0);
        assert(b.contains(x) <==> b.to_multiset().count(x) > 0);
    }
    assert(a.to_set() =~= b.to_set());
}

/// The items of `v` from `lo` up to `hi`, as a vector of their own.
fn copy_range(v: &Vec<usize>, lo: usize, hi: usize) -> (out: Vec<usize>)
    requires
        lo <= hi <= v.len(),
    ensures
        out@ == v@.subrange(lo as int, hi as int),
{
    let mut out: Vec<usize> = Vec::new();
    let mut i: usize = lo;
    while i < hi
        invariant
            lo <= i <= hi <= v.len(),
            out@ == v@.subrange(lo as int, i as int),
        decreases hi - i,
    {
        out.push(v[i]);
        i = i + 1;
    }
    out
}

/// Along `axis`, nothing below `left` has a larger key than anything below `right`.
pub open spec fn ordered_sides(
    nodes: Seq<BvhNode>,
    left: Child,
    right: Child,
    keys: Seq<[u64; 3]>,
    axis: int,
) -> bool {
    forall|a: usize, b: usize|
        #[trigger] leaves(nodes, left).contains(a) && #[trigger] leaves(nodes, right).contains(b)
            ==> key(keys, a, axis) <= key(keys, b, axis)
}

/// The two halves of a sorted arrangement of distinct items: each distinct,
/// together the items, and the left one no further along the axis.
proof fn lemma_sorted_halves(
    objects: Seq<usize>,
    sorted: Seq<usize>,
    left: Seq<usize>,
    right: Seq<usize>,
    keys: Seq<[u64; 3]>,
    axis: int,
    mid: int,
)
    requires
        objects.no_duplicates(),
        sorted.to_multiset() == objects.to_multiset(),
        0 <= mid <= sorted.len(),
        left == sorted.subrange(0, mid),
        right == sorted.subrange(mid, sorted.len() as int),
        forall|i: int, j: int|
            0 <= i < j < sorted.len() ==> key(keys, sorted[i], axis) <= key(keys, sorted[j], axis),
    ensures
        left.no_duplicates(),
        right.no_duplicates(),
        left.to_set().union(right.to_set()) == objects.to_set(),
        forall|a: usize, b: usize|
            #[trigger] left.to_set().contains(a) && #[trigger] right.to_set().contains(b) ==> key(
                keys,
                a,
                axis,
            ) <= key(keys, b, axis),
{
    objects.lemma_multiset_has_no_duplicates();
    sorted.lemma_multiset_has_no_duplicates_conv();
    assert(right.no_duplicates()) by {
        assert forall|a: int, b: int|
            0 <= a < right.len() && 0 <= b < right.len() && a != b implies right[a] != right[b] by {
            assert(right[a] == sorted[mid + a]);
            assert(right[b] == sorted[mid + b]);
        }
    }
    lemma_same_multiset_same_set(sorted, objects);
    assert(sorted =~= left + right);
    vstd::seq_lib::seq_to_set_distributes_over_add(left, right);
    assert forall|a: usize, b: usize|
        #[trigger] left.to_set().contains(a) && #[trigger] right.to_set().contains(b) implies key(
        keys,
        a,
        axis,
    ) <= key(keys, b, axis) by {
        let ia = left.index_of(a);
        let ib = right.index_of(b);
        assert(sorted[ia] == a);
        assert(sorted[mid + ib] == b);
    }
}

/// Appending a node whose sides exist, are ordered along its axis and split
/// its primitives in half keeps the arena shaped, ordered and halved, and
/// leaves what the older sides cover unchanged.
proof fn lemma_push_node(before: Seq<BvhNode>, node: BvhNode, keys: Seq<[u64; 3]>, n_keys: int)
    requires
        before.len() < usize::MAX,
        shaped(before, n_keys),
        split_ordered(before, keys),
        halved(before),
        child_ok(node.left, before.len() as int, n_keys),
        child_ok(node.right, before.len() as int, n_keys),
        node.axis < 3,
        ordered_sides(before, node.left, node.right, keys, node.axis as int),
        node.left != node.right ==> leaf_total(before, node.left) == (leaf_total(
            before,
            node.left,
        ) + leaf_total(before, node.right)) / 2,
    ensures
        ({
            let cur = before.push(node);
            &&& shaped(cur, n_keys)
            &&& split_ordered(cur, keys)
            &&& halved(cur)
            &&& cur.subrange(0, before.len() as int) == before
            &&& leaves(cur, Child::Node(before.len() as usize)) == leaves(before, node.left).union(
                leaves(before, node.right),
            )
            &&& leaf_total(cur, Child::Node(before.len() as usize)) == if node.left == node.right {
                leaf_total(before, node.left)
            } else {
                leaf_total(before, node.left) + leaf_total(before, node.right)
            }
        }),
{
    let cur = before.push(node);
    let idx = before.len() as usize;
    assert(cur.subrange(0, before.len() as int) =~= before);
    assert forall|c: Child| child_ok(c, before.len() as int, n_keys) implies leaves(cur, c)
        == leaves(before, c) && leaf_total(cur, c) == leaf_total(before, c) by {
        lemma_leaves_prefix(before, cur, c, n_keys);
    }
    assert(cur[idx as int] == node);
    assert(leaves(cur, Child::Node(idx)) == leaves(cur, node.left).union(leaves(cur, node.right)));
    assert forall|i: int|
        0 <= i < cur.len() && #[trigger] cur[i].left != cur[i].right implies leaf_total(
        cur,
        cur[i].left,
    ) == (leaf_total(cur, cur[i].left) + leaf_total(cur, cur[i].right)) / 2 by {
        if i < before.len() {
            assert(cur[i] == before[i]);
        }
    }
    assert forall|i: int, a: usize, b: usize|
        0 <= i < cur.len() && #[trigger] leaves(cur, cur[i].left).contains(a)
            && #[trigger] leaves(cur, cur[i].right).contains(b) implies key(
        keys,
        a,
        cur[i].axis as int,
    ) <= key(keys, b, cur[i].axis as int) by {
        if i < before.len() {
            assert(cur[i] == before[i]);
            assert(leaves(cur, cur[i].left) == leaves(before, before[i].left));
            assert(leaves(cur, cur[i].right) == leaves(before, before[i].right));
        } else {
            assert(leaves(cur, node.left) == leaves(before, node.left));
            assert(leaves(cur, node.right) == leaves(before, node.right));
        }
    }
}

/// Builds the node over `objects` and those below it, appending them to
/// `nodes`, and returns its index. An axis is drawn at each call. One item
/// sits on both sides; two are ordered by their keys along the axis; more are
/// sorted along it and split at the middle index, each half built in turn.
fn new_from_vec(
    objects: Vec<usize>,
    keys: &Vec<[u64; 3]>,
    rng: &mut rand::rngs::StdRng,
    nodes: &mut Vec<BvhNode>,
) -> (idx: usize)
    requires
        objects.len() > 0,
        objects@.no_duplicates(),
        forall|i: int| 0 <= i < objects.len() ==> objects[i] < keys.len(),
        shaped(old(nodes)@, keys.len() as int),
        split_ordered(old(nodes)@, keys@),
        halved(old(nodes)@),
        old(nodes).len() < usize::MAX - 2 * objects.len(),
    ensures
        shaped(final(nodes)@, keys.len() as int),
        split_ordered(final(nodes)@, keys@),
        old(nodes).len() <= idx < final(nodes).len(),
        final(nodes).len() + 1 <= old(nodes).len() + 2 * objects.len(),
        final(nodes)@.subrange(0, old(nodes).len() as int) == old(nodes)@,
        leaves(final(nodes)@, Child::Node(idx)) == objects@.to_set(),
        leaf_total(final(nodes)@, Child::Node(idx)) == objects.len(),
        halved(final(nodes)@),
    decreases objects.len(),
{
    let ghost start = nodes@;
    let ghost n_keys = keys.len() as int;
    let axis = rand_int(0, 2, rng) as usize;
    let span = objects.len();
    let left: Child;
    let right: Child;
    if span == 1 {
        left = Child::Leaf(objects[0]);
        right = Child::Leaf(objects[0]);
        proof {
            assert(objects@.to_set() =~= set![objects[0]]);
            assert(leaves(nodes@, left) =~= set![objects[0]]);
        }
    } else if span == 2 {
        if box_compare(keys, objects[0], objects[1], axis) {
            left = Child::Leaf(objects[0]);
            right = Child::Leaf(objects[1]);
        } else {
            left = Child::Leaf(objects[1]);
            right = Child::Leaf(objects[0]);
        }
        proof {
            assert(objects@.to_set() =~= set![objects[0], objects[1]]);
            assert(leaves(nodes@, left).union(leaves(nodes@, right)) =~= objects@.to_set());
        }
    } else {
        let sorted = sort_along(&objects, keys, axis);
        let mid = span / 2;
        let left_objects = copy_range(&sorted, 0, mid);
        let right_objects = copy_range(&sorted, mid, span);
        proof {
            lemma_sorted_halves(objects@, sorted@, left_objects@, right_objects@, keys@, axis as int, mid as int);
        }
        let li = new_from_vec(left_objects, keys, rng, nodes);
        let ghost after_left = nodes@;
        let ri = new_from_vec(right_objects, keys, rng, nodes);
        proof {
            assert(after_left.subrange(0, start.len() as int) == start) by {
                assert(after_left.subrange(0, start.len() as int) =~= nodes@.subrange(
                    0,
                    after_left.len() as int,
                ).subrange(0, start.len() as int));
            }
            lemma_leaves_prefix(after_left, nodes@, Child::Node(li), n_keys);
            assert(li < ri);
            assert(leaves(nodes@, Child::Node(li)) == left_objects@.to_set());
            assert(leaves(nodes@, Child::Node(ri)) == right_objects@.to_set());
        }
        left = Child::Node(li);
        right = Child::Node(ri);
    }
    let ghost before_push = nodes@;
    proof {
        assert(span >= 2 ==> left != right);
    }
    nodes.push(BvhNode { axis, left, right });
    let idx = nodes.len() - 1;
    proof {
        lemma_push_node(before_push, BvhNode { axis, left, right }, keys@, n_keys);
        assert(nodes@.subrange(0, start.len() as int) =~= start) by {
            assert(before_push.subrange(0, start.len() as int) == start);
            assert(nodes@.subrange(0, before_push.len() as int) == before_push);
        }
        assert(leaves(nodes@, Child::Node(idx)) =~= objects@.to_set());
    }
    idx
}

/// The box of a side: the primitive's own box, or the node's.
pub open spec fn side_box(boxes: Seq<AABB>, bounds: Seq<AABB>, c: Child) -> AABB {
    match c {
        Child::Leaf(l) => bounds[l as int],
        Child::Node(i) => boxes[i as int],
    }
}

/// Node `i`'s box is the surrounding box of its two sides' boxes.
pub open spec fn box_rule(nodes: Seq<BvhNode>, boxes: Seq<AABB>, bounds: Seq<AABB>, i: int) -> bool {
    boxes[i] == surrounding(
        side_box(boxes, bounds, nodes[i].left),
        side_box(boxes, bounds, nodes[i].right),
    )
}

/// The first `k` nodes' boxes are each the surrounding box of their two
/// sides' boxes, and so hold the box of every primitive below them.
pub open spec fn boxed_upto(nodes: Seq<BvhNode>, boxes: Seq<AABB>, bounds: Seq<AABB>, k: int) -> bool {
    &&& boxes.len() == k
    &&& forall|i: int| 0 <= i < k ==> #[trigger] box_rule(nodes, boxes, bounds, i)
    &&& forall|i: usize, l: usize|
        i < k && #[trigger] leaves(nodes, Child::Node(i)).contains(l) ==> encloses(
            boxes[i as int],
            bounds[l as int],
        )
}

/// Every node's box is the surrounding box of its two sides' boxes, and so
/// holds the box of every primitive below it.
pub open spec fn boxed(nodes: Seq<BvhNode>, boxes: Seq<AABB>, bounds: Seq<AABB>) -> bool {
    boxed_upto(nodes, boxes, bounds, nodes.len() as int)
}

/// Growing the boxes past the nodes' sides leaves the sides' boxes unchanged.
proof fn lemma_side_boxes_kept(
    nodes: Seq<BvhNode>,
    boxes: Seq<AABB>,
    bounds: Seq<AABB>,
    i: int,
    merged: AABB,
)
    requires
        0 <= i < nodes.len(),
        boxes.len() == i,
        shaped(nodes, bounds.len() as int),
    ensures
        forall|j: int|
            0 <= j <= i ==> side_box(boxes.push(merged), bounds, #[trigger] nodes[j].left)
                == side_box(boxes, bounds, nodes[j].left) && side_box(
                boxes.push(merged),
                bounds,
                nodes[j].right,
            ) == side_box(boxes, bounds, nodes[j].right),
{
    assert forall|j: int| 0 <= j <= i implies side_box(boxes.push(merged), bounds, #[trigger] nodes[j].left)
        == side_box(boxes, bounds, nodes[j].left) && side_box(
        boxes.push(merged),
        bounds,
        nodes[j].right,
    ) == side_box(boxes, bounds, nodes[j].right) by {
        assert(child_ok(nodes[j].left, j, bounds.len() as int));
        assert(child_ok(nodes[j].right, j, bounds.len() as int));
    }
}

/// The new node's box holds the box of every primitive below it.
proof fn lemma_new_box_encloses(
    nodes: Seq<BvhNode>,
    boxes: Seq<AABB>,
    bounds: Seq<AABB>,
    i: int,
)
    requires
        0 <= i < nodes.len(),
        i < usize::MAX,
        shaped(nodes, bounds.len() as int),
        boxed_upto(nodes, boxes, bounds, i),
    ensures
        forall|l: usize|
            #[trigger] leaves(nodes, Child::Node(i as usize)).contains(l) ==> encloses(
                surrounding(
                    side_box(boxes, bounds, nodes[i].left),
                    side_box(boxes, bounds, nodes[i].right),
                ),
                bounds[l as int],
            ),
{
    let node = nodes[i];
    let left = side_box(boxes, bounds, node.left);
    let right = side_box(boxes, bounds, node.right);
    let merged = surrounding(left, right);
    assert(child_ok(node.left, i, bounds.len() as int));
    assert(child_ok(node.right, i, bounds.len() as int));
    lemma_surrounding_box_is_smallest(left, right, merged);
    assert(leaves(nodes, Child::Node(i as usize)) == leaves(nodes, node.left).union(
        leaves(nodes, node.right),
    ));
    assert forall|l: usize| #[trigger] leaves(nodes, Child::Node(i as usize)).contains(l) implies encloses(
        merged,
        bounds[l as int],
    ) by {
        if leaves(nodes, node.left).contains(l) {
            if let Child::Node(k) = node.left {
                assert(leaves(nodes, Child::Node(k)).contains(l));
                lemma_encloses_trans(merged, left, bounds[l as int]);
            }
        } else {
            if let Child::Node(k) = node.right {
                assert(leaves(nodes, Child::Node(k)).contains(l));
                lemma_encloses_trans(merged, right, bounds[l as int]);
            }
        }
    }
}

proof fn lemma_push_box(nodes: Seq<BvhNode>, boxes: Seq<AABB>, bounds: Seq<AABB>, i: int)
    requires
        0 <= i < nodes.len(),
        i < usize::MAX,
        shaped(nodes, bounds.len() as int),
        boxed_upto(nodes, boxes, bounds, i),
    ensures
        boxed_upto(
            nodes,
            boxes.push(
                surrounding(
                    side_box(boxes, bounds, nodes[i].left),
                    side_box(boxes, bounds, nodes[i].right),
                ),
            ),
            bounds,
            i + 1,
        ),
{
    let merged = surrounding(
        side_box(boxes, bounds, nodes[i].left),
        side_box(boxes, bounds, nodes[i].right),
    );
    let grown = boxes.push(merged);
    lemma_side_boxes_kept(nodes, boxes, bounds, i, merged);
    lemma_new_box_encloses(nodes, boxes, bounds, i);
    assert forall|j: int| 0 <= j < i + 1 implies #[trigger] box_rule(nodes, grown, bounds, j) by {
        if j < i {
            assert(box_rule(nodes, boxes, bounds, j));
            assert(grown[j] == boxes[j]);
        }
    }
    assert forall|j: usize, l: usize|
        j < i + 1 && #[trigger] leaves(nodes, Child::Node(j)).contains(l) implies encloses(
        grown[j as int],
        bounds[l as int],
    ) by {
        if j < i {
            assert(grown[j as int] == boxes[j as int]);
        } else {
            assert(j == i as usize);
            assert(leaves(nodes, Child::Node(i as usize)).contains(l));
        }
    }
}

/// The box of every node, children before parents.
fn node_boxes(nodes: &Vec<BvhNode>, bounds: &Vec<AABB>) -> (boxes: Vec<AABB>)
    requires
        shaped(nodes@, bounds.len() as int),
    ensures
        boxed(nodes@, boxes@, bounds@),
{
    let mut boxes: Vec<AABB> = Vec::new();
    let n = nodes.len();
    let mut i: usize = 0;
    while i < n
        invariant
            i <= n == nodes.len(),
            shaped(nodes@, bounds.len() as int),
            boxed_upto(nodes@, boxes@, bounds@, i as int),
        decreases n - i,
    {
        let node = nodes[i];
        assert(child_ok(node.left, i as int, bounds.len() as int));
        assert(child_ok(node.right, i as int, bounds.len() as int));
        let left = match node.left {
            Child::Leaf(l) => bounds[l],
            Child::Node(j) => boxes[j],
        };
        let right = match node.right {
            Child::Leaf(l) => bounds[l],
            Child::Node(j) => boxes[j],
        };
        let merged = left.surrounding_box(&right);
        proof {
            lemma_push_box(nodes@, boxes@, bounds@, i as int);
        }
        boxes.push(merged);
        i = i + 1;
    }
    boxes
}

impl Bvh {
    /// Nodes refer only to what exists, and the root is a node of the arena.
    pub open spec fn wf(&self) -> bool {
        &&& shaped(self.nodes@, self.leaf_count as int)
        &&& self.root < self.nodes.len()
        &&& self.boxes.len() == self.nodes.len()
    }

    /// The primitives below the root.
    pub open spec fn covered(&self) -> Set<usize> {
        leaves(self.nodes@, Child::Node(self.root))
    }

    /// Builds the hierarchy over primitives `0..keys.len()`, where `keys[i]`
    /// holds the order keys of primitive `i`'s box minimum along x, y and z
    /// (the box over the time interval `0..1`), and `bounds[i]` its box over
    /// the hierarchy's own time interval, from which the node boxes are made.
    /// Each node's axis is drawn from `rng`; the tree covers every primitive,
    /// every node over two or more primitives holds half of them (rounded
    /// down) on its left, and that left side lies no further along the node's
    /// axis than its right side.
    pub fn new(keys: &Vec<[u64; 3]>, bounds: &Vec<AABB>, rng: &mut rand::rngs::StdRng) -> (tree: Bvh)
        requires
            keys.len() > 0,
            keys.len() < usize::MAX / 4,
            bounds.len() == keys.len(),
        ensures
            tree.wf(),
            boxed(tree.nodes@, tree.boxes@, bounds@),
            tree.leaf_count == keys.len(),
            split_ordered(tree.nodes@, keys@),
            halved(tree.nodes@),
            leaf_total(tree.nodes@, Child::Node(tree.root)) == keys.len(),
            forall|i: usize| #[trigger] tree.covered().contains(i) <==> i < keys.len(),
    {
        let n = keys.len();
        let mut objects: Vec<usize> = Vec::new();
        let mut i: usize = 0;
        while i < n
            invariant
                i <= n == keys.len(),
                objects.len() == i,
                forall|j: int| 0 <= j < i ==> objects[j] == j,
            decreases n - i,
        {
            objects.push(i);
            i = i + 1;
        }
        let ghost all = objects@;
        assert(objects@.no_duplicates());
        let mut nodes: Vec<BvhNode> = Vec::new();
        let root = new_from_vec(objects, keys, rng, &mut nodes);
        proof {
            assert forall|j: usize| all.to_set().contains(j) <==> j < n by {
                if j < n {
                    assert(all[j as int] == j);
                }
            }
        }
        let boxes = node_boxes(&nodes, bounds);
        Bvh { nodes, boxes, root, leaf_count: n }
    }
}

} // verus!
