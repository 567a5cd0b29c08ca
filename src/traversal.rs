//! Nearest-hit traversal of a [`Bvh`], as a walk that the caller drives: the
//! walk names the next box or primitive to test, the caller tests it against
//! the ray and reports back. Hit distances are exchanged as order keys (ordered
//! as the ray parameters are); the walk keeps the key of the nearest hit so far,
//! which bounds every later test.
use vstd::prelude::*;

use crate::bvh::{child_ok, leaves, rank, shaped, Bvh, BvhNode, Child};

verus! {

/// A primitive's hit, kept only when it is no further than `bound`.
pub open spec fn hit_within(hit: Option<u64>, bound: u64) -> Option<u64> {
    match hit {
        Some(t) => if t <= bound {
            Some(t)
        } else {
            None
        },
        None => None,
    }
}

/// The nearer of two hits; no hit loses to any hit.
pub open spec fn nearer(a: Option<u64>, b: Option<u64>) -> Option<u64> {
    match (a, b) {
        (Some(x), Some(y)) => if x <= y {
            Some(x)
        } else {
            Some(y)
        },
        (Some(x), None) => Some(x),
        (None, _) => b,
    }
}

/// The nearest hit within `bound` among the primitives below `c`, where
/// `first[l]` is the key of primitive `l`'s first intersection with the ray
/// past the interval's start.
pub open spec fn nearest_below(
    nodes: Seq<BvhNode>,
    first: Seq<Option<u64>>,
    c: Child,
    bound: u64,
) -> Option<u64>
    decreases rank(c),
{
    match c {
        Child::Leaf(l) => hit_within(first[l as int], bound),
        Child::Node(i) => {
            if i < nodes.len() && rank(nodes[i as int].left) < rank(c) && rank(
                nodes[i as int].right,
            ) < rank(c) {
                nearer(
                    nearest_below(nodes, first, nodes[i as int].left, bound),
                    nearest_below(nodes, first, nodes[i as int].right, bound),
                )
            } else {
                None
            }
        },
    }
}

/// The nearest hit within `bound` below any side still on the stack.
pub open spec fn nearest_pending(
    nodes: Seq<BvhNode>,
    first: Seq<Option<u64>>,
    pending: Seq<Child>,
    bound: u64,
) -> Option<u64>
    decreases pending.len(),
{
    if pending.len() == 0 {
        None
    } else {
        nearer(
            nearest_below(nodes, first, pending.last(), bound),
            nearest_pending(nodes, first, pending.drop_last(), bound),
        )
    }
}

/// The hit that a linear pass over the primitives finds, testing each in
/// turn with the nearest hit so far (or `limit`) as the far end.
pub open spec fn scan_nearest(first: Seq<Option<u64>>, limit: u64) -> Option<u64>
    decreases first.len(),
{
    if first.len() == 0 {
        None
    } else {
        let before = scan_nearest(first.drop_last(), limit);
        let bound = match before {
            Some(k) => k,
            None => limit,
        };
        match hit_within(first.last(), bound) {
            Some(k) => Some(k),
            None => before,
        }
    }
}

/// Narrowing the far end drops exactly the hits beyond it.
proof fn lemma_below_narrowed(
    nodes: Seq<BvhNode>,
    first: Seq<Option<u64>>,
    c: Child,
    wide: u64,
    narrow: u64,
)
    requires
        narrow <= wide,
    ensures
        nearest_below(nodes, first, c, narrow) == hit_within(
            nearest_below(nodes, first, c, wide),
            narrow,
        ),
    decreases rank(c),
{
    if let Child::Node(i) = c {
        if i < nodes.len() && rank(nodes[i as int].left) < rank(c) && rank(nodes[i as int].right)
            < rank(c) {
            lemma_below_narrowed(nodes, first, nodes[i as int].left, wide, narrow);
            lemma_below_narrowed(nodes, first, nodes[i as int].right, wide, narrow);
        }
    }
}

/// Narrowing the far end drops exactly the pending hits beyond it.
proof fn lemma_pending_narrowed(
    nodes: Seq<BvhNode>,
    first: Seq<Option<u64>>,
    pending: Seq<Child>,
    wide: u64,
    narrow: u64,
)
    requires
        narrow <= wide,
    ensures
        nearest_pending(nodes, first, pending, narrow) == hit_within(
            nearest_pending(nodes, first, pending, wide),
            narrow,
        ),
    decreases pending.len(),
{
    if pending.len() > 0 {
        lemma_below_narrowed(nodes, first, pending.last(), wide, narrow);
        lemma_pending_narrowed(nodes, first, pending.drop_last(), wide, narrow);
    }
}

/// `v` is the nearest hit within `bound` among the primitives of `s`.
pub open spec fn is_nearest_of(
    v: Option<u64>,
    s: Set<usize>,
    first: Seq<Option<u64>>,
    bound: u64,
) -> bool {
    &&& forall|l: usize|
        #[trigger] s.contains(l) && hit_within(first[l as int], bound) is Some ==> (v is Some
            && v->Some_0 <= hit_within(first[l as int], bound)->Some_0)
    &&& v matches Some(k) ==> exists|l: usize|
        #[trigger] s.contains(l) && hit_within(first[l as int], bound) == Some(k)
}

proof fn lemma_nearest_unique(
    v: Option<u64>,
    w: Option<u64>,
    s: Set<usize>,
    first: Seq<Option<u64>>,
    bound: u64,
)
    requires
        is_nearest_of(v, s, first, bound),
        is_nearest_of(w, s, first, bound),
    ensures
        v == w,
{
    if let Some(k) = v {
        let l = choose|l: usize| #[trigger] s.contains(l) && hit_within(first[l as int], bound) == Some(k);
        assert(s.contains(l));
    }
    if let Some(k) = w {
        let l = choose|l: usize| #[trigger] s.contains(l) && hit_within(first[l as int], bound) == Some(k);
        assert(s.contains(l));
    }
}

proof fn lemma_below_is_nearest(
    nodes: Seq<BvhNode>,
    first: Seq<Option<u64>>,
    c: Child,
    bound: u64,
    leaf_count: int,
)
    requires
        shaped(nodes, leaf_count),
        child_ok(c, nodes.len() as int, leaf_count),
    ensures
        is_nearest_of(nearest_below(nodes, first, c, bound), leaves(nodes, c), first, bound),
    decreases rank(c),
{
    match c {
        Child::Leaf(l) => {
            let v = nearest_below(nodes, first, c, bound);
            assert(leaves(nodes, c).contains(l));
            if v is Some {
                assert(leaves(nodes, c).contains(l) && hit_within(first[l as int], bound) == v);
            }
        },
        Child::Node(i) => {
            let node = nodes[i as int];
            assert(child_ok(node.left, i as int, leaf_count));
            assert(child_ok(node.right, i as int, leaf_count));
            lemma_below_is_nearest(nodes, first, node.left, bound, leaf_count);
            lemma_below_is_nearest(nodes, first, node.right, bound, leaf_count);
            let sl = leaves(nodes, node.left);
            let sr = leaves(nodes, node.right);
            let vl = nearest_below(nodes, first, node.left, bound);
            let vr = nearest_below(nodes, first, node.right, bound);
            let v = nearest_below(nodes, first, c, bound);
            assert(leaves(nodes, c) == sl.union(sr));
            if let Some(k) = v {
                if v == vl {
                    let l = choose|l: usize| #[trigger] sl.contains(l) && hit_within(first[l as int], bound) == Some(k);
                    assert(leaves(nodes, c).contains(l));
                } else {
                    let l = choose|l: usize| #[trigger] sr.contains(l) && hit_within(first[l as int], bound) == Some(k);
                    assert(leaves(nodes, c).contains(l));
                }
            }
        },
    }
}

proof fn lemma_scan_is_nearest(first: Seq<Option<u64>>, limit: u64)
    requires
        first.len() <= usize::MAX,
    ensures
        is_nearest_of(
            scan_nearest(first, limit),
            Set::new(|l: usize| l < first.len()),
            first,
            limit,
        ),
    decreases first.len(),
{
    let all = Set::new(|l: usize| l < first.len());
    let v = scan_nearest(first, limit);
    if first.len() > 0 {
        let rest = first.drop_last();
        let earlier = Set::new(|l: usize| l < rest.len());
        lemma_scan_is_nearest(rest, limit);
        let before = scan_nearest(rest, limit);
        let last = (first.len() - 1) as usize;
        assert(first.last() == first[last as int]);
        if let Some(k) = before {
            let l = choose|l: usize| #[trigger] earlier.contains(l) && hit_within(rest[l as int], limit) == Some(k);
            assert(first[l as int] == rest[l as int]);
        }
        assert forall|l: usize| #[trigger] all.contains(l) && hit_within(first[l as int], limit) is Some
            implies (v is Some && v->Some_0 <= hit_within(first[l as int], limit)->Some_0) by {
            if l < last {
                assert(earlier.contains(l));
                assert(first[l as int] == rest[l as int]);
            }
        }
        if let Some(k) = v {
            if v == before {
                let l = choose|l: usize| #[trigger] earlier.contains(l) && hit_within(rest[l as int], limit) == Some(k);
                assert(first[l as int] == rest[l as int]);
                assert(all.contains(l));
            } else {
                assert(all.contains(last));
            }
        }
    }
}

/// Traversing the hierarchy is an optimisation, not a change of answer: a walk
/// over a tree that covers primitives `0..first.len()`, run to its end with each
/// primitive test reporting the primitive's first intersection when it lies no
/// further than the current far end and each box test reporting every node below
/// which such a hit exists, ends with the hit that a linear pass over all the
/// primitives finds.
pub proof fn lemma_walk_matches_scan(tree: &Bvh, walk: &BvhWalk, first: Seq<Option<u64>>)
    requires
        walk.tracks(tree, first),
        walk.pending.len() == 0,
        first.len() == tree.leaf_count,
        forall|i: usize| #[trigger] tree.covered().contains(i) <==> i < tree.leaf_count,
    ensures
        walk.nearest == scan_nearest(first, walk.limit),
{
    let nodes = tree.nodes@;
    let root = Child::Node(tree.root);
    assert(nearest_pending(nodes, first, walk.pending@, walk.bound()) is None);
    lemma_below_is_nearest(nodes, first, root, walk.limit, tree.leaf_count as int);
    lemma_scan_is_nearest(first, walk.limit);
    assert(tree.covered() =~= Set::new(|l: usize| l < first.len()));
    lemma_nearest_unique(
        nearest_below(nodes, first, root, walk.limit),
        scan_nearest(first, walk.limit),
        tree.covered(),
        first,
        walk.limit,
    );
}

/// What to test next.
#[derive(Clone, Copy, Debug, PartialEq, Eq, Structural)]
pub enum Probe {
    /// The bounding box of this node of the arena.
    Bounds(usize),
    /// This primitive of the caller's list.
    Primitive(usize),
    /// Nothing: the walk is over and `nearest` is the answer.
    Finished,
}

/// A walk in progress: the sides still to visit, top last, and the nearest hit
/// so far, below the far end `limit` of the ray's interval.
pub struct BvhWalk {
    pub pending: Vec<Child>,
    pub nearest: Option<u64>,
    pub limit: u64,
}

impl BvhWalk {
    /// The far end that every test uses now.
    pub open spec fn bound(&self) -> u64 {
        match self.nearest {
            Some(k) => k,
            None => self.limit,
        }
    }

    /// The walk's invariant against the ray's actual first intersections
    /// `first`: the nearest hit of the whole tree is the nearer of the hit
    /// kept and the nearest one still pending.
    pub open spec fn tracks(&self, tree: &Bvh, first: Seq<Option<u64>>) -> bool {
        &&& tree.wf()
        &&& forall|i: int|
            0 <= i < self.pending.len() ==> child_ok(
                #[trigger] self.pending[i],
                tree.nodes.len() as int,
                tree.leaf_count as int,
            )
        &&& (self.nearest matches Some(k) ==> k <= self.limit)
        &&& nearest_below(tree.nodes@, first, Child::Node(tree.root), self.limit) == nearer(
            self.nearest,
            nearest_pending(tree.nodes@, first, self.pending@, self.bound()),
        )
    }

    /// A walk from the root over the interval that ends at `limit`.
    pub fn new(tree: &Bvh, limit: u64) -> (walk: BvhWalk)
        requires
            tree.wf(),
        ensures
            walk.limit == limit,
            walk.nearest is None,
            walk.pending@ == seq![Child::Node(tree.root)],
            forall|first: Seq<Option<u64>>| #[trigger] walk.tracks(tree, first),
    {
        let mut pending: Vec<Child> = Vec::new();
        pending.push(Child::Node(tree.root));
        let walk = BvhWalk { pending, nearest: None, limit };
        proof {
            assert forall|first: Seq<Option<u64>>| #[trigger] walk.tracks(tree, first) by {
                let nodes = tree.nodes@;
                assert(walk.pending@.drop_last() =~= Seq::<Child>::empty());
                assert(nearest_pending(nodes, first, Seq::<Child>::empty(), limit) is None);
                assert(nearest_pending(nodes, first, walk.pending@, limit) == nearest_below(
                    nodes,
                    first,
                    Child::Node(tree.root),
                    limit,
                ));
            }
        }
        walk
    }

    /// Takes the caller's box test of the node on top of the stack: on a hit
    /// its two sides replace it, left on top; on a miss it is dropped. The box
    /// test may report hits that no primitive below confirms, but not miss a
    /// node below which a primitive is hit within the current far end.
    pub fn record_bounds(&mut self, tree: &Bvh, hit: bool)
        requires
            old(self).pending.len() > 0,
            old(self).pending@.last() matches Child::Node(i) && i < tree.nodes.len(),
        ensures
            final(self).limit == old(self).limit,
            final(self).nearest == old(self).nearest,
            old(self).pending@.last() matches Child::Node(i) && final(self).pending@ == if hit {
                old(self).pending@.drop_last().push(tree.nodes@[i as int].right).push(
                    tree.nodes@[i as int].left,
                )
            } else {
                old(self).pending@.drop_last()
            },
            forall|first: Seq<Option<u64>>|
                #[trigger] old(self).tracks(tree, first) && (nearest_below(
                    tree.nodes@,
                    first,
                    old(self).pending@.last(),
                    old(self).bound(),
                ) is Some ==> hit) ==> final(self).tracks(tree, first),
    {
        let ghost before = *self;
        let top = self.pending.pop().unwrap();
        if let Child::Node(i) = top {
            if hit {
                let node = tree.nodes[i];
                self.pending.push(node.right);
                self.pending.push(node.left);
            }
        }
        proof {
            let nodes = tree.nodes@;
            let rest = before.pending@.drop_last();
            assert(top == before.pending@.last());
            assert forall|first: Seq<Option<u64>>|
                #[trigger] before.tracks(tree, first) && (nearest_below(
                    nodes,
                    first,
                    top,
                    before.bound(),
                ) is Some ==> hit) implies self.tracks(tree, first) by {
                let b = before.bound();
                let i = top->Node_0;
                assert(child_ok(before.pending@[before.pending.len() - 1], nodes.len() as int, tree.leaf_count as int));
                let node = nodes[i as int];
                assert(child_ok(node.left, i as int, tree.leaf_count as int));
                assert(child_ok(node.right, i as int, tree.leaf_count as int));
                let below_left = nearest_below(nodes, first, node.left, b);
                let below_right = nearest_below(nodes, first, node.right, b);
                let below_rest = nearest_pending(nodes, first, rest, b);
                assert(nearest_below(nodes, first, top, b) == nearer(below_left, below_right));
                assert(nearest_pending(nodes, first, before.pending@, b) == nearer(
                    nearer(below_left, below_right),
                    below_rest,
                ));
                if hit {
                    assert(self.pending@.last() == node.left);
                    assert(self.pending@.drop_last() =~= rest.push(node.right));
                    assert(rest.push(node.right).drop_last() =~= rest);
                    assert(nearest_pending(nodes, first, rest.push(node.right), b) == nearer(
                        below_right,
                        below_rest,
                    ));
                    assert(nearest_pending(nodes, first, self.pending@, b) == nearer(
                        below_left,
                        nearer(below_right, below_rest),
                    ));
                    assert forall|j: int| 0 <= j < self.pending.len() implies child_ok(
                        #[trigger] self.pending[j],
                        nodes.len() as int,
                        tree.leaf_count as int,
                    ) by {
                        if j < rest.len() {
                            assert(self.pending[j] == before.pending[j]);
                        }
                    }
                } else {
                    assert(self.pending@ =~= rest);
                    assert forall|j: int| 0 <= j < self.pending.len() implies child_ok(
                        #[trigger] self.pending[j],
                        nodes.len() as int,
                        tree.leaf_count as int,
                    ) by {
                        assert(self.pending[j] == before.pending[j]);
                    }
                }
            }
        }
    }

    /// Takes the caller's test of the primitive on top of the stack, given the
    /// current far end: the key of its hit, if any. A hit no further than the
    /// far end becomes the nearest; the primitive is dropped from the stack.
    /// Returns whether the hit was kept.
    pub fn record_primitive(&mut self, tree: &Bvh, hit: Option<u64>) -> (kept: bool)
        requires
            old(self).pending.len() > 0,
            old(self).pending@.last() is Leaf,
        ensures
            kept == hit_within(hit, old(self).bound()) is Some,
            final(self).limit == old(self).limit,
            final(self).pending@ == old(self).pending@.drop_last(),
            final(self).nearest == match hit_within(hit, old(self).bound()) {
                Some(k) => Some(k),
                None => old(self).nearest,
            },
            forall|first: Seq<Option<u64>>|
                #[trigger] old(self).tracks(tree, first) && hit_within(hit, old(self).bound())
                    == hit_within(first[old(self).pending@.last()->Leaf_0 as int], old(self).bound())
                    ==> final(self).tracks(tree, first),
    {
        let ghost before = *self;
        let top = self.pending.pop();
        let bound = match self.nearest {
            Some(k) => k,
            None => self.limit,
        };
        let mut kept = false;
        if let Some(k) = hit {
            if k <= bound {
                self.nearest = Some(k);
                kept = true;
            }
        }
        proof {
            let nodes = tree.nodes@;
            let rest = before.pending@.drop_last();
            assert(self.pending@ =~= rest);
            assert forall|first: Seq<Option<u64>>|
                #[trigger] before.tracks(tree, first) && hit_within(hit, before.bound())
                    == hit_within(first[before.pending@.last()->Leaf_0 as int], before.bound())
                    implies self.tracks(tree, first) by {
                let b = before.bound();
                assert forall|j: int| 0 <= j < self.pending.len() implies child_ok(
                    #[trigger] self.pending[j],
                    nodes.len() as int,
                    tree.leaf_count as int,
                ) by {
                    assert(self.pending[j] == before.pending[j]);
                }
                if let Some(k) = hit_within(hit, b) {
                    lemma_pending_narrowed(nodes, first, rest, b, k);
                }
            }
        }
        kept
    }

    /// The next test: the top of the stack, or `Finished` when it is empty.
    pub fn probe(&self) -> (p: Probe)
        ensures
            self.pending.len() == 0 ==> p == Probe::Finished,
            self.pending.len() > 0 ==> p == match self.pending@.last() {
                Child::Node(i) => Probe::Bounds(i),
                Child::Leaf(l) => Probe::Primitive(l),
            },
    {
        let n = self.pending.len();
        if n == 0 {
            Probe::Finished
        } else {
            match self.pending[n - 1] {
                Child::Node(i) => Probe::Bounds(i),
                Child::Leaf(l) => Probe::Primitive(l),
            }
        }
    }
}

/// A linear pass over a list of primitives in progress: the nearest hit so
/// far, below the far end `limit` of the ray's interval.
pub struct ListScan {
    pub nearest: Option<u64>,
    pub limit: u64,
}

impl ListScan {
    /// The far end that the next test uses.
    pub open spec fn bound(&self) -> u64 {
        match self.nearest {
            Some(k) => k,
            None => self.limit,
        }
    }

    /// A pass that has tested nothing yet.
    pub fn new(limit: u64) -> (scan: ListScan)
        ensures
            scan.limit == limit,
            scan.nearest is None,
            scan.nearest == scan_nearest(Seq::empty(), limit),
    {
        ListScan { nearest: None, limit }
    }

    /// The far end that the next test uses.
    pub fn far(&self) -> (r: u64)
        ensures
            r == self.bound(),
    {
        match self.nearest {
            Some(k) => k,
            None => self.limit,
        }
    }

    /// Takes the test of the next primitive: a hit no further than the far
    /// end becomes the nearest. Returns whether it was kept. A pass that has
    /// found what `scan_nearest` finds over the primitives tested so far still
    /// does with this one added.
    pub fn record(&mut self, hit: Option<u64>) -> (kept: bool)
        ensures
            final(self).limit == old(self).limit,
            kept == hit_within(hit, old(self).bound()) is Some,
            final(self).nearest == match hit_within(hit, old(self).bound()) {
                Some(k) => Some(k),
                None => old(self).nearest,
            },
            forall|seen: Seq<Option<u64>>, h: Option<u64>|
                old(self).nearest == scan_nearest(seen, old(self).limit) && hit_within(
                    hit,
                    old(self).bound(),
                ) == hit_within(h, old(self).bound()) ==> final(self).nearest == #[trigger] scan_nearest(
                    seen.push(h),
                    old(self).limit,
                ),
    {
        let bound = self.far();
        let mut kept = false;
        if let Some(k) = hit {
            if k <= bound {
                self.nearest = Some(k);
                kept = true;
            }
        }
        proof {
            assert forall|seen: Seq<Option<u64>>, h: Option<u64>|
                old(self).nearest == scan_nearest(seen, old(self).limit) && hit_within(
                    hit,
                    old(self).bound(),
                ) == hit_within(h, old(self).bound()) implies self.nearest == #[trigger] scan_nearest(
                seen.push(h),
                old(self).limit,
            ) by {
                assert(seen.push(h).drop_last() =~= seen);
            }
        }
        kept
    }
}

} // verus!
