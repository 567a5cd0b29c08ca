//! Axis-aligned bounding boxes whose corner coordinates are order keys: each
//! coordinate is held as a `u64` that compares as the coordinate does, which
//! is all that merging and enclosing boxes reads. Ray-slab tests, which need
//! the coordinates' arithmetic, belong to the caller.
use vstd::prelude::*;

verus! {

/// A box from `minimum` to `maximum`, one order key per axis.
#[derive(Clone, Copy, Debug)]
pub struct AABB {
    pub minimum: [u64; 3],
    pub maximum: [u64; 3],
}

/// The smaller of two keys.
pub open spec fn key_min(a: u64, b: u64) -> u64 {
    if a <= b {
        a
    } else {
        b
    }
}

/// The larger of two keys.
pub open spec fn key_max(a: u64, b: u64) -> u64 {
    if a >= b {
        a
    } else {
        b
    }
}

/// `outer` contains `inner` along axis `a`.
pub open spec fn encloses_along(outer: AABB, inner: AABB, a: int) -> bool {
    outer.minimum[a] <= inner.minimum[a] && inner.maximum[a] <= outer.maximum[a]
}

/// `outer` contains `inner` on every axis.
#[verifier::opaque]
pub open spec fn encloses(outer: AABB, inner: AABB) -> bool {
    &&& encloses_along(outer, inner, 0)
    &&& encloses_along(outer, inner, 1)
    &&& encloses_along(outer, inner, 2)
}

/// The componentwise extremes of two boxes.
#[verifier::opaque]
pub open spec fn surrounding(x: AABB, y: AABB) -> AABB {
    AABB {
        minimum: [
            key_min(x.minimum[0], y.minimum[0]),
            key_min(x.minimum[1], y.minimum[1]),
            key_min(x.minimum[2], y.minimum[2]),
        ],
        maximum: [
            key_max(x.maximum[0], y.maximum[0]),
            key_max(x.maximum[1], y.maximum[1]),
            key_max(x.maximum[2], y.maximum[2]),
        ],
    }
}

fn min_key(a: u64, b: u64) -> (r: u64)
    ensures
        r == key_min(a, b),
{
    if a <= b {
        a
    } else {
        b
    }
}

fn max_key(a: u64, b: u64) -> (r: u64)
    ensures
        r == key_max(a, b),
{
    if a >= b {
        a
    } else {
        b
    }
}

impl AABB {
    /// The box with these corners.
    pub fn new(minimum: [u64; 3], maximum: [u64; 3]) -> (r: AABB)
        ensures
            r.minimum == minimum,
            r.maximum == maximum,
    {
        AABB { minimum, maximum }
    }

    /// The minimum corner.
    pub fn minimum(&self) -> (r: [u64; 3])
        ensures
            r == self.minimum,
    {
        self.minimum
    }

    /// The maximum corner.
    pub fn maximum(&self) -> (r: [u64; 3])
        ensures
            r == self.maximum,
    {
        self.maximum
    }

    /// The smallest box holding both: componentwise minimum of the minima
    /// and maximum of the maxima.
    pub fn surrounding_box(&self, other: &AABB) -> (r: AABB)
        ensures
            r == surrounding(*self, *other),
            r.minimum[0] == key_min(self.minimum[0], other.minimum[0]),
            r.minimum[1] == key_min(self.minimum[1], other.minimum[1]),
            r.minimum[2] == key_min(self.minimum[2], other.minimum[2]),
            r.maximum[0] == key_max(self.maximum[0], other.maximum[0]),
            r.maximum[1] == key_max(self.maximum[1], other.maximum[1]),
            r.maximum[2] == key_max(self.maximum[2], other.maximum[2]),
    {
        reveal(surrounding);
        let small = [
            min_key(self.minimum[0], other.minimum[0]),
            min_key(self.minimum[1], other.minimum[1]),
            min_key(self.minimum[2], other.minimum[2]),
        ];
        let big = [
            max_key(self.maximum[0], other.maximum[0]),
            max_key(self.maximum[1], other.maximum[1]),
            max_key(self.maximum[2], other.maximum[2]),
        ];
        AABB { minimum: small, maximum: big }
    }
}

/// The surrounding box of two boxes contains both, and every box that
/// contains both contains it: it is the smallest box holding the two.
pub proof fn lemma_surrounding_box_is_smallest(x: AABB, y: AABB, z: AABB)
    ensures
        encloses(surrounding(x, y), x),
        encloses(surrounding(x, y), y),
        encloses(z, x) && encloses(z, y) ==> encloses(z, surrounding(x, y)),
{
    reveal(surrounding);
    reveal(encloses);
    let s = surrounding(x, y);
    assert(s.minimum[0] == key_min(x.minimum[0], y.minimum[0]));
    assert(s.minimum[1] == key_min(x.minimum[1], y.minimum[1]));
    assert(s.minimum[2] == key_min(x.minimum[2], y.minimum[2]));
    assert(s.maximum[0] == key_max(x.maximum[0], y.maximum[0]));
    assert(s.maximum[1] == key_max(x.maximum[1], y.maximum[1]));
    assert(s.maximum[2] == key_max(x.maximum[2], y.maximum[2]));
}

/// Containment is transitive.
pub proof fn lemma_encloses_trans(x: AABB, y: AABB, z: AABB)
    requires
        encloses(x, y),
        encloses(y, z),
    ensures
        encloses(x, z),
{
    reveal(encloses);
}

/// The surrounding box of a non-empty sequence of boxes, merged from the first on.
pub open spec fn surrounding_all(boxes: Seq<AABB>) -> AABB
    recommends
        boxes.len() > 0,
    decreases boxes.len(),
{
    if boxes.len() <= 1 {
        boxes[0]
    } else {
        surrounding(surrounding_all(boxes.drop_last()), boxes.last())
    }
}

/// Whether every entry holds a box.
pub open spec fn all_bounded(boxes: Seq<Option<AABB>>) -> bool {
    forall|i: int| 0 <= i < boxes.len() ==> #[trigger] boxes[i] is Some
}

/// The boxes of a sequence whose entries all hold one.
pub open spec fn unwrapped(boxes: Seq<Option<AABB>>) -> Seq<AABB> {
    Seq::new(boxes.len(), |i: int| boxes[i]->Some_0)
}

/// The bounding box of a list of shapes, from their boxes: none when the list
/// is empty or one of them has none, else the surrounding box of them all.
pub fn list_bounding_box(boxes: &Vec<Option<AABB>>) -> (r: Option<AABB>)
    ensures
        r is None <==> boxes.len() == 0 || !all_bounded(boxes@),
        r matches Some(b) ==> b == surrounding_all(unwrapped(boxes@)),
        r matches Some(b) ==> forall|i: int|
            0 <= i < boxes.len() ==> encloses(b, #[trigger] boxes@[i]->Some_0),
{
    let n = boxes.len();
    if n == 0 {
        return None;
    }
    let mut output: AABB = match boxes[0] {
        Some(b) => b,
        None => {
            return None;
        },
    };
    proof {
        reveal(encloses);
        assert(unwrapped(boxes@.subrange(0, 1)) =~= seq![output]);
    }
    let mut i: usize = 1;
    while i < n
        invariant
            1 <= i <= n == boxes.len(),
            all_bounded(boxes@.subrange(0, i as int)),
            output == surrounding_all(unwrapped(boxes@.subrange(0, i as int))),
            forall|j: int| 0 <= j < i ==> encloses(output, #[trigger] boxes@[j]->Some_0),
        decreases n - i,
    {
        let next = match boxes[i] {
            Some(b) => b,
            None => {
                proof {
                    assert(!all_bounded(boxes@)) by {
                        assert(boxes@[i as int] is None);
                    }
                }
                return None;
            },
        };
        let ghost before = output;
        output = output.surrounding_box(&next);
        proof {
            let grown = boxes@.subrange(0, i + 1);
            assert(unwrapped(grown).drop_last() =~= unwrapped(boxes@.subrange(0, i as int)));
            assert(unwrapped(grown).last() == next);
            lemma_surrounding_box_is_smallest(before, next, output);
            assert forall|j: int| 0 <= j < i + 1 implies encloses(output, #[trigger] boxes@[j]->Some_0) by {
                if j < i {
                    lemma_encloses_trans(output, before, boxes@[j]->Some_0);
                }
            }
            assert forall|j: int| 0 <= j < i + 1 implies #[trigger] grown[j] is Some by {
                if j < i {
                    assert(grown[j] == boxes@.subrange(0, i as int)[j]);
                }
            }
        }
        i = i + 1;
    }
    assert(boxes@.subrange(0, n as int) =~= boxes@);
    Some(output)
}

} // verus!
