//! The permutation tables of the Perlin noise lattice, and the hash that picks
//! a lattice corner's gradient from them. The gradients, and the interpolation
//! between them, belong to the caller.
use vstd::prelude::*;

use crate::random::rand_int;

verus! {

/// Entries in each permutation table, and gradients in the lattice.
pub const POINT_COUNT: usize = 256;

/// A coordinate's cell along one axis, wrapped onto the tables.
pub open spec fn wrap(x: int) -> int {
    x % (POINT_COUNT as int)
}

fn wrap_exec(x: i64) -> (r: usize)
    ensures
        r == wrap(x as int),
        r < POINT_COUNT,
{
    let m = x % 256;
    if m < 0 {
        (m + 256) as usize
    } else {
        m as usize
    }
}

/// One step of the table scramble at index `i`: the drawn index `target` is
/// written at `i`, and the entry that stood at `i` is written at `target`.
pub open spec fn perm_step(p: Seq<i32>, i: int, target: i32) -> Seq<i32> {
    p.update(i, target).update(target as int, p[i])
}

/// The steps at indices `count - 1` down to `0`, in that order, with
/// `targets[i]` drawn for index `i`.
pub open spec fn scrambled(p: Seq<i32>, targets: Seq<i32>, count: nat) -> Seq<i32>
    decreases count,
{
    if count == 0 {
        p
    } else {
        scrambled(
            perm_step(p, count - 1, targets[count - 1]),
            targets,
            (count - 1) as nat,
        )
    }
}

/// Draws that the scramble may receive: one per index, each between zero
/// and its index.
pub open spec fn draws_ok(targets: Seq<i32>, n: nat) -> bool {
    &&& targets.len() == n
    &&& forall|i: int| 0 <= i < n ==> 0 <= #[trigger] targets[i] <= i
}

/// Every entry lies in `0..n`.
pub open spec fn entries_below(p: Seq<i32>, n: int) -> bool {
    forall|i: int| 0 <= i < p.len() ==> 0 <= #[trigger] p[i] < n
}

proof fn lemma_scrambled_in_range(p: Seq<i32>, targets: Seq<i32>, count: nat)
    requires
        count <= p.len(),
        count <= targets.len(),
        forall|i: int| 0 <= i < count ==> 0 <= #[trigger] targets[i] <= i,
        entries_below(p, p.len() as int),
    ensures
        entries_below(scrambled(p, targets, count), p.len() as int),
        scrambled(p, targets, count).len() == p.len(),
    decreases count,
{
    if count > 0 {
        let i = count - 1;
        let t = targets[i];
        let q = perm_step(p, i, t);
        assert(entries_below(q, p.len() as int));
        lemma_scrambled_in_range(q, targets, i as nat);
    }
}

/// Applies the scramble with the given draws to `p`, from the last index down.
pub fn permute_with(p: &mut Vec<i32>, targets: &Vec<i32>)
    requires
        draws_ok(targets@, old(p).len() as nat),
    ensures
        final(p)@ == scrambled(old(p)@, targets@, old(p).len() as nat),
{
    let n = p.len();
    let mut i: usize = n;
    while i > 0
        invariant
            i <= n == p.len() == targets.len(),
            draws_ok(targets@, n as nat),
            scrambled(old(p)@, targets@, n as nat) == scrambled(p@, targets@, i as nat),
        decreases i,
    {
        let k = i - 1;
        let target = targets[k];
        let tmp = p[k];
        p.set(k, target);
        p.set(target as usize, tmp);
        i = k;
    }
}

/// Draws one index per entry of a table of `n`, for index `n - 1` first and
/// `0` last, each between zero and its index.
fn draw_targets(n: usize, rng: &mut rand::rngs::StdRng) -> (targets: Vec<i32>)
    requires
        n <= i32::MAX,
    ensures
        draws_ok(targets@, n as nat),
{
    let mut targets: Vec<i32> = Vec::new();
    let mut j: usize = 0;
    while j < n
        invariant
            j <= n,
            targets.len() == j,
        decreases n - j,
    {
        targets.push(0);
        j = j + 1;
    }
    let mut i: usize = n;
    while i > 0
        invariant
            i <= n <= i32::MAX,
            targets.len() == n,
            forall|k: int| i <= k < n ==> 0 <= #[trigger] targets[k] <= k,
        decreases i,
    {
        let k = i - 1;
        let t = rand_int(0, k as i32, rng);
        targets.set(k, t);
        i = k;
    }
    targets
}

/// Scrambles `p` in place with indices drawn from `rng`, from the last index
/// down: the result is the scramble of `p` under some valid draws.
pub fn permute(p: &mut Vec<i32>, rng: &mut rand::rngs::StdRng)
    requires
        old(p).len() <= i32::MAX,
    ensures
        exists|targets: Seq<i32>|
            draws_ok(targets, old(p).len() as nat) && final(p)@ == scrambled(
                old(p)@,
                targets,
                old(p).len() as nat,
            ),
{
    let targets = draw_targets(p.len(), rng);
    permute_with(p, &targets);
}

/// The identity table `0, 1, ..., POINT_COUNT - 1`.
pub open spec fn identity_table() -> Seq<i32> {
    Seq::new(POINT_COUNT as nat, |i: int| i as i32)
}

/// `p` is the identity table scrambled under some valid draws.
pub open spec fn drawn_table(p: Seq<i32>) -> bool {
    exists|targets: Seq<i32>|
        draws_ok(targets, POINT_COUNT as nat) && p == scrambled(
            identity_table(),
            targets,
            POINT_COUNT as nat,
        )
}

/// A table of `POINT_COUNT` entries: the identity, scrambled with draws from
/// `rng`. Every entry indexes the gradients.
pub fn generate_perm(rng: &mut rand::rngs::StdRng) -> (p: Vec<i32>)
    ensures
        p.len() == POINT_COUNT,
        entries_below(p@, POINT_COUNT as int),
        drawn_table(p@),
{
    let mut p: Vec<i32> = Vec::new();
    let mut i: usize = 0;
    while i < POINT_COUNT
        invariant
            i <= POINT_COUNT,
            p.len() == i,
            forall|k: int| 0 <= k < i ==> p[k] == k,
        decreases POINT_COUNT - i,
    {
        p.push(i as i32);
        i = i + 1;
    }
    assert(p@ =~= identity_table());
    let ghost start = p@;
    permute(&mut p, rng);
    proof {
        let targets = choose|targets: Seq<i32>|
            draws_ok(targets, POINT_COUNT as nat) && p@ == scrambled(
                start,
                targets,
                POINT_COUNT as nat,
            );
        lemma_scrambled_in_range(start, targets, POINT_COUNT as nat);
    }
    p
}

/// The three permutation tables of the noise lattice, one per axis.
pub struct Lattice {
    pub perm_x: Vec<i32>,
    pub perm_y: Vec<i32>,
    pub perm_z: Vec<i32>,
}

proof fn lemma_xor_in_table(a: i32, b: i32, c: i32)
    requires
        0 <= a < 256,
        0 <= b < 256,
        0 <= c < 256,
    ensures
        0 <= a ^ b ^ c < 256,
{
    assert(0 <= a < 256 && 0 <= b < 256 && 0 <= c < 256 ==> 0 <= a ^ b ^ c < 256)
        by (bit_vector);
}

impl Lattice {
    /// Each table has `POINT_COUNT` entries, each an index of the gradients.
    pub open spec fn wf(&self) -> bool {
        &&& self.perm_x.len() == POINT_COUNT
        &&& self.perm_y.len() == POINT_COUNT
        &&& self.perm_z.len() == POINT_COUNT
        &&& entries_below(self.perm_x@, POINT_COUNT as int)
        &&& entries_below(self.perm_y@, POINT_COUNT as int)
        &&& entries_below(self.perm_z@, POINT_COUNT as int)
    }

    /// The gradient index of the lattice corner `(i, j, k)`: the three
    /// tables' entries at the wrapped coordinates, combined by exclusive or.
    pub open spec fn corner_spec(&self, i: int, j: int, k: int) -> int {
        (self.perm_x@[wrap(i)] ^ self.perm_y@[wrap(j)] ^ self.perm_z@[wrap(k)]) as int
    }

    /// Three tables drawn from `rng`, for x, then y, then z.
    pub fn new(rng: &mut rand::rngs::StdRng) -> (l: Lattice)
        ensures
            l.wf(),
            drawn_table(l.perm_x@),
            drawn_table(l.perm_y@),
            drawn_table(l.perm_z@),
    {
        let perm_x = generate_perm(rng);
        let perm_y = generate_perm(rng);
        let perm_z = generate_perm(rng);
        Lattice { perm_x, perm_y, perm_z }
    }

    /// The gradient index of the lattice corner `(i, j, k)`.
    pub fn corner(&self, i: i64, j: i64, k: i64) -> (r: usize)
        requires
            self.wf(),
        ensures
            r == self.corner_spec(i as int, j as int, k as int),
            r < POINT_COUNT,
    {
        let a = self.perm_x[wrap_exec(i)];
        let b = self.perm_y[wrap_exec(j)];
        let c = self.perm_z[wrap_exec(k)];
        proof {
            lemma_xor_in_table(a, b, c);
        }
        (a ^ b ^ c) as usize
    }
}

} // verus!
