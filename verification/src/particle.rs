//! The data model: one candidate solution, and the swarm of them.

use vstd::prelude::*;

verus! {

/// One candidate solution. Coordinates are opaque 64-bit words; the best
/// score is an order key, smaller meaning better.
pub struct Particle {
    /// Where the particle stands, one word per dimension.
    pub position: Vec<u64>,
    /// How the particle last moved, one word per dimension.
    pub velocity: Vec<u64>,
    /// The best position this particle has seen.
    pub best_position: Vec<u64>,
    /// The score key of `best_position`; never rises over a run.
    pub best_score: u64,
    /// Indices of the particles whose bests may pull this one. Owned by the
    /// particle; under preferential attachment it may repeat an index, and
    /// it never holds the particle's own index.
    pub neighbors: Vec<usize>,
}

impl Particle {
    /// The three coordinate vectors all have the swarm's dimension.
    pub open spec fn dims_ok(self, dim: int) -> bool {
        &&& self.position@.len() == dim
        &&& self.velocity@.len() == dim
        &&& self.best_position@.len() == dim
    }

    /// Every neighbor is a valid index into a swarm of `n`, and none is the
    /// particle's own index `own`.
    pub open spec fn neighbors_ok(self, own: int, n: int) -> bool {
        forall|j: int|
            0 <= j < self.neighbors@.len() ==> 0 <= #[trigger] self.neighbors@[j] < n
                && self.neighbors@[j] != own
    }

    pub open spec fn wf(self, dim: int, own: int, n: int) -> bool {
        self.dims_ok(dim) && self.neighbors_ok(own, n)
    }
}

/// The fixed-size ordered population of one run.
pub struct Swarm {
    /// The particles, addressed by index; no particle is created or
    /// destroyed during a run.
    pub particles: Vec<Particle>,
    /// The number of coordinates per position, fixed for the run.
    pub dim: usize,
}

impl Swarm {
    /// The swarm size.
    pub open spec fn n(self) -> int {
        self.particles@.len() as int
    }

    /// Well-formedness: positive size and dimension, every particle's
    /// vectors sized to `dim`, every neighbor index valid and no self-loop.
    pub open spec fn wf(self) -> bool {
        &&& self.dim > 0
        &&& self.n() > 0
        &&& forall|i: int|
            0 <= i < self.n() ==> #[trigger] self.particles@[i].wf(self.dim as int, i, self.n())
    }
}

/// Law: in a well-formed swarm every particle's position, velocity and
/// best position all have exactly the swarm's dimension — and the engine
/// keeps every swarm it touches well-formed.
pub proof fn lemma_swarm_dims(s: Swarm, i: int)
    requires
        s.wf(),
        0 <= i < s.n(),
    ensures
        s.particles@[i].position@.len() == s.dim,
        s.particles@[i].velocity@.len() == s.dim,
        s.particles@[i].best_position@.len() == s.dim,
{
    assert(s.particles@[i].wf(s.dim as int, i, s.n()));
}

/// An element-for-element copy of a coordinate vector.
pub fn copy_vec(v: &Vec<u64>) -> (r: Vec<u64>)
    ensures
        r@ == v@,
{
    let mut r: Vec<u64> = Vec::new();
    let mut i: usize = 0;
    while i < v.len()
        invariant
            0 <= i <= v@.len(),
            r@ == v@.subrange(0, i as int),
        decreases v@.len() - i,
    {
        r.push(v[i]);
        i += 1;
    }
    assert(r@ == v@.subrange(0, v@.len() as int));
    assert(v@.subrange(0, v@.len() as int) == v@);
    r
}

} // verus!
