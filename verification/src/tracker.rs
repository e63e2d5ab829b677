//! Best tracking: the strict-improvement personal-best rule, the best
//! neighbor of one particle, and the swarm's derived global best.

use vstd::prelude::*;

use crate::particle::{copy_vec, Swarm};

verus! {

impl Swarm {
    /// Position `w` of particle `id`'s neighbor list points at the
    /// neighbor the single-best rule uses: no neighbor scores lower, and
    /// every earlier entry scores strictly higher (first occurrence wins
    /// ties).
    pub open spec fn first_best_at(self, id: int, w: int) -> bool {
        let nbrs = self.particles@[id].neighbors@;
        &&& 0 <= w < nbrs.len()
        &&& forall|l: int|
            0 <= l < nbrs.len() ==> #[trigger] self.particles@[nbrs[l] as int].best_score
                >= self.particles@[nbrs[w] as int].best_score
        &&& forall|l: int|
            0 <= l < w ==> #[trigger] self.particles@[nbrs[l] as int].best_score
                > self.particles@[nbrs[w] as int].best_score
    }

    /// Overwrite particle `id`'s personal best with its current position
    /// exactly when `new_score` is a strict improvement; a tie never
    /// triggers an update. `new_score` is the objective's key for the
    /// particle's current position.
    pub fn update_best(&mut self, id: usize, new_score: u64)
        requires
            old(self).wf(),
            0 <= id < old(self).n(),
        ensures
            final(self).wf(),
            final(self).dim == old(self).dim,
            final(self).n() == old(self).n(),
            forall|j: int|
                0 <= j < old(self).n() && j != id ==> final(self).particles@[j]
                    == old(self).particles@[j],
            final(self).particles@[id as int].position@ == old(self).particles@[id as int].position@,
            final(self).particles@[id as int].velocity@ == old(self).particles@[id as int].velocity@,
            final(self).particles@[id as int].neighbors@ == old(self).particles@[id as int].neighbors@,
            new_score < old(self).particles@[id as int].best_score ==> {
                &&& final(self).particles@[id as int].best_score == new_score
                &&& final(self).particles@[id as int].best_position@
                    == old(self).particles@[id as int].position@
            },
            new_score >= old(self).particles@[id as int].best_score ==> final(self).particles@[id as int]
                == old(self).particles@[id as int],
            final(self).particles@[id as int].best_score
                <= old(self).particles@[id as int].best_score,
    {
        if new_score < self.particles[id].best_score {
            let fresh = copy_vec(&self.particles[id].position);
            let mut p = self.particles.remove(id);
            p.best_score = new_score;
            p.best_position = fresh;
            self.particles.insert(id, p);
            assert(self.particles@ =~= old(self).particles@.update(
                id as int,
                self.particles@[id as int],
            ));
            assert forall|i: int| 0 <= i < self.n() implies #[trigger] self.particles@[i].wf(
                self.dim as int,
                i,
                self.n(),
            ) by {
                assert(old(self).particles@[i].wf(old(self).dim as int, i, old(self).n()));
            }
        }
    }

    /// The best position among particle `id`'s neighbors: a linear scan in
    /// neighbor-list order where only a strictly better score displaces the
    /// running best, so the first occurrence wins on ties.
    pub fn get_best_neighbor(&self, id: usize) -> (r: Vec<u64>)
        requires
            self.wf(),
            0 <= id < self.n(),
            self.particles@[id as int].neighbors@.len() > 0,
        ensures
            exists|w: int|
                #[trigger] self.first_best_at(id as int, w) && r@ == self.particles@[self.particles@[id as int].neighbors@[w] as int].best_position@,
            r@.len() == self.dim,
    {
        let ghost nbrs = self.particles@[id as int].neighbors@;
        proof {
            assert(self.particles@[id as int].wf(self.dim as int, id as int, self.n()));
        }
        let n_neighbors: usize = self.particles[id].neighbors.len();
        let first_neighbor: usize = self.particles[id].neighbors[0];
        proof {
            assert(self.particles@[(first_neighbor) as int].wf(
                self.dim as int,
                first_neighbor as int,
                self.n(),
            ));
        }
        let mut gbest_score: u64 = self.particles[first_neighbor].best_score;
        let mut gbest: Vec<u64> = copy_vec(&self.particles[first_neighbor].best_position);
        let ghost mut w: int = 0;
        let mut i: usize = 1;
        while i < n_neighbors
            invariant
                self.wf(),
                0 <= id < self.n(),
                nbrs == self.particles@[id as int].neighbors@,
                n_neighbors == nbrs.len(),
                1 <= i <= n_neighbors,
                0 <= w < i,
                gbest_score == self.particles@[nbrs[w] as int].best_score,
                gbest@ == self.particles@[nbrs[w] as int].best_position@,
                forall|l: int|
                    0 <= l < i ==> #[trigger] self.particles@[nbrs[l] as int].best_score
                        >= gbest_score,
                forall|l: int|
                    0 <= l < w ==> #[trigger] self.particles@[nbrs[l] as int].best_score
                        > gbest_score,
            decreases n_neighbors - i,
        {
            let neighbor: usize = self.particles[id].neighbors[i];
            proof {
                assert(self.particles@[id as int].wf(self.dim as int, id as int, self.n()));
                assert(self.particles@[neighbor as int].wf(
                    self.dim as int,
                    neighbor as int,
                    self.n(),
                ));
            }
            if gbest_score > self.particles[neighbor].best_score {
                gbest_score = self.particles[neighbor].best_score;
                gbest = copy_vec(&self.particles[neighbor].best_position);
                proof {
                    w = i as int;
                }
            }
            i += 1;
        }
        proof {
            assert(self.particles@[nbrs[w] as int].wf(self.dim as int, nbrs[w] as int, self.n()));
            assert(self.first_best_at(id as int, w));
        }
        gbest
    }

    /// `out` is the swarm's global best: the minimum personal-best score
    /// over all particles with its position, the first particle attaining
    /// the minimum winning ties.
    pub open spec fn is_gbest(self, out: (u64, Vec<u64>)) -> bool {
        exists|w: int|
            {
                &&& 0 <= w < self.n()
                &&& out.0 == self.particles@[w].best_score
                &&& out.1@ == self.particles@[w].best_position@
                &&& forall|l: int|
                    0 <= l < self.n() ==> #[trigger] self.particles@[l].best_score >= out.0
                &&& forall|l: int| 0 <= l < w ==> #[trigger] self.particles@[l].best_score > out.0
            }
    }

    /// The swarm's derived global best: the minimum personal-best score
    /// over all particles together with its position, recomputed on demand;
    /// the scan keeps the first particle attaining the minimum.
    pub fn get_gbest(&self) -> (r: (u64, Vec<u64>))
        requires
            self.wf(),
        ensures
            self.is_gbest(r),
            r.1@.len() == self.dim,
    {
        let mut gbest: Vec<u64> = copy_vec(&self.particles[0].best_position);
        let mut gbest_score: u64 = self.particles[0].best_score;
        let ghost mut w: int = 0;
        let mut i: usize = 1;
        let n: usize = self.particles.len();
        while i < n
            invariant
                self.wf(),
                n == self.n(),
                1 <= i <= n,
                0 <= w < i,
                gbest_score == self.particles@[w].best_score,
                gbest@ == self.particles@[w].best_position@,
                forall|l: int| 0 <= l < i ==> #[trigger] self.particles@[l].best_score >= gbest_score,
                forall|l: int| 0 <= l < w ==> #[trigger] self.particles@[l].best_score > gbest_score,
            decreases n - i,
        {
            if gbest_score > self.particles[i].best_score {
                gbest_score = self.particles[i].best_score;
                gbest = copy_vec(&self.particles[i].best_position);
                proof {
                    w = i as int;
                }
            }
            i += 1;
        }
        let out = (gbest_score, gbest);
        proof {
            assert(self.particles@[w].wf(self.dim as int, w, self.n()));
            assert(self.is_gbest(out));
        }
        out
    }
}

} // verus!
