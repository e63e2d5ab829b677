//! The two per-particle move rules and the degree-threshold dispatch
//! between them.
//!
//! The arithmetic of a move — how the next velocity and position are
//! computed from the current ones and from the neighbors' bests — is the
//! caller's callback, because the engine does not interpret coordinates.
//! Everything the engine decides around the callback is verified: which
//! neighbor informs the single-best rule, which bests inform the fully
//! informed rule and in what order, the strict-improvement personal-best
//! update, and the error on an empty neighbor set.

use vstd::prelude::*;

use crate::particle::Swarm;
use crate::Error;

verus! {

/// Whether a particle of the given degree moves by the fully informed
/// rule: the condition is strictly "degree exceeds the threshold".
pub open spec fn spec_fully_informed(degree: int, k: int) -> bool {
    degree > k
}

/// The dispatch test the sweep driver runs anew for every particle in
/// every sweep.
pub fn uses_fully_informed(degree: usize, k: usize) -> (r: bool)
    ensures
        r == spec_fully_informed(degree as int, k as int),
{
    degree > k
}

/// Law: with a zero threshold, any particle with a neighbor is fully
/// informed; a degree at most the threshold — in particular exactly the
/// threshold — selects the single-best-neighbor rule, so in a full mesh
/// over `n` particles a threshold of at least `n - 1` always does.
pub proof fn lemma_dispatch_threshold(degree: int, k: int, n: int)
    ensures
        k == 0 && degree > 0 ==> spec_fully_informed(degree, k),
        degree == k ==> !spec_fully_informed(degree, k),
        0 <= degree <= n - 1 && k >= n - 1 ==> !spec_fully_informed(degree, k),
{
}

/// A single-best-neighbor move callback behaves like a function of its
/// four inputs' shapes: it accepts any inputs, and every outcome pairs a
/// velocity and a position sized to the input position.
pub open spec fn single_rule_ok<FS: Fn(&Vec<u64>, &Vec<u64>, &Vec<u64>, &Vec<u64>) -> (
    Vec<u64>,
    Vec<u64>,
)>(rule: &FS) -> bool {
    &&& forall|args: (&Vec<u64>, &Vec<u64>, &Vec<u64>, &Vec<u64>)|
        #[trigger] call_requires(*rule, args)
    &&& forall|args: (&Vec<u64>, &Vec<u64>, &Vec<u64>, &Vec<u64>), out: (Vec<u64>, Vec<u64>)|
        #[trigger] call_ensures(*rule, args, out) ==> out.0@.len() == args.0@.len()
            && out.1@.len() == args.0@.len()
}

/// Likewise for a fully-informed move callback, whose third input is the
/// list of the neighbors' best positions.
pub open spec fn full_rule_ok<FF: Fn(&Vec<u64>, &Vec<u64>, &Vec<Vec<u64>>) -> (
    Vec<u64>,
    Vec<u64>,
)>(rule: &FF) -> bool {
    &&& forall|args: (&Vec<u64>, &Vec<u64>, &Vec<Vec<u64>>)| #[trigger] call_requires(*rule, args)
    &&& forall|args: (&Vec<u64>, &Vec<u64>, &Vec<Vec<u64>>), out: (Vec<u64>, Vec<u64>)|
        #[trigger] call_ensures(*rule, args, out) ==> out.0@.len() == args.0@.len()
            && out.1@.len() == args.0@.len()
}

/// An objective callback accepts any position; it answers the score key,
/// or nothing when the value falls outside the ordered key domain.
pub open spec fn objective_ok<FO: Fn(&Vec<u64>) -> Option<u64>>(objective: &FO) -> bool {
    forall|args: (&Vec<u64>,)| #[trigger] call_requires(*objective, args)
}

/// An objective callback that scores every position.
pub open spec fn objective_total<FO: Fn(&Vec<u64>) -> Option<u64>>(objective: &FO) -> bool {
    forall|args: (&Vec<u64>,), out: Option<u64>|
        #[trigger] call_ensures(*objective, args, out) ==> out is Some
}

/// The single-best-neighbor move really happened: the move callback was
/// given the particle's position, velocity and personal best and the
/// best position among its neighbors (first occurrence winning ties),
/// and its output is installed as the new velocity and position.
pub open spec fn moved_single<FS: Fn(&Vec<u64>, &Vec<u64>, &Vec<u64>, &Vec<u64>) -> (
    Vec<u64>,
    Vec<u64>,
)>(pre: Swarm, post: Swarm, id: int, rule: &FS) -> bool {
    exists|a: &Vec<u64>, b: &Vec<u64>, c: &Vec<u64>, g: &Vec<u64>, out: (Vec<u64>, Vec<u64>)|
        {
            &&& a@ == pre.particles@[id].position@
            &&& b@ == pre.particles@[id].velocity@
            &&& c@ == pre.particles@[id].best_position@
            &&& exists|w: int|
                #[trigger] pre.first_best_at(id, w) && g@ == pre.particles@[pre.particles@[id].neighbors@[w] as int].best_position@
            &&& #[trigger] call_ensures(*rule, (a, b, c, g), out)
            &&& post.particles@[id].velocity@ == out.0@
            &&& post.particles@[id].position@ == out.1@
        }
}

/// The fully informed move really happened: the move callback was given
/// the particle's position and velocity and every neighbor's best
/// position, in neighbor-list order with duplicates kept, and its output
/// is installed as the new velocity and position.
pub open spec fn moved_full<FF: Fn(&Vec<u64>, &Vec<u64>, &Vec<Vec<u64>>) -> (
    Vec<u64>,
    Vec<u64>,
)>(pre: Swarm, post: Swarm, id: int, rule: &FF) -> bool {
    exists|a: &Vec<u64>, b: &Vec<u64>, nb: &Vec<Vec<u64>>, out: (Vec<u64>, Vec<u64>)|
        {
            &&& a@ == pre.particles@[id].position@
            &&& b@ == pre.particles@[id].velocity@
            &&& nb@.len() == pre.particles@[id].neighbors@.len()
            &&& forall|u: int|
                0 <= u < nb@.len() ==> (#[trigger] nb@[u])@ == pre.particles@[pre.particles@[id].neighbors@[u] as int].best_position@
            &&& #[trigger] call_ensures(*rule, (a, b, nb), out)
            &&& post.particles@[id].velocity@ == out.0@
            &&& post.particles@[id].position@ == out.1@
        }
}

/// The objective scored the particle's new position and the strict
/// improvement rule decided the new personal best from that score.
pub open spec fn scored_strict<FO: Fn(&Vec<u64>) -> Option<u64>>(
    pre: Swarm,
    post: Swarm,
    id: int,
    objective: &FO,
) -> bool {
    exists|sc: u64, p: &Vec<u64>|
        {
            &&& p@ == post.particles@[id].position@
            &&& #[trigger] call_ensures(*objective, (p,), Some(sc))
            &&& sc < pre.particles@[id].best_score ==> {
                &&& post.particles@[id].best_score == sc
                &&& post.particles@[id].best_position@ == post.particles@[id].position@
            }
            &&& sc >= pre.particles@[id].best_score ==> {
                &&& post.particles@[id].best_score == pre.particles@[id].best_score
                &&& post.particles@[id].best_position@ == pre.particles@[id].best_position@
            }
        }
}

/// The best pair of particle `i` is "as last computed": the objective
/// can answer this score for this best position.
pub open spec fn witnessed_at<FO: Fn(&Vec<u64>) -> Option<u64>>(
    s: Swarm,
    objective: &FO,
    i: int,
) -> bool {
    exists|p: &Vec<u64>|
        p@ == s.particles@[i].best_position@ && #[trigger] call_ensures(
            *objective,
            (p,),
            Some(s.particles@[i].best_score),
        )
}

/// Every particle's best score is an answer the objective can give for
/// its best position: the pair is always "as last computed", never made
/// up by the engine.
pub open spec fn scores_witnessed<FO: Fn(&Vec<u64>) -> Option<u64>>(
    s: Swarm,
    objective: &FO,
) -> bool {
    forall|i: int| 0 <= i < s.n() ==> #[trigger] witnessed_at(s, objective, i)
}

/// Witnessed best scores survive a step that leaves every best pair in
/// place, except possibly at `id`, where the new pair must either be the
/// old one or be witnessed by the objective itself.
proof fn lemma_witness_update<FO: Fn(&Vec<u64>) -> Option<u64>>(
    a: Swarm,
    b: Swarm,
    id: int,
    objective: &FO,
)
    requires
        scores_witnessed(a, objective),
        b.n() == a.n(),
        0 <= id < a.n(),
        forall|i: int|
            0 <= i < a.n() && i != id ==> (#[trigger] b.particles@[i]).best_position@
                == a.particles@[i].best_position@ && b.particles@[i].best_score
                == a.particles@[i].best_score,
        (b.particles@[id].best_position@ == a.particles@[id].best_position@
            && b.particles@[id].best_score == a.particles@[id].best_score) || witnessed_at(
            b,
            objective,
            id,
        ),
    ensures
        scores_witnessed(b, objective),
{
    assert forall|i: int| 0 <= i < b.n() implies #[trigger] witnessed_at(b, objective, i) by {
        if i != id || (b.particles@[id].best_position@ == a.particles@[id].best_position@
            && b.particles@[id].best_score == a.particles@[id].best_score) {
            assert(witnessed_at(a, objective, i));
            let p0 = choose|p: &Vec<u64>|
                p@ == a.particles@[i].best_position@ && #[trigger] call_ensures(
                    *objective,
                    (p,),
                    Some(a.particles@[i].best_score),
                );
            assert(p0@ == b.particles@[i].best_position@);
            assert(call_ensures(*objective, (p0,), Some(b.particles@[i].best_score)));
        }
    }
}

/// Witnessed best scores survive a step that moves no particle: topology
/// construction touches neighbor lists only.
pub(crate) proof fn lemma_witness_same_coords<FO: Fn(&Vec<u64>) -> Option<u64>>(
    a: Swarm,
    b: Swarm,
    objective: &FO,
)
    requires
        scores_witnessed(a, objective),
        a.same_coords(b),
    ensures
        scores_witnessed(b, objective),
{
    assert forall|i: int| 0 <= i < b.n() implies #[trigger] witnessed_at(b, objective, i) by {
        assert(a.particles@[i].best_position@ == b.particles@[i].best_position@);
        assert(witnessed_at(a, objective, i));
        let p0 = choose|p: &Vec<u64>|
            p@ == a.particles@[i].best_position@ && #[trigger] call_ensures(
                *objective,
                (p,),
                Some(a.particles@[i].best_score),
            );
        assert(call_ensures(*objective, (p0,), Some(b.particles@[i].best_score)));
    }
}

impl Swarm {
    /// Move particle `id` under the pull of its best neighbor: the move
    /// callback receives the particle's position, velocity and personal
    /// best, and the best position among its neighbors (first occurrence
    /// winning ties); the objective then scores the new position and a
    /// strictly better score overwrites the personal best.
    pub fn single_update<FS, FO>(&mut self, id: usize, rule: &FS, objective: &FO) -> (r: Result<
        (),
        Error,
    >) where
        FS: Fn(&Vec<u64>, &Vec<u64>, &Vec<u64>, &Vec<u64>) -> (Vec<u64>, Vec<u64>),
        FO: Fn(&Vec<u64>) -> Option<u64>,

        requires
            old(self).wf(),
            0 <= id < old(self).n(),
            single_rule_ok(rule),
            objective_ok(objective),
        ensures
            final(self).wf(),
            final(self).dim == old(self).dim,
            final(self).n() == old(self).n(),
            forall|j: int|
                0 <= j < old(self).n() && j != id ==> final(self).particles@[j] == old(self).particles@[j],
            final(self).nbrs(id as int) == old(self).nbrs(id as int),
            final(self).particles@[id as int].best_score <= old(self).particles@[id as int].best_score,
            scores_witnessed(*old(self), objective) ==> scores_witnessed(*final(self), objective),
            r == Err::<(), Error>(Error::NoNeighbors) <==> old(self).nbrs(id as int).len() == 0,
            r == Err::<(), Error>(Error::NoNeighbors) ==> *final(self) == *old(self),
            r is Err ==> r == Err::<(), Error>(Error::NoNeighbors) || r == Err::<(), Error>(
                Error::NonFiniteObjective,
            ),
            r == Err::<(), Error>(Error::NonFiniteObjective) ==> {
                &&& exists|p: &Vec<u64>| call_ensures(*objective, (p,), Option::<u64>::None)
                &&& final(self).particles@[id as int].best_score == old(self).particles@[id as int].best_score
                &&& final(self).particles@[id as int].best_position@ == old(self).particles@[id as int].best_position@
            },
            objective_total(objective) && old(self).nbrs(id as int).len() > 0 ==> r == Ok::<
                (),
                Error,
            >(()),
            r is Ok ==> moved_single(*old(self), *final(self), id as int, rule)
                && scored_strict(*old(self), *final(self), id as int, objective),
    {
        if self.particles[id].neighbors.len() == 0 {
            return Err(Error::NoNeighbors);
        }
        let gbest = self.get_best_neighbor(id);
        let ghost prev = *self;
        let mut p = self.particles.remove(id);
        let (new_velocity, new_position) = rule(&p.position, &p.velocity, &p.best_position, &gbest);
        p.velocity = new_velocity;
        p.position = new_position;
        self.particles.insert(id, p);
        proof {
            assert(self.particles@ =~= prev.particles@.update(
                id as int,
                self.particles@[id as int],
            ));
            assert forall|t: int| 0 <= t < self.n() implies #[trigger] self.particles@[t].wf(
                self.dim as int,
                t,
                self.n(),
            ) by {
                assert(prev.particles@[t].wf(prev.dim as int, t, prev.n()));
            }
        }
        let score = objective(&self.particles[id].position);
        match score {
            None => {
                proof {
                    if scores_witnessed(*old(self), objective) {
                        lemma_witness_update(*old(self), *self, id as int, objective);
                    }
                }
                Err(Error::NonFiniteObjective)
            },
            Some(sc) => {
                let ghost pre = *self;
                self.update_best(id, sc);
                proof {
                    assert(self.particles@[id as int].position@ == pre.particles@[id as int].position@);
                    assert(self.particles@[id as int].velocity@ == pre.particles@[id as int].velocity@);
                    assert(moved_single(*old(self), *self, id as int, rule));
                    assert(scored_strict(*old(self), *self, id as int, objective));
                    if scores_witnessed(*old(self), objective) {
                        if sc < pre.particles@[id as int].best_score {
                            assert(self.particles@[id as int].best_position@
                                == pre.particles@[id as int].position@);
                            assert(exists|p: &Vec<u64>|
                                p@ == self.particles@[id as int].best_position@
                                    && #[trigger] call_ensures(
                                    *objective,
                                    (p,),
                                    Some(self.particles@[id as int].best_score),
                                ));
                        }
                        lemma_witness_update(*old(self), *self, id as int, objective);
                    }
                }
                Ok(())
            },
        }
    }

    /// Move particle `id` under the pull of all its neighbors: the move
    /// callback receives the particle's position and velocity and every
    /// neighbor's best position, in neighbor-list order with duplicates
    /// kept (a repeated neighbor weighs more); the objective then scores
    /// the new position and a strictly better score overwrites the
    /// personal best.
    pub fn full_update<FF, FO>(&mut self, id: usize, rule: &FF, objective: &FO) -> (r: Result<
        (),
        Error,
    >) where
        FF: Fn(&Vec<u64>, &Vec<u64>, &Vec<Vec<u64>>) -> (Vec<u64>, Vec<u64>),
        FO: Fn(&Vec<u64>) -> Option<u64>,

        requires
            old(self).wf(),
            0 <= id < old(self).n(),
            full_rule_ok(rule),
            objective_ok(objective),
        ensures
            final(self).wf(),
            final(self).dim == old(self).dim,
            final(self).n() == old(self).n(),
            forall|j: int|
                0 <= j < old(self).n() && j != id ==> final(self).particles@[j] == old(self).particles@[j],
            final(self).nbrs(id as int) == old(self).nbrs(id as int),
            final(self).particles@[id as int].best_score <= old(self).particles@[id as int].best_score,
            scores_witnessed(*old(self), objective) ==> scores_witnessed(*final(self), objective),
            r == Err::<(), Error>(Error::NoNeighbors) <==> old(self).nbrs(id as int).len() == 0,
            r == Err::<(), Error>(Error::NoNeighbors) ==> *final(self) == *old(self),
            r is Err ==> r == Err::<(), Error>(Error::NoNeighbors) || r == Err::<(), Error>(
                Error::NonFiniteObjective,
            ),
            r == Err::<(), Error>(Error::NonFiniteObjective) ==> {
                &&& exists|p: &Vec<u64>| call_ensures(*objective, (p,), Option::<u64>::None)
                &&& final(self).particles@[id as int].best_score == old(self).particles@[id as int].best_score
                &&& final(self).particles@[id as int].best_position@ == old(self).particles@[id as int].best_position@
            },
            objective_total(objective) && old(self).nbrs(id as int).len() > 0 ==> r == Ok::<
                (),
                Error,
            >(()),
            r is Ok ==> moved_full(*old(self), *final(self), id as int, rule)
                && scored_strict(*old(self), *final(self), id as int, objective),
    {
        let degree: usize = self.particles[id].neighbors.len();
        if degree == 0 {
            return Err(Error::NoNeighbors);
        }
        proof {
            assert(self.particles@[id as int].wf(self.dim as int, id as int, self.n()));
        }
        let mut neighbor_bests: Vec<Vec<u64>> = Vec::new();
        let mut t: usize = 0;
        while t < degree
            invariant
                self.wf(),
                0 <= id < self.n(),
                degree == self.nbrs(id as int).len(),
                t <= degree,
                neighbor_bests@.len() == t,
                forall|u: int|
                    0 <= u < t ==> (#[trigger] neighbor_bests@[u])@ == self.particles@[self.nbrs(
                        id as int,
                    )[u] as int].best_position@,
            decreases degree - t,
        {
            let j: usize = self.particles[id].neighbors[t];
            proof {
                assert(self.particles@[id as int].wf(self.dim as int, id as int, self.n()));
                assert(self.particles@[j as int].wf(self.dim as int, j as int, self.n()));
            }
            let b = crate::particle::copy_vec(&self.particles[j].best_position);
            neighbor_bests.push(b);
            t += 1;
        }
        let ghost prev = *self;
        let mut p = self.particles.remove(id);
        let (new_velocity, new_position) = rule(&p.position, &p.velocity, &neighbor_bests);
        p.velocity = new_velocity;
        p.position = new_position;
        self.particles.insert(id, p);
        proof {
            assert(self.particles@ =~= prev.particles@.update(
                id as int,
                self.particles@[id as int],
            ));
            assert forall|t2: int| 0 <= t2 < self.n() implies #[trigger] self.particles@[t2].wf(
                self.dim as int,
                t2,
                self.n(),
            ) by {
                assert(prev.particles@[t2].wf(prev.dim as int, t2, prev.n()));
            }
        }
        let score = objective(&self.particles[id].position);
        match score {
            None => {
                proof {
                    if scores_witnessed(*old(self), objective) {
                        lemma_witness_update(*old(self), *self, id as int, objective);
                    }
                }
                Err(Error::NonFiniteObjective)
            },
            Some(sc) => {
                let ghost pre = *self;
                self.update_best(id, sc);
                proof {
                    assert(self.particles@[id as int].position@ == pre.particles@[id as int].position@);
                    assert(self.particles@[id as int].velocity@ == pre.particles@[id as int].velocity@);
                    assert(moved_full(*old(self), *self, id as int, rule));
                    assert(scored_strict(*old(self), *self, id as int, objective));
                    if scores_witnessed(*old(self), objective) {
                        if sc < pre.particles@[id as int].best_score {
                            assert(self.particles@[id as int].best_position@
                                == pre.particles@[id as int].position@);
                            assert(exists|p: &Vec<u64>|
                                p@ == self.particles@[id as int].best_position@
                                    && #[trigger] call_ensures(
                                    *objective,
                                    (p,),
                                    Some(self.particles@[id as int].best_score),
                                ));
                        }
                        lemma_witness_update(*old(self), *self, id as int, objective);
                    }
                }
                Ok(())
            },
        }
    }
}

} // verus!
