//! The sweep driver: initialization, topology construction, and the
//! iteration loop that dispatches per particle between the two move rules.

use vstd::prelude::*;

use rand::rngs::StdRng;

use crate::particle::{copy_vec, Particle, Swarm};
use crate::topology::{full_mesh_row, min_int, seed_size};
use crate::update::{
    full_rule_ok, moved_full, moved_single, objective_ok, objective_total, scored_strict,
    scores_witnessed, single_rule_ok, spec_fully_informed, uses_fully_informed, witnessed_at,
};
use crate::{Config, Error, Neighborhood};

verus! {

/// An initializer callback: for a particle index it answers the initial
/// position and velocity, each sized to the search space's dimension
/// (drawn inside the caller's bounds).
pub open spec fn init_ok<FI: Fn(usize) -> (Vec<u64>, Vec<u64>)>(init: &FI, dim: int) -> bool {
    &&& forall|args: (usize,)| #[trigger] call_requires(*init, args)
    &&& forall|args: (usize,), out: (Vec<u64>, Vec<u64>)|
        #[trigger] call_ensures(*init, args, out) ==> out.0@.len() == dim && out.1@.len() == dim
}

/// Particle `i` really holds the initializer's draw: some outcome of the
/// init callback on `i` is installed as its position and velocity.
pub open spec fn drawn<FI: Fn(usize) -> (Vec<u64>, Vec<u64>)>(p: Particle, init: &FI, i: int) -> bool {
    exists|out: (Vec<u64>, Vec<u64>)|
        {
            &&& #[trigger] call_ensures(*init, (i as usize,), out)
            &&& p.position@ == out.0@
            &&& p.velocity@ == out.1@
        }
}

/// A freshly built swarm: sized as asked, edge-free, every particle at
/// the initializer's draw for its index with its personal best at that
/// position, and every best score an answer of the objective.
pub open spec fn freshly_initialized<FI, FO>(
    s: Swarm,
    n_particles: int,
    dim: int,
    init: &FI,
    objective: &FO,
) -> bool where FI: Fn(usize) -> (Vec<u64>, Vec<u64>), FO: Fn(&Vec<u64>) -> Option<u64> {
    &&& s.wf()
    &&& s.dim == dim
    &&& s.n() == n_particles
    &&& s.no_edges()
    &&& scores_witnessed(s, objective)
    &&& forall|i: int| 0 <= i < s.n() ==> #[trigger] drawn(s.particles@[i], init, i)
    &&& forall|i: int|
        0 <= i < s.n() ==> (#[trigger] s.particles@[i]).best_position@
            == s.particles@[i].position@
}

/// Build the swarm: each particle takes its drawn position and velocity,
/// its personal best starts at its initial position, and its best score is
/// the objective's key for that position.
#[verifier::rlimit(50)]
pub fn initialize_particles<FI, FO>(
    n_particles: usize,
    dim: usize,
    init: &FI,
    objective: &FO,
) -> (r: Result<Swarm, Error>) where
    FI: Fn(usize) -> (Vec<u64>, Vec<u64>),
    FO: Fn(&Vec<u64>) -> Option<u64>,

    requires
        n_particles > 0,
        dim > 0,
        init_ok(init, dim as int),
        objective_ok(objective),
    ensures
        r is Err ==> r == Err::<Swarm, Error>(Error::NonFiniteObjective),
        r is Err ==> exists|p: &Vec<u64>| call_ensures(*objective, (p,), Option::<u64>::None),
        objective_total(objective) ==> r is Ok,
        r matches Ok(s) ==> freshly_initialized(s, n_particles as int, dim as int, init, objective),
{
    let mut particles: Vec<Particle> = Vec::new();
    let mut i: usize = 0;
    while i < n_particles
        invariant
            i <= n_particles,
            dim > 0,
            init_ok(init, dim as int),
            objective_ok(objective),
            particles@.len() == i,
            forall|t: int|
                0 <= t < i ==> {
                    &&& (#[trigger] particles@[t]).position@.len() == dim
                    &&& particles@[t].velocity@.len() == dim
                    &&& particles@[t].best_position@ == particles@[t].position@
                    &&& particles@[t].neighbors@.len() == 0
                    &&& drawn(particles@[t], init, t)
                    &&& exists|p: &Vec<u64>|
                        p@ == particles@[t].position@ && #[trigger] call_ensures(
                            *objective,
                            (p,),
                            Some(particles@[t].best_score),
                        )
                },
        decreases n_particles - i,
    {
        let pair = init(i);
        let ghost outg = pair;
        let (position, velocity) = pair;
        let best_position = copy_vec(&position);
        let score = objective(&position);
        match score {
            None => {
                return Err(Error::NonFiniteObjective);
            },
            Some(sc) => {
                let ghost posv = position@;
                let ghost velv = velocity@;
                proof {
                    assert(posv.len() == dim && velocity@.len() == dim);
                    assert(exists|p: &Vec<u64>|
                        p@ == posv && #[trigger] call_ensures(*objective, (p,), Some(sc)));
                }
                let ghost prevp = particles@;
                particles.push(
                    Particle {
                        position,
                        velocity,
                        best_position,
                        best_score: sc,
                        neighbors: Vec::new(),
                    },
                );
                proof {
                    assert forall|t: int|
                        0 <= t < i + 1 implies {
                        &&& (#[trigger] particles@[t]).position@.len() == dim
                        &&& particles@[t].velocity@.len() == dim
                        &&& particles@[t].best_position@ == particles@[t].position@
                        &&& particles@[t].neighbors@.len() == 0
                        &&& drawn(particles@[t], init, t)
                        &&& exists|p: &Vec<u64>|
                            p@ == particles@[t].position@ && #[trigger] call_ensures(
                                *objective,
                                (p,),
                                Some(particles@[t].best_score),
                            )
                    } by {
                        if t < i {
                            assert(particles@[t] == prevp[t]);
                            assert((#[trigger] prevp[t]).position@.len() == dim
                                && prevp[t].velocity@.len() == dim
                                && prevp[t].best_position@ == prevp[t].position@
                                && prevp[t].neighbors@.len() == 0
                                && drawn(prevp[t], init, t)
                                && exists|p: &Vec<u64>|
                                p@ == prevp[t].position@ && #[trigger] call_ensures(
                                    *objective,
                                    (p,),
                                    Some(prevp[t].best_score),
                                ));
                        } else {
                            assert(particles@[t].position@ == posv);
                            assert(particles@[t].best_position@ == posv);
                            assert(particles@[t].best_score == sc);
                            assert(particles@[t].velocity@ == velv);
                            assert(t as usize == i);
                            assert(call_ensures(*init, (t as usize,), outg));
                            assert(particles@[t].position@ == outg.0@);
                            assert(particles@[t].velocity@ == outg.1@);
                            assert(drawn(particles@[t], init, t));
                        }
                    }
                }
            },
        }
        i += 1;
    }
    let s = Swarm { particles, dim };
    assert forall|t: int| 0 <= t < s.n() implies #[trigger] s.particles@[t].wf(
        s.dim as int,
        t,
        s.n(),
    ) by {}
    assert forall|t: int| 0 <= t < s.n() implies #[trigger] witnessed_at(s, objective, t) by {
        assert(s.particles@[t].best_position@ == s.particles@[t].position@);
    }
    assert forall|t: int| 0 <= t < s.n() implies #[trigger] drawn(s.particles@[t], init, t) by {}
    assert forall|t: int|
        0 <= t < s.n() implies (#[trigger] s.particles@[t]).best_position@
        == s.particles@[t].position@ by {}
    assert forall|t: int| 0 <= t < s.n() implies (#[trigger] s.nbrs(t)).len() == 0 by {
        assert(s.particles@[t].neighbors@.len() == 0);
    }
    assert(s.no_edges());
    assert(s.wf());
    assert(scores_witnessed(s, objective));
    assert(freshly_initialized(s, n_particles as int, dim as int, init, objective));
    Ok(s)
}


/// What one sweep does to particle `i`, from the state it finds (`pre`,
/// with every earlier particle of the same sweep already moved) to the
/// state it leaves: the rule selected by the particle's degree at that
/// moment — strictly "degree exceeds k", re-evaluated here per particle
/// per sweep — moved it, the objective scored the new position under the
/// strict-improvement best update, and no other particle changed.
pub open spec fn sweep_step<FS, FF, FO>(
    pre: Swarm,
    post: Swarm,
    i: int,
    k: int,
    single_rule: &FS,
    full_rule: &FF,
    objective: &FO,
) -> bool where
    FS: Fn(&Vec<u64>, &Vec<u64>, &Vec<u64>, &Vec<u64>) -> (Vec<u64>, Vec<u64>),
    FF: Fn(&Vec<u64>, &Vec<u64>, &Vec<Vec<u64>>) -> (Vec<u64>, Vec<u64>),
    FO: Fn(&Vec<u64>) -> Option<u64>,
 {
    &&& post.dim == pre.dim
    &&& post.n() == pre.n()
    &&& forall|j: int| 0 <= j < pre.n() && j != i ==> post.particles@[j] == pre.particles@[j]
    &&& post.particles@[i].neighbors@ == pre.particles@[i].neighbors@
    &&& if spec_fully_informed(pre.particles@[i].neighbors@.len() as int, k) {
        moved_full(pre, post, i, full_rule)
    } else {
        moved_single(pre, post, i, single_rule)
    }
    &&& scored_strict(pre, post, i, objective)
}

/// Law: within one sweep step the dispatch is strictly "degree exceeds
/// k", judged on the state the step finds: with a zero threshold a
/// connected particle moves by the fully informed rule; a degree at most
/// the threshold — every particle of a full mesh once the threshold
/// reaches the mesh degree — moves by the single-best-neighbor rule.
pub proof fn lemma_sweep_step_dispatch<FS, FF, FO>(
    pre: Swarm,
    post: Swarm,
    i: int,
    k: int,
    single_rule: &FS,
    full_rule: &FF,
    objective: &FO,
) where
    FS: Fn(&Vec<u64>, &Vec<u64>, &Vec<u64>, &Vec<u64>) -> (Vec<u64>, Vec<u64>),
    FF: Fn(&Vec<u64>, &Vec<u64>, &Vec<Vec<u64>>) -> (Vec<u64>, Vec<u64>),
    FO: Fn(&Vec<u64>) -> Option<u64>,

    requires
        sweep_step(pre, post, i, k, single_rule, full_rule, objective),
    ensures
        k == 0 && pre.particles@[i].neighbors@.len() > 0 ==> moved_full(pre, post, i, full_rule),
        pre.particles@[i].neighbors@.len() <= k ==> moved_single(pre, post, i, single_rule),
{
}

/// The chain form of one sweep: state `t` is the swarm just before
/// particle `t` moves, and each link is one `sweep_step`.
pub open spec fn sweep_states_ok<FS, FF, FO>(
    states: Seq<Swarm>,
    k: int,
    single_rule: &FS,
    full_rule: &FF,
    objective: &FO,
) -> bool where
    FS: Fn(&Vec<u64>, &Vec<u64>, &Vec<u64>, &Vec<u64>) -> (Vec<u64>, Vec<u64>),
    FF: Fn(&Vec<u64>, &Vec<u64>, &Vec<Vec<u64>>) -> (Vec<u64>, Vec<u64>),
    FO: Fn(&Vec<u64>) -> Option<u64>,
 {
    forall|t: int|
        0 <= t < states.len() - 1 ==> #[trigger] sweep_step(
            states[t],
            states[t + 1],
            t,
            k,
            single_rule,
            full_rule,
            objective,
        )
}

/// One whole sweep took `pre` to `post`: a chain of intermediate swarms,
/// one move per particle, in index order.
pub open spec fn swept<FS, FF, FO>(
    pre: Swarm,
    post: Swarm,
    k: int,
    single_rule: &FS,
    full_rule: &FF,
    objective: &FO,
) -> bool where
    FS: Fn(&Vec<u64>, &Vec<u64>, &Vec<u64>, &Vec<u64>) -> (Vec<u64>, Vec<u64>),
    FF: Fn(&Vec<u64>, &Vec<u64>, &Vec<Vec<u64>>) -> (Vec<u64>, Vec<u64>),
    FO: Fn(&Vec<u64>) -> Option<u64>,
 {
    exists|states: Seq<Swarm>|
        {
            &&& states.len() == pre.n() + 1
            &&& states[0] == pre
            &&& states[states.len() - 1] == post
            &&& #[trigger] sweep_states_ok(states, k, single_rule, full_rule, objective)
        }
}

/// Consecutive states of a run are linked by whole sweeps.
pub open spec fn sweeps_ok<FS, FF, FO>(
    states: Seq<Swarm>,
    k: int,
    single_rule: &FS,
    full_rule: &FF,
    objective: &FO,
) -> bool where
    FS: Fn(&Vec<u64>, &Vec<u64>, &Vec<u64>, &Vec<u64>) -> (Vec<u64>, Vec<u64>),
    FF: Fn(&Vec<u64>, &Vec<u64>, &Vec<Vec<u64>>) -> (Vec<u64>, Vec<u64>),
    FO: Fn(&Vec<u64>) -> Option<u64>,
 {
    forall|t: int|
        0 <= t < states.len() - 1 ==> #[trigger] swept(
            states[t],
            states[t + 1],
            k,
            single_rule,
            full_rule,
            objective,
        )
}

/// The whole run took `pre` to `post`: a chain of swarm states with one
/// full sweep between each consecutive pair.
pub open spec fn ran<FS, FF, FO>(
    pre: Swarm,
    post: Swarm,
    n_iter: int,
    k: int,
    single_rule: &FS,
    full_rule: &FF,
    objective: &FO,
) -> bool where
    FS: Fn(&Vec<u64>, &Vec<u64>, &Vec<u64>, &Vec<u64>) -> (Vec<u64>, Vec<u64>),
    FF: Fn(&Vec<u64>, &Vec<u64>, &Vec<Vec<u64>>) -> (Vec<u64>, Vec<u64>),
    FO: Fn(&Vec<u64>) -> Option<u64>,
 {
    exists|states: Seq<Swarm>|
        {
            &&& states.len() == n_iter + 1
            &&& states[0] == pre
            &&& states[states.len() - 1] == post
            &&& #[trigger] sweeps_ok(states, k, single_rule, full_rule, objective)
        }
}

impl Swarm {
    /// One sweep: visit the particles in index order; a particle whose
    /// current degree exceeds `k` moves by the fully informed rule, any
    /// other by the single-best-neighbor rule. Moves land in place at
    /// once, so later particles in the same sweep see already-updated
    /// neighbor bests.
    pub fn run_sweep<FS, FF, FO>(
        &mut self,
        k: usize,
        single_rule: &FS,
        full_rule: &FF,
        objective: &FO,
    ) -> (r: Result<(), Error>) where
        FS: Fn(&Vec<u64>, &Vec<u64>, &Vec<u64>, &Vec<u64>) -> (Vec<u64>, Vec<u64>),
        FF: Fn(&Vec<u64>, &Vec<u64>, &Vec<Vec<u64>>) -> (Vec<u64>, Vec<u64>),
        FO: Fn(&Vec<u64>) -> Option<u64>,

        requires
            old(self).wf(),
            single_rule_ok(single_rule),
            full_rule_ok(full_rule),
            objective_ok(objective),
        ensures
            final(self).wf(),
            final(self).dim == old(self).dim,
            final(self).n() == old(self).n(),
            forall|i: int|
                0 <= i < old(self).n() ==> #[trigger] final(self).nbrs(i) == old(self).nbrs(i),
            forall|i: int|
                0 <= i < old(self).n() ==> (#[trigger] final(self).particles@[i]).best_score <= old(
                    self,
                ).particles@[i].best_score,
            r is Err ==> r == Err::<(), Error>(Error::NoNeighbors) || r == Err::<(), Error>(
                Error::NonFiniteObjective,
            ),
            r == Err::<(), Error>(Error::NoNeighbors) ==> exists|i: int|
                0 <= i < old(self).n() && (#[trigger] old(self).nbrs(i)).len() == 0,
            r == Err::<(), Error>(Error::NonFiniteObjective) ==> exists|p: &Vec<u64>|
                call_ensures(*objective, (p,), Option::<u64>::None),
            (forall|i: int| 0 <= i < old(self).n() ==> (#[trigger] old(self).nbrs(i)).len() > 0)
                && objective_total(objective) ==> r == Ok::<(), Error>(()),
            (exists|i: int| 0 <= i < old(self).n() && (#[trigger] old(self).nbrs(i)).len() == 0)
                ==> r is Err,
            r is Ok ==> swept(
                *old(self),
                *final(self),
                k as int,
                single_rule,
                full_rule,
                objective,
            ),
            scores_witnessed(*old(self), objective) ==> scores_witnessed(*final(self), objective),
    {
        let n: usize = self.particles.len();
        let ghost mut states: Seq<Swarm> = seq![*self];
        let mut i: usize = 0;
        while i < n
            invariant
                self.wf(),
                n == self.n(),
                i <= n,
                self.dim == old(self).dim,
                n == old(self).n(),
                single_rule_ok(single_rule),
                full_rule_ok(full_rule),
                objective_ok(objective),
                forall|t: int| 0 <= t < n ==> #[trigger] self.nbrs(t) == old(self).nbrs(t),
                forall|t: int| 0 <= t < i ==> (#[trigger] old(self).nbrs(t)).len() > 0,
                forall|t: int|
                    0 <= t < n ==> (#[trigger] self.particles@[t]).best_score <= old(
                        self,
                    ).particles@[t].best_score,
                scores_witnessed(*old(self), objective) ==> scores_witnessed(*self, objective),
                states.len() == i + 1,
                states[0] == *old(self),
                states[i as int] == *self,
                sweep_states_ok(states, k as int, single_rule, full_rule, objective),
            decreases n - i,
        {
            let ghost before = *self;
            let degree: usize = self.particles[i].neighbors.len();
            let res = if uses_fully_informed(degree, k) {
                self.full_update(i, full_rule, objective)
            } else {
                self.single_update(i, single_rule, objective)
            };
            proof {
                assert forall|t: int| 0 <= t < n implies #[trigger] self.nbrs(t) == old(self).nbrs(
                    t,
                ) by {
                    if t != i {
                        assert(self.particles@[t] == before.particles@[t]);
                    }
                    assert(before.nbrs(t) == old(self).nbrs(t));
                }
                assert forall|t: int| 0 <= t < n implies (#[trigger] self.particles@[t]).best_score
                    <= old(self).particles@[t].best_score by {
                    if t != i {
                        assert(self.particles@[t] == before.particles@[t]);
                    }
                    assert(before.particles@[t].best_score <= old(self).particles@[t].best_score);
                }
            }
            match res {
                Ok(_) => {
                    proof {
                        assert(before.nbrs(i as int) == old(self).nbrs(i as int));
                        assert(sweep_step(
                            before,
                            *self,
                            i as int,
                            k as int,
                            single_rule,
                            full_rule,
                            objective,
                        ));
                        let prev_states = states;
                        states = states.push(*self);
                        assert forall|t: int| 0 <= t < states.len() - 1 implies #[trigger] sweep_step(
                            states[t],
                            states[t + 1],
                            t,
                            k as int,
                            single_rule,
                            full_rule,
                            objective,
                        ) by {
                            if t < i {
                                assert(states[t] == prev_states[t]);
                                assert(states[t + 1] == prev_states[t + 1]);
                                assert(sweep_step(
                                    prev_states[t],
                                    prev_states[t + 1],
                                    t,
                                    k as int,
                                    single_rule,
                                    full_rule,
                                    objective,
                                ));
                            } else {
                                assert(states[t] == before);
                                assert(states[t + 1] == *self);
                            }
                        }
                    }
                },
                Err(e) => {
                    return Err(e);
                },
            }
            i += 1;
        }
        proof {
            assert(states.len() == n + 1);
            assert(states[states.len() - 1] == *self);
            assert(swept(*old(self), *self, k as int, single_rule, full_rule, objective));
        }
        Ok(())
    }

    /// Run `n_iter` sweeps. Sweeps touch no neighbor list, and no
    /// particle's best score ever rises.
    pub fn run<FS, FF, FO>(
        &mut self,
        n_iter: usize,
        k: usize,
        single_rule: &FS,
        full_rule: &FF,
        objective: &FO,
    ) -> (r: Result<(), Error>) where
        FS: Fn(&Vec<u64>, &Vec<u64>, &Vec<u64>, &Vec<u64>) -> (Vec<u64>, Vec<u64>),
        FF: Fn(&Vec<u64>, &Vec<u64>, &Vec<Vec<u64>>) -> (Vec<u64>, Vec<u64>),
        FO: Fn(&Vec<u64>) -> Option<u64>,

        requires
            old(self).wf(),
            single_rule_ok(single_rule),
            full_rule_ok(full_rule),
            objective_ok(objective),
        ensures
            final(self).wf(),
            final(self).dim == old(self).dim,
            final(self).n() == old(self).n(),
            forall|i: int|
                0 <= i < old(self).n() ==> #[trigger] final(self).nbrs(i) == old(self).nbrs(i),
            forall|i: int|
                0 <= i < old(self).n() ==> (#[trigger] final(self).particles@[i]).best_score <= old(
                    self,
                ).particles@[i].best_score,
            r is Err ==> r == Err::<(), Error>(Error::NoNeighbors) || r == Err::<(), Error>(
                Error::NonFiniteObjective,
            ),
            r == Err::<(), Error>(Error::NoNeighbors) ==> n_iter > 0 && exists|i: int|
                0 <= i < old(self).n() && (#[trigger] old(self).nbrs(i)).len() == 0,
            r == Err::<(), Error>(Error::NonFiniteObjective) ==> exists|p: &Vec<u64>|
                call_ensures(*objective, (p,), Option::<u64>::None),
            n_iter == 0 || ((forall|i: int|
                0 <= i < old(self).n() ==> (#[trigger] old(self).nbrs(i)).len() > 0)
                && objective_total(objective)) ==> r == Ok::<(), Error>(()),
            n_iter > 0 && (exists|i: int|
                0 <= i < old(self).n() && (#[trigger] old(self).nbrs(i)).len() == 0) ==> r is Err,
            r is Ok ==> ran(
                *old(self),
                *final(self),
                n_iter as int,
                k as int,
                single_rule,
                full_rule,
                objective,
            ),
            scores_witnessed(*old(self), objective) ==> scores_witnessed(*final(self), objective),
    {
        let ghost mut states: Seq<Swarm> = seq![*self];
        let mut it: usize = 0;
        while it < n_iter
            invariant
                self.wf(),
                it <= n_iter,
                self.dim == old(self).dim,
                self.n() == old(self).n(),
                single_rule_ok(single_rule),
                full_rule_ok(full_rule),
                objective_ok(objective),
                forall|t: int|
                    0 <= t < old(self).n() ==> #[trigger] self.nbrs(t) == old(self).nbrs(t),
                it == 0 || (forall|t: int|
                    0 <= t < old(self).n() ==> (#[trigger] old(self).nbrs(t)).len() > 0),
                forall|t: int|
                    0 <= t < old(self).n() ==> (#[trigger] self.particles@[t]).best_score <= old(
                        self,
                    ).particles@[t].best_score,
                scores_witnessed(*old(self), objective) ==> scores_witnessed(*self, objective),
                states.len() == it + 1,
                states[0] == *old(self),
                states[it as int] == *self,
                sweeps_ok(states, k as int, single_rule, full_rule, objective),
            decreases n_iter - it,
        {
            let ghost before = *self;
            let res = self.run_sweep(k, single_rule, full_rule, objective);
            proof {
                assert forall|t: int| 0 <= t < old(self).n() implies #[trigger] self.nbrs(t) == old(
                    self,
                ).nbrs(t) by {
                    assert(self.nbrs(t) == before.nbrs(t));
                }
                assert forall|t: int|
                    0 <= t < old(self).n() implies (#[trigger] self.particles@[t]).best_score <= old(
                    self,
                ).particles@[t].best_score by {
                    assert(self.particles@[t].best_score <= before.particles@[t].best_score);
                }
            }
            match res {
                Ok(_) => {
                    proof {
                        assert forall|t: int|
                            0 <= t < old(self).n() implies (#[trigger] old(self).nbrs(t)).len()
                            > 0 by {
                            if before.nbrs(t).len() == 0 {
                                assert(exists|x: int|
                                    0 <= x < before.n() && (#[trigger] before.nbrs(x)).len() == 0);
                            }
                            assert(before.nbrs(t) == old(self).nbrs(t));
                        }
                        assert(swept(before, *self, k as int, single_rule, full_rule, objective));
                        let prev_states = states;
                        states = states.push(*self);
                        assert forall|t: int| 0 <= t < states.len() - 1 implies #[trigger] swept(
                            states[t],
                            states[t + 1],
                            k as int,
                            single_rule,
                            full_rule,
                            objective,
                        ) by {
                            if t < it {
                                assert(states[t] == prev_states[t]);
                                assert(states[t + 1] == prev_states[t + 1]);
                                assert(swept(
                                    prev_states[t],
                                    prev_states[t + 1],
                                    k as int,
                                    single_rule,
                                    full_rule,
                                    objective,
                                ));
                            } else {
                                assert(states[t] == before);
                                assert(states[t + 1] == *self);
                            }
                        }
                    }
                },
                Err(e) => {
                    return Err(e);
                },
            }
            it += 1;
        }
        proof {
            assert(states.len() == n_iter + 1);
            assert(states[states.len() - 1] == *self);
            assert(ran(
                *old(self),
                *self,
                n_iter as int,
                k as int,
                single_rule,
                full_rule,
                objective,
            ));
        }
        Ok(())
    }
}

/// The reported pair is "as last computed": the objective can answer
/// this score for this position.
pub open spec fn witnessed_pair<FO: Fn(&Vec<u64>) -> Option<u64>>(
    out: (u64, Vec<u64>),
    objective: &FO,
) -> bool {
    exists|p: &Vec<u64>|
        p@ == out.1@ && #[trigger] call_ensures(*objective, (p,), Some(out.0))
}

/// Whether, under this configuration, every particle is sure to have a
/// neighbor by the time the first move runs (or no move runs at all), so
/// that a run owes success whenever the objective scores every position.
pub open spec fn spec_covered(config: Config) -> bool {
    config.n_iter == 0 || (match config.neighborhood {
        Neighborhood::Full => config.n_particles >= 2,
        Neighborhood::ScaleFree { m, m0 } => seed_size(m0 as int, config.n_particles as int) >= 2
            && m >= 1,
        Neighborhood::Isolated => false,
    })
}

/// `start` is a freshly initialized swarm for this configuration: sized
/// and dimensioned by it, edge-free, and every particle stands at the
/// initializer's draw with its personal best at that position, scored by
/// the objective.
pub open spec fn initialized<FI, FO>(
    config: Config,
    start: Swarm,
    init: &FI,
    objective: &FO,
) -> bool where FI: Fn(usize) -> (Vec<u64>, Vec<u64>), FO: Fn(&Vec<u64>) -> Option<u64> {
    freshly_initialized(start, config.n_particles as int, config.dim as int, init, objective)
}

/// The topology the configuration asks for stands over `start` in
/// `built`, with no particle moved: exact full-mesh rows, the
/// preferential-attachment shape, or no edges at all.
pub open spec fn built_topology(config: Config, start: Swarm, built: Swarm) -> bool {
    match config.neighborhood {
        Neighborhood::Full => {
            &&& built.wf()
            &&& start.same_coords(built)
            &&& forall|i: int|
                0 <= i < built.n() ==> #[trigger] built.nbrs(i) == full_mesh_row(i, built.n())
        },
        Neighborhood::ScaleFree { m, m0 } => {
            &&& built.wf()
            &&& start.same_coords(built)
            &&& built.sym_edge_counts()
            &&& forall|a: int, b: usize|
                0 <= a < seed_size(m0 as int, built.n()) && b < seed_size(m0 as int, built.n())
                    && b as int != a ==> #[trigger] built.edge(a, b)
            &&& forall|a: int|
                0 <= a < seed_size(m0 as int, built.n()) ==> (#[trigger] built.nbrs(a)).len()
                    >= seed_size(m0 as int, built.n()) - 1
            &&& forall|a: int|
                seed_size(m0 as int, built.n()) <= a < built.n() ==> (#[trigger] built.nbrs(
                    a,
                )).len() >= min_int(
                    m as int,
                    seed_size(m0 as int, built.n()) * (seed_size(m0 as int, built.n()) - 1),
                )
        },
        Neighborhood::Isolated => built == start,
    }
}

/// A whole optimization run: validate the configuration, build and score
/// the initial swarm, build the topology once, sweep `n_iter` times, and
/// report the global best score and position.
pub fn run_pso<FI, FS, FF, FO>(
    config: &Config,
    init: &FI,
    single_rule: &FS,
    full_rule: &FF,
    objective: &FO,
    rng: &mut StdRng,
) -> (r: Result<(u64, Vec<u64>), Error>) where
    FI: Fn(usize) -> (Vec<u64>, Vec<u64>),
    FS: Fn(&Vec<u64>, &Vec<u64>, &Vec<u64>, &Vec<u64>) -> (Vec<u64>, Vec<u64>),
    FF: Fn(&Vec<u64>, &Vec<u64>, &Vec<Vec<u64>>) -> (Vec<u64>, Vec<u64>),
    FO: Fn(&Vec<u64>) -> Option<u64>,

    requires
        init_ok(init, config.dim as int),
        single_rule_ok(single_rule),
        full_rule_ok(full_rule),
        objective_ok(objective),
    ensures
        config.fault() matches Some(e) ==> r == Err::<(u64, Vec<u64>), Error>(e),
        r matches Ok(out) ==> out.1@.len() == config.dim,
        r is Ok ==> witnessed_pair(r->Ok_0, objective),
        r is Ok ==> exists|start: Swarm, built: Swarm, finish: Swarm|
            #![trigger built_topology(*config, start, built), ran(built, finish, config.n_iter as int, config.k as int, single_rule, full_rule, objective)]
            {
                &&& initialized(*config, start, init, objective)
                &&& built_topology(*config, start, built)
                &&& ran(
                    built,
                    finish,
                    config.n_iter as int,
                    config.k as int,
                    single_rule,
                    full_rule,
                    objective,
                )
                &&& finish.is_gbest(r->Ok_0)
            },
        config.valid() && spec_covered(*config) && objective_total(objective) ==> r is Ok,
        config.valid() && config.n_iter > 0 && config.neighborhood is Isolated ==> r is Err,
{
    match config.check() {
        Err(e) => {
            return Err(e);
        },
        Ok(_) => {},
    }
    let mut swarm = match initialize_particles(config.n_particles, config.dim, init, objective) {
        Err(e) => {
            return Err(e);
        },
        Ok(s) => s,
    };
    let ghost pre_topology = swarm;
    match config.neighborhood {
        Neighborhood::Full => {
            swarm.neigh_full();
            proof {
                crate::update::lemma_witness_same_coords(pre_topology, swarm, objective);
                if config.n_particles >= 2 {
                    assert forall|i: int| 0 <= i < swarm.n() implies (#[trigger] swarm.nbrs(
                        i,
                    )).len() > 0 by {
                        assert(swarm.nbrs(i) == crate::topology::full_mesh_row(i, swarm.n()));
                    }
                }
            }
        },
        Neighborhood::ScaleFree { m, m0 } => {
            swarm.neigh_ba(m, m0, rng);
            proof {
                crate::update::lemma_witness_same_coords(pre_topology, swarm, objective);
                let c = seed_size(m0 as int, swarm.n());
                if c >= 2 && m >= 1 {
                    assert(c * (c - 1) >= 2) by (nonlinear_arith)
                        requires
                            c >= 2,
                    ;
                    assert forall|i: int| 0 <= i < swarm.n() implies (#[trigger] swarm.nbrs(
                        i,
                    )).len() > 0 by {
                        if i < c {
                            assert(swarm.nbrs(i).len() >= c - 1);
                        } else {
                            assert(swarm.nbrs(i).len() >= min_int(m as int, c * (c - 1)));
                        }
                    }
                }
            }
        },
        Neighborhood::Isolated => {},
    }
    let ghost pre_run = swarm;
    match swarm.run(config.n_iter, config.k, single_rule, full_rule, objective) {
        Err(e) => {
            return Err(e);
        },
        Ok(_) => {
            proof {
                if config.neighborhood is Isolated && config.n_iter > 0 {
                    assert(pre_run.nbrs(0).len() == 0);
                    assert(exists|x: int|
                        0 <= x < pre_run.n() && (#[trigger] pre_run.nbrs(x)).len() == 0);
                    assert(false);
                }
            }
        },
    }
    let best = swarm.get_gbest();
    proof {
        assert(scores_witnessed(swarm, objective));
        let w = choose|w: int|
            {
                &&& 0 <= w < swarm.n()
                &&& best.0 == swarm.particles@[w].best_score
                &&& best.1@ == swarm.particles@[w].best_position@
                &&& forall|l: int|
                    0 <= l < swarm.n() ==> #[trigger] swarm.particles@[l].best_score >= best.0
                &&& forall|l: int| 0 <= l < w ==> #[trigger] swarm.particles@[l].best_score > best.0
            };
        assert(witnessed_at(swarm, objective, w));
        let p0 = choose|p: &Vec<u64>|
            p@ == swarm.particles@[w].best_position@ && #[trigger] call_ensures(
                *objective,
                (p,),
                Some(swarm.particles@[w].best_score),
            );
        assert(p0@ == best.1@);
        assert(call_ensures(*objective, (p0,), Some(best.0)));
        assert(witnessed_pair(best, objective));
        assert(initialized(*config, pre_topology, init, objective));
        assert(built_topology(*config, pre_topology, pre_run));
        assert(ran(
            pre_run,
            swarm,
            config.n_iter as int,
            config.k as int,
            single_rule,
            full_rule,
            objective,
        ));
        assert(swarm.is_gbest(best));
    }
    Ok(best)
}

} // verus!
