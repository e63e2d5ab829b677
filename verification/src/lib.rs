//! A particle swarm optimization engine over an abstract numeric domain.
//!
//! The engine minimizes an objective supplied by the caller. Scores and
//! coordinates travel through the engine as 64-bit words: coordinates are
//! opaque payloads the engine never interprets, and scores are keys that it
//! orders by plain integer comparison. A caller embeds its numeric domain
//! through an order-preserving encoding (for IEEE doubles, the usual
//! sign-folded bit pattern) and supplies the arithmetic of the two move
//! rules and of the objective as callbacks.
//!
//! What the engine itself decides is verified: neighbor-topology
//! construction (full mesh and preferential attachment), best-neighbor and
//! global-best selection, the strict-improvement personal-best rule, the
//! degree-threshold dispatch between the two move rules, and the sweep
//! driver.

use vstd::prelude::*;

pub mod particle;
pub mod topology;
pub mod tracker;
pub mod update;
pub mod runner;

verus! {

/// The faults the engine reports: configuration faults are found before any
/// sweep runs, the other two arise while a sweep is running.
#[derive(Clone, Copy, Debug, PartialEq, Eq, Structural)]
pub enum Error {
    /// The swarm size was zero.
    NoParticles,
    /// The search space had zero dimensions.
    NoDimensions,
    /// Preferential attachment was asked to add at least as many edges per
    /// particle as the seed clique has members.
    BadAttachment,
    /// A move rule was invoked on a particle with an empty neighbor set.
    NoNeighbors,
    /// The objective declined to score a position (a value outside the
    /// ordered key domain, such as a non-finite number).
    NonFiniteObjective,
}

/// Which influence graph to build over the particle indices.
#[derive(Clone, Copy, Debug, PartialEq, Eq, Structural)]
pub enum Neighborhood {
    /// Every particle is a neighbor of every other particle.
    Full,
    /// Preferential attachment: a seed clique of `m0` particles, then `m`
    /// sampled edges for each later particle.
    ScaleFree { m: usize, m0: usize },
    /// No edges at all; valid only while no move rule runs.
    Isolated,
}

/// Everything that fixes a run besides the numeric callbacks.
#[derive(Clone, Copy, Debug, PartialEq, Eq, Structural)]
pub struct Config {
    /// Number of sweeps over the swarm.
    pub n_iter: usize,
    /// Number of particles.
    pub n_particles: usize,
    /// Number of coordinates per position.
    pub dim: usize,
    /// The influence graph to build.
    pub neighborhood: Neighborhood,
    /// Degree threshold: a particle with more than `k` neighbors moves by
    /// the fully informed rule, otherwise by the single-best-neighbor rule.
    pub k: usize,
}

impl Config {
    /// The first configuration fault, in the order the checks run, if any.
    pub open spec fn fault(self) -> Option<Error> {
        if self.n_particles == 0 {
            Some(Error::NoParticles)
        } else if self.dim == 0 {
            Some(Error::NoDimensions)
        } else if match self.neighborhood {
            Neighborhood::ScaleFree { m, m0 } => m >= m0,
            _ => false,
        } {
            Some(Error::BadAttachment)
        } else {
            None
        }
    }

    pub open spec fn valid(self) -> bool {
        self.fault() is None
    }

    /// Fail fast on a bad configuration, before any particle exists.
    pub fn check(&self) -> (r: Result<(), Error>)
        ensures
            r == match self.fault() {
                Some(e) => Result::<(), Error>::Err(e),
                None => Result::<(), Error>::Ok(()),
            },
            r is Ok <==> self.valid(),
    {
        if self.n_particles == 0 {
            return Err(Error::NoParticles);
        }
        if self.dim == 0 {
            return Err(Error::NoDimensions);
        }
        if let Neighborhood::ScaleFree { m, m0 } = self.neighborhood {
            if m >= m0 {
                return Err(Error::BadAttachment);
            }
        }
        Ok(())
    }
}

} // verus!
