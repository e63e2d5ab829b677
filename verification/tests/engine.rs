//! Tests of the tracker, the strict-improvement rule, the dispatch
//! threshold, and the configuration checks.

use sipso::particle::Swarm;
use sipso::runner::initialize_particles;
use sipso::update::uses_fully_informed;
use sipso::{Config, Error, Neighborhood};

/// Order-preserving embedding of a finite double into the u64 keys.
fn key_of(x: f64) -> u64 {
    let b = x.to_bits();
    if b & 0x8000_0000_0000_0000 != 0 {
        !b
    } else {
        b | 0x8000_0000_0000_0000
    }
}

/// Inverse of `key_of`.
fn val_of(k: u64) -> f64 {
    let b = if k & 0x8000_0000_0000_0000 != 0 {
        k & !0x8000_0000_0000_0000
    } else {
        !k
    };
    f64::from_bits(b)
}

/// A swarm whose particle `i` starts at position `(scores[i], 0.0)` under
/// an objective that scores a position by its first coordinate.
fn swarm_of_scores(scores: &[f64]) -> Swarm {
    let owned: Vec<f64> = scores.to_vec();
    let init = move |i: usize| -> (Vec<u64>, Vec<u64>) {
        (
            vec![owned[i].to_bits(), 0.0f64.to_bits()],
            vec![0.0f64.to_bits(), 0.0f64.to_bits()],
        )
    };
    let objective = |pos: &Vec<u64>| -> Option<u64> {
        let x = f64::from_bits(pos[0]);
        if x.is_finite() {
            Some(key_of(x))
        } else {
            None
        }
    };
    initialize_particles(scores.len(), 2, &init, &objective).unwrap()
}

#[test]
fn key_embedding_orders_doubles() {
    let xs = [-1.0e9, -5.12, 0.0, 1.0e-9, 2.05, 7.25e8];
    for a in 0..xs.len() {
        for b in 0..xs.len() {
            assert_eq!(xs[a] < xs[b], key_of(xs[a]) < key_of(xs[b]));
        }
        assert_eq!(val_of(key_of(xs[a])), xs[a]);
    }
}

#[test]
fn gbest_is_min_over_best_scores() {
    let s = swarm_of_scores(&[4.0, -2.5, 7.0, -2.0, 0.0]);
    let (score, pos) = s.get_gbest();
    assert_eq!(score, key_of(-2.5));
    assert_eq!(f64::from_bits(pos[0]), -2.5);
}

#[test]
fn gbest_ties_go_to_first_index() {
    let s = swarm_of_scores(&[3.0, 1.0, 1.0, 5.0]);
    let (score, pos) = s.get_gbest();
    assert_eq!(score, key_of(1.0));
    // both particle 1 and 2 attain the minimum; the scan keeps particle 1
    assert_eq!(pos, s.particles[1].best_position);
    assert_eq!(f64::from_bits(pos[0]), 1.0);
}

#[test]
fn best_neighbor_first_occurrence_wins() {
    let mut s = swarm_of_scores(&[9.0, 2.0, 2.0, 4.0]);
    s.neigh_full();
    // neighbors of particle 0 are [1, 2, 3]; 1 and 2 tie at 2.0
    let nb = s.get_best_neighbor(0);
    assert_eq!(nb, s.particles[1].best_position);
}

#[test]
fn update_best_strict_improvement_only() {
    let mut s = swarm_of_scores(&[5.0]);
    let before = s.particles[0].best_position.clone();
    // a tie must not move the personal best
    s.update_best(0, key_of(5.0));
    assert_eq!(s.particles[0].best_score, key_of(5.0));
    assert_eq!(s.particles[0].best_position, before);
    // a worse score must not either
    s.update_best(0, key_of(6.0));
    assert_eq!(s.particles[0].best_score, key_of(5.0));
    // a strictly better score overwrites score and position
    s.update_best(0, key_of(4.0));
    assert_eq!(s.particles[0].best_score, key_of(4.0));
    assert_eq!(s.particles[0].best_position, s.particles[0].position);
}

#[test]
fn dispatch_is_strictly_degree_over_k() {
    assert!(uses_fully_informed(1, 0));
    assert!(uses_fully_informed(5, 0));
    assert!(!uses_fully_informed(0, 0));
    // the boundary: degree equal to k picks the single-best rule
    assert!(!uses_fully_informed(3, 3));
    assert!(uses_fully_informed(4, 3));
    // a full mesh of n = 6 gives degree 5; k >= n - 1 never fully informs
    assert!(!uses_fully_informed(5, 5));
    assert!(!uses_fully_informed(5, 50));
}

#[test]
fn config_rejects_zero_particles() {
    let c = Config {
        n_iter: 1,
        n_particles: 0,
        dim: 2,
        neighborhood: Neighborhood::Full,
        k: 0,
    };
    assert_eq!(c.check(), Err(Error::NoParticles));
}

#[test]
fn config_rejects_zero_dimensions() {
    let c = Config {
        n_iter: 1,
        n_particles: 3,
        dim: 0,
        neighborhood: Neighborhood::Full,
        k: 0,
    };
    assert_eq!(c.check(), Err(Error::NoDimensions));
}

#[test]
fn config_rejects_attachment_count_at_seed_size() {
    let c = Config {
        n_iter: 1,
        n_particles: 10,
        dim: 2,
        neighborhood: Neighborhood::ScaleFree { m: 4, m0: 4 },
        k: 0,
    };
    assert_eq!(c.check(), Err(Error::BadAttachment));
    let fine = Config {
        n_iter: 1,
        n_particles: 10,
        dim: 2,
        neighborhood: Neighborhood::ScaleFree { m: 2, m0: 4 },
        k: 0,
    };
    assert_eq!(fine.check(), Ok(()));
}

#[test]
fn non_finite_objective_is_surfaced() {
    let init = |_i: usize| -> (Vec<u64>, Vec<u64>) {
        (vec![0.0f64.to_bits()], vec![0.0f64.to_bits()])
    };
    let objective = |_pos: &Vec<u64>| -> Option<u64> {
        let nan = f64::NAN;
        if nan.is_finite() {
            Some(key_of(nan))
        } else {
            None
        }
    };
    let r = initialize_particles(3, 1, &init, &objective);
    assert!(r.is_err());
    match r {
        Err(e) => assert_eq!(e, Error::NonFiniteObjective),
        Ok(_) => unreachable!(),
    }
}
