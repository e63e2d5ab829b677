//! Tests of the two topology builders.

use rand::rngs::StdRng;
use rand::SeedableRng;
use sipso::particle::Swarm;
use sipso::runner::initialize_particles;

/// A swarm of `n` particles at the origin of a 2-dimensional space, with
/// empty neighbor lists.
fn fresh_swarm(n: usize) -> Swarm {
    let init = |_i: usize| -> (Vec<u64>, Vec<u64>) {
        (
            vec![0.0f64.to_bits(), 0.0f64.to_bits()],
            vec![0.0f64.to_bits(), 0.0f64.to_bits()],
        )
    };
    let objective = |_pos: &Vec<u64>| -> Option<u64> { Some(0) };
    initialize_particles(n, 2, &init, &objective).unwrap()
}

fn count(list: &Vec<usize>, x: usize) -> usize {
    list.iter().filter(|v| **v == x).count()
}

#[test]
fn full_mesh_has_all_others_once() {
    let n = 7;
    let mut s = fresh_swarm(n);
    s.neigh_full();
    for i in 0..n {
        let nbrs = &s.particles[i].neighbors;
        // exactly n - 1 neighbors, none the particle's own index
        assert_eq!(nbrs.len(), n - 1);
        assert_eq!(count(nbrs, i), 0);
        // pairwise distinct: every other index appears exactly once
        for j in 0..n {
            if j != i {
                assert_eq!(count(nbrs, j), 1);
            }
        }
    }
}

#[test]
fn preferential_attachment_seed_clique_and_edges() {
    let n = 10;
    let m = 2;
    let m0 = 4;
    let mut s = fresh_swarm(n);
    let mut rng = StdRng::seed_from_u64(42);
    s.neigh_ba(m, m0, &mut rng);

    // the first m0 particles form a clique
    for i in 0..m0 {
        for j in 0..m0 {
            if i != j {
                assert!(count(&s.particles[i].neighbors, j) >= 1);
            }
        }
    }
    // no self-loops anywhere, and all indices valid
    for i in 0..n {
        assert_eq!(count(&s.particles[i].neighbors, i), 0);
        for v in &s.particles[i].neighbors {
            assert!(*v < n);
        }
    }
    // every later particle gains at least m symmetric edges
    for i in m0..n {
        assert!(s.particles[i].neighbors.len() >= m);
    }
    // edge symmetry, with multiplicity: i lists j as often as j lists i
    for i in 0..n {
        for j in 0..n {
            assert_eq!(
                count(&s.particles[i].neighbors, j),
                count(&s.particles[j].neighbors, i)
            );
        }
    }
    // each attachment step samples exactly m targets, so the directed
    // entry count over the whole swarm is fixed
    let total: usize = (0..n).map(|i| s.particles[i].neighbors.len()).sum();
    assert_eq!(total, m0 * (m0 - 1) + 2 * m * (n - m0));
}

#[test]
fn preferential_attachment_clamps_seed_to_swarm() {
    // with n below m0 the topology degenerates to the full clique
    let n = 3;
    let mut s = fresh_swarm(n);
    let mut rng = StdRng::seed_from_u64(7);
    s.neigh_ba(2, 10, &mut rng);
    for i in 0..n {
        assert_eq!(s.particles[i].neighbors.len(), n - 1);
        for j in 0..n {
            if j != i {
                assert_eq!(count(&s.particles[i].neighbors, j), 1);
            }
        }
    }
}

#[test]
fn topology_moves_no_particle() {
    let n = 6;
    let mut s = fresh_swarm(n);
    let before: Vec<(Vec<u64>, Vec<u64>, Vec<u64>, u64)> = (0..n)
        .map(|i| {
            (
                s.particles[i].position.clone(),
                s.particles[i].velocity.clone(),
                s.particles[i].best_position.clone(),
                s.particles[i].best_score,
            )
        })
        .collect();
    let mut rng = StdRng::seed_from_u64(1);
    s.neigh_ba(2, 4, &mut rng);
    for i in 0..n {
        assert_eq!(s.particles[i].position, before[i].0);
        assert_eq!(s.particles[i].velocity, before[i].1);
        assert_eq!(s.particles[i].best_position, before[i].2);
        assert_eq!(s.particles[i].best_score, before[i].3);
    }
}
