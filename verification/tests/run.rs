//! End-to-end tests: the sweep driver with real floating-point kernels.

use std::cell::RefCell;
use std::rc::Rc;

use rand::rngs::StdRng;
use rand::Rng;
use rand::SeedableRng;
use sipso::runner::run_pso;
use sipso::{Config, Error, Neighborhood};

/// Order-preserving embedding of a finite double into the u64 keys.
fn key_of(x: f64) -> u64 {
    let b = x.to_bits();
    if b & 0x8000_0000_0000_0000 != 0 {
        !b
    } else {
        b | 0x8000_0000_0000_0000
    }
}

/// Inverse of `key_of`.
fn val_of(k: u64) -> f64 {
    let b = if k & 0x8000_0000_0000_0000 != 0 {
        k & !0x8000_0000_0000_0000
    } else {
        !k
    };
    f64::from_bits(b)
}

type Init = Box<dyn Fn(usize) -> (Vec<u64>, Vec<u64>)>;
type SingleRule = Box<dyn Fn(&Vec<u64>, &Vec<u64>, &Vec<u64>, &Vec<u64>) -> (Vec<u64>, Vec<u64>)>;
type FullRule = Box<dyn Fn(&Vec<u64>, &Vec<u64>, &Vec<Vec<u64>>) -> (Vec<u64>, Vec<u64>)>;

/// The uniform initializer of the swarm: position and velocity drawn
/// per dimension within the bounds, position first.
fn make_init(rng: Rc<RefCell<StdRng>>, bounds: Vec<(f64, f64)>) -> Init {
    Box::new(move |_i: usize| {
        let mut r = rng.borrow_mut();
        let mut pos = Vec::new();
        for (lo, hi) in bounds.iter() {
            pos.push(r.gen_range(*lo..*hi).to_bits());
        }
        let mut vel = Vec::new();
        for (lo, hi) in bounds.iter() {
            vel.push(r.gen_range(*lo..*hi).to_bits());
        }
        (pos, vel)
    })
}

/// The single-best-neighbor move: two uniform draws scale the nostalgia
/// and social pulls, then the constriction damps the summed velocity.
fn make_single(rng: Rc<RefCell<StdRng>>, chi: f64, phi1: f64, phi2: f64) -> SingleRule {
    Box::new(move |pos, vel, pbest, gbest| {
        let mut r = rng.borrow_mut();
        let c1: f64 = r.gen::<f64>() * phi1;
        let c2: f64 = r.gen::<f64>() * phi2;
        let mut nv = Vec::new();
        let mut np = Vec::new();
        for d in 0..pos.len() {
            let p = f64::from_bits(pos[d]);
            let v = f64::from_bits(vel[d]);
            let nostalgia = c1 * (f64::from_bits(pbest[d]) - p);
            let social = c2 * (f64::from_bits(gbest[d]) - p);
            let newv = chi * (v + nostalgia + social);
            nv.push(newv.to_bits());
            np.push((p + newv).to_bits());
        }
        (nv, np)
    })
}

/// The fully informed move: one uniform draw per neighbor, the
/// accumulated pull averaged over the degree.
fn make_full(rng: Rc<RefCell<StdRng>>, chi: f64, accel: f64) -> FullRule {
    Box::new(move |pos, vel, nbests| {
        let mut r = rng.borrow_mut();
        let dim = pos.len();
        let degree = nbests.len();
        let mut acc = vec![0.0f64; dim];
        for nb in nbests.iter() {
            let c: f64 = r.gen::<f64>();
            for d in 0..dim {
                acc[d] += accel * c * (f64::from_bits(nb[d]) - f64::from_bits(pos[d]));
            }
        }
        let mut nv = Vec::new();
        let mut np = Vec::new();
        for d in 0..dim {
            let newv = chi * (f64::from_bits(vel[d]) + acc[d] / degree as f64);
            nv.push(newv.to_bits());
            np.push((f64::from_bits(pos[d]) + newv).to_bits());
        }
        (nv, np)
    })
}

/// The sphere objective: the sum of the squared coordinates.
fn sphere(pos: &Vec<u64>) -> Option<u64> {
    let s: f64 = pos.iter().map(|w| {
        let x = f64::from_bits(*w);
        x * x
    }).sum();
    if s.is_finite() {
        Some(key_of(s))
    } else {
        None
    }
}

fn run_sphere(seed: u64, config: &Config, bounds: Vec<(f64, f64)>) -> Result<(u64, Vec<u64>), Error> {
    let rng = Rc::new(RefCell::new(StdRng::seed_from_u64(seed)));
    let init = make_init(rng.clone(), bounds);
    let single = make_single(rng.clone(), 0.7298, 2.05, 2.05);
    let full = make_full(rng.clone(), 0.7298, 2.05 + 2.05);
    let objective = |pos: &Vec<u64>| sphere(pos);
    let mut topo_rng = StdRng::seed_from_u64(seed.wrapping_add(1));
    run_pso(config, &init, &single, &full, &objective, &mut topo_rng)
}

#[test]
fn sphere_full_mesh_converges() {
    let config = Config {
        n_iter: 200,
        n_particles: 20,
        dim: 2,
        neighborhood: Neighborhood::Full,
        k: 50,
    };
    let (score, pos) = run_sphere(3, &config, vec![(-5.0, 5.0), (-5.0, 5.0)]).unwrap();
    let best = val_of(score);
    assert!(best >= 0.0);
    assert!(best < 1e-3, "best score {} not within 1e-3 of 0", best);
    for w in &pos {
        let x = f64::from_bits(*w);
        assert!(x.abs() < 0.1, "coordinate {} not within 0.1 of 0", x);
    }
}

#[test]
fn sphere_fully_informed_converges() {
    // k = 0 dispatches every connected particle to the fully informed rule
    let config = Config {
        n_iter: 200,
        n_particles: 20,
        dim: 2,
        neighborhood: Neighborhood::Full,
        k: 0,
    };
    let (score, _pos) = run_sphere(5, &config, vec![(-5.0, 5.0), (-5.0, 5.0)]).unwrap();
    assert!(val_of(score) < 1e-3);
}

#[test]
fn seeded_runs_are_bit_identical() {
    let config = Config {
        n_iter: 60,
        n_particles: 12,
        dim: 3,
        neighborhood: Neighborhood::ScaleFree { m: 2, m0: 4 },
        k: 2,
    };
    let bounds = vec![(-5.0, 5.0), (-5.0, 5.0), (-5.0, 5.0)];
    let a = run_sphere(11, &config, bounds.clone()).unwrap();
    let b = run_sphere(11, &config, bounds.clone()).unwrap();
    // bit-identical score and position words
    assert_eq!(a.0, b.0);
    assert_eq!(a.1, b.1);
    // a different seed moves the result
    let c = run_sphere(12, &config, bounds).unwrap();
    assert!(a.0 != c.0 || a.1 != c.1);
}

#[test]
fn trajectories_are_reproducible_sweep_by_sweep() {
    let bounds = vec![(-5.0, 5.0), (-5.0, 5.0)];
    let mut snapshots: Vec<Vec<(Vec<u64>, Vec<u64>, Vec<u64>, u64)>> = Vec::new();
    for _round in 0..2 {
        let rng = Rc::new(RefCell::new(StdRng::seed_from_u64(99)));
        let init = make_init(rng.clone(), bounds.clone());
        let single = make_single(rng.clone(), 0.7298, 2.05, 2.05);
        let full = make_full(rng.clone(), 0.7298, 4.10);
        let objective = |pos: &Vec<u64>| sphere(pos);
        let mut swarm = sipso::runner::initialize_particles(8, 2, &init, &objective).unwrap();
        swarm.neigh_full();
        let mut states = Vec::new();
        for _sweep in 0..5 {
            swarm.run_sweep(3, &single, &full, &objective).unwrap();
            for i in 0..8 {
                states.push((
                    swarm.particles[i].position.clone(),
                    swarm.particles[i].velocity.clone(),
                    swarm.particles[i].best_position.clone(),
                    swarm.particles[i].best_score,
                ));
            }
        }
        snapshots.push(states);
    }
    assert_eq!(snapshots[0], snapshots[1]);
}

#[test]
fn best_scores_never_rise_and_shapes_hold() {
    let bounds = vec![(-5.0, 5.0), (-5.0, 5.0)];
    let rng = Rc::new(RefCell::new(StdRng::seed_from_u64(21)));
    let init = make_init(rng.clone(), bounds.clone());
    let single = make_single(rng.clone(), 0.7298, 2.05, 2.05);
    let full = make_full(rng.clone(), 0.7298, 4.10);
    let objective = |pos: &Vec<u64>| sphere(pos);
    let mut swarm = sipso::runner::initialize_particles(10, 2, &init, &objective).unwrap();
    swarm.neigh_full();
    let mut previous: Vec<u64> = (0..10).map(|i| swarm.particles[i].best_score).collect();
    for _sweep in 0..20 {
        swarm.run_sweep(4, &single, &full, &objective).unwrap();
        for i in 0..10 {
            // each particle's best score is non-increasing sweep over sweep
            assert!(swarm.particles[i].best_score <= previous[i]);
            previous[i] = swarm.particles[i].best_score;
            // every coordinate vector keeps the run's dimension
            assert_eq!(swarm.particles[i].position.len(), 2);
            assert_eq!(swarm.particles[i].velocity.len(), 2);
            assert_eq!(swarm.particles[i].best_position.len(), 2);
        }
    }
}

#[test]
fn rules_are_dispatched_by_degree_threshold() {
    // marker kernels tell which rule moved a particle
    let single_marker = 1.0f64;
    let full_marker = 2.0f64;
    let init = |_i: usize| -> (Vec<u64>, Vec<u64>) {
        (
            vec![0.0f64.to_bits()],
            vec![0.0f64.to_bits()],
        )
    };
    let single = move |pos: &Vec<u64>, _v: &Vec<u64>, _p: &Vec<u64>, _g: &Vec<u64>| {
        (vec![single_marker.to_bits()], pos.clone())
    };
    let full = move |pos: &Vec<u64>, _v: &Vec<u64>, _n: &Vec<Vec<u64>>| {
        (vec![full_marker.to_bits()], pos.clone())
    };
    let objective = |_pos: &Vec<u64>| -> Option<u64> { Some(key_of(0.0)) };

    // a full mesh of 4 gives every particle degree 3
    for (k, marker) in [(0usize, full_marker), (2, full_marker), (3, single_marker), (50, single_marker)] {
        let mut swarm = sipso::runner::initialize_particles(4, 1, &init, &objective).unwrap();
        swarm.neigh_full();
        swarm.run_sweep(k, &single, &full, &objective).unwrap();
        for i in 0..4 {
            assert_eq!(f64::from_bits(swarm.particles[i].velocity[0]), marker);
        }
    }
}

#[test]
fn isolated_topology_fails_distinguishably() {
    let config = Config {
        n_iter: 5,
        n_particles: 4,
        dim: 2,
        neighborhood: Neighborhood::Isolated,
        k: 0,
    };
    let r = run_sphere(2, &config, vec![(-1.0, 1.0), (-1.0, 1.0)]);
    assert_eq!(r.unwrap_err(), Error::NoNeighbors);
    // with no sweeps the same topology reports the initial best instead
    let quiet = Config { n_iter: 0, ..config };
    assert!(run_sphere(2, &quiet, vec![(-1.0, 1.0), (-1.0, 1.0)]).is_ok());
}

#[test]
fn nan_objective_fails_distinguishably() {
    let config = Config {
        n_iter: 3,
        n_particles: 3,
        dim: 1,
        neighborhood: Neighborhood::Full,
        k: 0,
    };
    let rng = Rc::new(RefCell::new(StdRng::seed_from_u64(8)));
    let init = make_init(rng.clone(), vec![(-1.0, 1.0)]);
    let single = make_single(rng.clone(), 0.7298, 2.05, 2.05);
    let full = make_full(rng.clone(), 0.7298, 4.10);
    // an objective whose value is NaN everywhere cannot be keyed
    let objective = |pos: &Vec<u64>| -> Option<u64> {
        let x = f64::from_bits(pos[0]) * f64::NAN;
        if x.is_finite() {
            Some(key_of(x))
        } else {
            None
        }
    };
    let mut topo_rng = StdRng::seed_from_u64(9);
    let r = run_pso(&config, &init, &single, &full, &objective, &mut topo_rng);
    assert_eq!(r.unwrap_err(), Error::NonFiniteObjective);
}
