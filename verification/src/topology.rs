//! Neighbor-topology construction: the full mesh and the
//! preferential-attachment ("scale-free") graph over particle indices.

use vstd::prelude::*;

use rand::rngs::StdRng;
use rand::seq::SliceRandom;

use crate::particle::{Particle, Swarm};

verus! {

/// Relies on rand's `StdRng`: the seedable standard generator, opaque to
/// the engine, which only threads it through to the sampling call.
#[verifier::external_type_specification]
#[verifier::external_body]
pub struct ExStdRng(StdRng);

/// Relies on rand's `SliceRandom::choose_multiple` on a slice: it draws
/// `min(amount, pool.len())` elements at pairwise-distinct positions of the
/// slice, so the drawn elements form a sub-multiset of the pool; which
/// positions are drawn is up to the generator.
#[verifier::external_body]
fn sample_targets(pool: &Vec<usize>, amount: usize, rng: &mut StdRng) -> (r: Vec<usize>)
    ensures
        r@.len() == min_int(amount as int, pool@.len() as int),
        forall|t: int| 0 <= t < r@.len() ==> pool@.contains(#[trigger] r@[t]),
        r@.to_multiset().subset_of(pool@.to_multiset()),
{
    pool.choose_multiple(rng, amount).cloned().collect()
}

/// The smaller of two mathematical integers.
pub open spec fn min_int(a: int, b: int) -> int {
    if a <= b {
        a
    } else {
        b
    }
}

/// The neighbor row of particle `i` in a full mesh over `n` particles:
/// every other index, in increasing order.
pub open spec fn full_mesh_row(i: int, n: int) -> Seq<usize> {
    Seq::new(
        (n - 1) as nat,
        |j: int|
            if j < i {
                j as usize
            } else {
                (j + 1) as usize
            },
    )
}

/// Law: in a full mesh over `n` particles, particle `i`'s row holds exactly
/// `n - 1` pairwise-distinct indices, never `i` itself, and every other
/// index appears in it.
pub proof fn lemma_full_mesh_row(i: int, n: int)
    requires
        0 <= i < n <= usize::MAX,
    ensures
        full_mesh_row(i, n).len() == n - 1,
        forall|a: int|
            0 <= a < n - 1 ==> 0 <= #[trigger] full_mesh_row(i, n)[a] < n && full_mesh_row(i, n)[a]
                != i,
        forall|a: int, b: int|
            0 <= a < b < n - 1 ==> full_mesh_row(i, n)[a] != full_mesh_row(i, n)[b],
        forall|x: usize| #[trigger] full_mesh_row(i, n).contains(x) <==> (x < n && x != i),
        full_mesh_row(i, n).no_duplicates(),
{
    assert forall|x: usize| #[trigger] full_mesh_row(i, n).contains(x) <==> (x < n && x != i) by {
        if x < n && x != i {
            let a: int = if (x as int) < i {
                x as int
            } else {
                x as int - 1
            };
            assert(full_mesh_row(i, n)[a] == x);
        }
    }
}

impl Swarm {
    /// The neighbor list of particle `i`.
    pub open spec fn nbrs(self, i: int) -> Seq<usize> {
        self.particles@[i].neighbors@
    }

    /// Whether particle `a`'s neighbor list mentions index `b`.
    pub open spec fn edge(self, a: int, b: usize) -> bool {
        self.nbrs(a).contains(b)
    }

    /// `other` is `self` with, at most, different neighbor lists: the same
    /// size and dimension, and every coordinate vector and best score
    /// unchanged.
    pub open spec fn same_coords(self, other: Swarm) -> bool {
        &&& self.dim == other.dim
        &&& self.n() == other.n()
        &&& forall|i: int|
            0 <= i < self.n() ==> {
                &&& (#[trigger] self.particles@[i]).position@ == other.particles@[i].position@
                &&& self.particles@[i].velocity@ == other.particles@[i].velocity@
                &&& self.particles@[i].best_position@ == other.particles@[i].best_position@
                &&& self.particles@[i].best_score == other.particles@[i].best_score
            }
    }

    /// All neighbor lists are still empty, as right after initialization.
    pub open spec fn no_edges(self) -> bool {
        forall|i: int| 0 <= i < self.n() ==> (#[trigger] self.nbrs(i)).len() == 0
    }

    /// Connect every particle to every other particle: afterwards particle
    /// `i`'s neighbor list is exactly every other index in increasing
    /// order, hence `n - 1` distinct neighbors and no self-loop.
    pub fn neigh_full(&mut self)
        requires
            old(self).wf(),
            old(self).no_edges(),
        ensures
            final(self).wf(),
            old(self).same_coords(*final(self)),
            forall|i: int|
                0 <= i < final(self).n() ==> #[trigger] final(self).nbrs(i) == full_mesh_row(
                    i,
                    final(self).n(),
                ),
    {
        let n: usize = self.particles.len();
        let mut i: usize = 0;
        while i < n
            invariant
                self.wf(),
                n == self.n(),
                old(self).same_coords(*self),
                forall|t: int| 0 <= t < i ==> #[trigger] self.nbrs(t) == full_mesh_row(t, n as int),
                forall|t: int| i <= t < n ==> (#[trigger] self.nbrs(t)).len() == 0,
            decreases n - i,
        {
            let mut row: Vec<usize> = Vec::new();
            let mut j: usize = 0;
            while j < n
                invariant
                    i < n <= usize::MAX,
                    j <= n,
                    row@.len() == if j <= i {
                        j as int
                    } else {
                        j - 1
                    },
                    forall|t: int|
                        0 <= t < row@.len() ==> #[trigger] row@[t] == full_mesh_row(
                            i as int,
                            n as int,
                        )[t],
                decreases n - j,
            {
                if j != i {
                    row.push(j);
                }
                j += 1;
            }
            assert(row@ =~= full_mesh_row(i as int, n as int));
            let ghost rowv = row@;
            let ghost prev = *self;
            let mut p = self.particles.remove(i);
            p.neighbors = row;
            self.particles.insert(i, p);
            proof {
                assert(self.particles@ =~= prev.particles@.update(
                    i as int,
                    self.particles@[i as int],
                ));
                lemma_full_mesh_row(i as int, n as int);
                assert forall|t: int| 0 <= t < self.n() implies #[trigger] self.particles@[t].wf(
                    self.dim as int,
                    t,
                    self.n(),
                ) by {
                    assert(prev.particles@[t].wf(prev.dim as int, t, prev.n()));
                }
                assert forall|t: int| 0 <= t < i + 1 implies #[trigger] self.nbrs(t)
                    == full_mesh_row(t, n as int) by {
                    if t < i {
                        assert(prev.nbrs(t) == full_mesh_row(t, n as int));
                        assert(self.particles@[t] == prev.particles@[t]);
                    } else {
                        assert(self.nbrs(t) == rowv);
                    }
                }
                assert forall|t: int| i + 1 <= t < n implies (#[trigger] self.nbrs(t)).len()
                    == 0 by {
                    assert(prev.nbrs(t).len() == 0);
                    assert(self.particles@[t] == prev.particles@[t]);
                }
            }
            i += 1;
        }
    }
}

/// Membership in a pushed sequence: the old members plus the new element.
proof fn lemma_push_contains(s: Seq<usize>, e: usize, x: usize)
    ensures
        s.push(e).contains(x) <==> (s.contains(x) || x == e),
{
    assert(s.push(e)[s.len() as int] == e);
    if s.contains(x) {
        let idx = choose|idx: int| 0 <= idx < s.len() && s[idx] == x;
        assert(s.push(e)[idx] == x);
    }
    if s.push(e).contains(x) && x != e {
        let idx = choose|idx: int| 0 <= idx < s.push(e).len() && s.push(e)[idx] == x;
        assert(0 <= idx < s.len());
        assert(s[idx] == x);
    }
}

/// Pushing one element raises its own count by one and no other count.
proof fn lemma_push_count(s: Seq<usize>, e: usize, x: usize)
    ensures
        s.push(e).to_multiset().count(x) == s.to_multiset().count(x) + (if x == e {
            1nat
        } else {
            0nat
        }),
{
    broadcast use vstd::seq_lib::group_to_multiset_ensures;

    assert(s.push(e).to_multiset() =~= s.to_multiset().insert(e));
    if x == e {
        vstd::multiset::lemma_insert_increases_count_by_1(s.to_multiset(), e);
    } else {
        vstd::multiset::lemma_insert_other_elements_unchanged(s.to_multiset(), e, x);
    }
}

/// In a repeat-free sequence every member stands exactly once.
proof fn lemma_count_distinct(s: Seq<usize>, x: usize)
    requires
        s.no_duplicates(),
    ensures
        s.to_multiset().count(x) == if s.contains(x) {
            1nat
        } else {
            0nat
        },
{
    broadcast use vstd::seq_lib::group_to_multiset_ensures;

    s.lemma_multiset_has_no_duplicates();
}

/// An empty neighbor list mentions nothing.
proof fn lemma_count_empty(s: Seq<usize>, x: usize)
    requires
        s.len() == 0,
    ensures
        s.to_multiset().count(x) == 0,
{
    broadcast use vstd::seq_lib::group_to_multiset_ensures;

    if s.to_multiset().count(x) > 0 {
        assert(s.contains(x));
    }
}

/// Pushing one element leaves every prefix of the sequence unchanged.
proof fn lemma_push_subrange(s: Seq<usize>, e: usize, k: int)
    requires
        0 <= k <= s.len(),
    ensures
        s.push(e).subrange(0, k) == s.subrange(0, k),
{
    assert(s.push(e).subrange(0, k) =~= s.subrange(0, k));
}

/// The sum of the neighbor-list lengths of the first `upto` particles:
/// the number of directed edge entries recorded so far.
pub open spec fn entry_total(s: Seq<Particle>, upto: int) -> int
    decreases upto,
{
    if upto <= 0 {
        0
    } else {
        entry_total(s, upto - 1) + s[upto - 1].neighbors@.len()
    }
}

/// Changing one particle's neighbor list moves the total by exactly the
/// change in that list's length.
proof fn lemma_entry_total_update(s: Seq<Particle>, t: Seq<Particle>, j: int, upto: int)
    requires
        t.len() == s.len(),
        0 <= j < s.len(),
        forall|x: int| 0 <= x < s.len() && x != j ==> t[x] == s[x],
        0 <= upto <= s.len(),
    ensures
        entry_total(t, upto) == entry_total(s, upto) + if j < upto {
            t[j].neighbors@.len() - s[j].neighbors@.len()
        } else {
            0
        },
    decreases upto,
{
    if upto > 0 {
        lemma_entry_total_update(s, t, j, upto - 1);
    }
}

/// With every neighbor list empty the total is zero.
proof fn lemma_entry_total_zero(s: Seq<Particle>, upto: int)
    requires
        0 <= upto <= s.len(),
        forall|x: int| 0 <= x < s.len() ==> (#[trigger] s[x]).neighbors@.len() == 0,
    ensures
        entry_total(s, upto) == 0,
    decreases upto,
{
    if upto > 0 {
        lemma_entry_total_zero(s, upto - 1);
    }
}

/// The seed-clique size once clamped to the swarm size.
pub open spec fn seed_size(m0: int, n: int) -> int {
    min_int(m0, n)
}

impl Swarm {
    /// How often `a`'s neighbor list mentions index `b`.
    pub open spec fn edge_count(self, a: int, b: usize) -> nat {
        self.particles@[a].neighbors@.to_multiset().count(b)
    }

    /// Neighbor lists mention each other with equal multiplicity: `a`
    /// lists `b` exactly as often as `b` lists `a`, duplicated edges from
    /// repeated sampling included.
    pub open spec fn sym_edge_counts(self) -> bool {
        forall|a: usize, b: usize|
            a < self.n() && b < self.n() ==> #[trigger] self.edge_count(a as int, b)
                == self.edge_count(b as int, a)
    }

    /// Neighbor lists mention each other symmetrically: `a` lists `b`
    /// exactly when `b` lists `a`.
    pub open spec fn sym_edges(self) -> bool {
        forall|a: usize, b: usize|
            a < self.n() && b < self.n() ==> (#[trigger] self.edge(a as int, b) <==> self.edge(
                b as int,
                a,
            ))
    }

    /// Build a preferential-attachment ("scale-free") topology: a complete
    /// clique over the first `min(m0, n)` particles, then, for each later
    /// particle in index order, `m` targets sampled from a pool that holds
    /// every index once per edge end it already participates in, so
    /// better-connected particles are drawn more often. Each sampled edge
    /// is recorded in both directions and enlarges the pool at both ends.
    /// Duplicate targets of one draw stay duplicated in the neighbor list.
    pub fn neigh_ba(&mut self, m: usize, m0: usize, rng: &mut StdRng)
        requires
            old(self).wf(),
            old(self).no_edges(),
        ensures
            final(self).wf(),
            old(self).same_coords(*final(self)),
            final(self).sym_edges(),
            final(self).sym_edge_counts(),
            m as int <= seed_size(m0 as int, final(self).n()) * (seed_size(
                m0 as int,
                final(self).n(),
            ) - 1) ==> entry_total(final(self).particles@, final(self).n()) == seed_size(
                m0 as int,
                final(self).n(),
            ) * (seed_size(m0 as int, final(self).n()) - 1) + 2 * (m as int) * (final(self).n()
                - seed_size(m0 as int, final(self).n())),
            forall|a: int, b: usize|
                0 <= a < seed_size(m0 as int, final(self).n()) && b < seed_size(
                    m0 as int,
                    final(self).n(),
                ) && b as int != a ==> #[trigger] final(self).edge(a, b),
            forall|a: int|
                0 <= a < seed_size(m0 as int, final(self).n()) ==> (#[trigger] final(self).nbrs(
                    a,
                )).len() >= seed_size(m0 as int, final(self).n()) - 1,
            forall|a: int|
                0 <= a < seed_size(m0 as int, final(self).n()) ==> (#[trigger] final(self).nbrs(
                    a,
                )).subrange(0, seed_size(m0 as int, final(self).n()) - 1) == full_mesh_row(
                    a,
                    seed_size(m0 as int, final(self).n()),
                ),
            forall|a: int, t: int|
                0 <= a < seed_size(m0 as int, final(self).n()) && seed_size(
                    m0 as int,
                    final(self).n(),
                ) - 1 <= t < final(self).nbrs(a).len() ==> #[trigger] final(self).nbrs(a)[t]
                    >= seed_size(m0 as int, final(self).n()),
            forall|a: int|
                seed_size(m0 as int, final(self).n()) <= a < final(self).n() ==> (
                #[trigger] final(self).nbrs(a)).len() >= min_int(
                    m as int,
                    seed_size(m0 as int, final(self).n()) * (seed_size(
                        m0 as int,
                        final(self).n(),
                    ) - 1),
                ),
    {
        let n: usize = self.particles.len();
        let mut repeated: Vec<usize> = Vec::new();
        let mut m0c: usize = m0;
        if n < m0c {
            m0c = n;
        }
        let ghost c = m0c as int;
        assert(c == seed_size(m0 as int, n as int));
        proof {
            assert forall|x: int| 0 <= x < self.particles@.len() implies (
            #[trigger] self.particles@[x]).neighbors@.len() == 0 by {
                assert(self.nbrs(x).len() == 0);
            }
            lemma_entry_total_zero(self.particles@, n as int);
        }

        // Seed clique over the first m0c particles, recording each directed
        // edge endpoint in the pool.
        let mut i: usize = 0;
        while i < m0c
            invariant
                self.wf(),
                n == self.n(),
                m0c <= n,
                c == m0c as int,
                i <= m0c,
                old(self).same_coords(*self),
                forall|t: int| 0 <= t < i ==> #[trigger] self.nbrs(t) == full_mesh_row(t, c),
                forall|t: int| i <= t < n ==> (#[trigger] self.nbrs(t)).len() == 0,
                entry_total(self.particles@, n as int) == i * (c - 1),
                repeated@.len() == i * (c - 1),
                forall|idx: int| 0 <= idx < repeated@.len() ==> #[trigger] repeated@[idx] < m0c,
            decreases m0c - i,
        {
            let ghost len0 = repeated@.len() as int;
            let mut row: Vec<usize> = Vec::new();
            let mut j: usize = 0;
            while j < m0c
                invariant
                    i < m0c <= n <= usize::MAX,
                    j <= m0c,
                    c == m0c as int,
                    row@.len() == if j <= i {
                        j as int
                    } else {
                        j - 1
                    },
                    forall|t: int|
                        0 <= t < row@.len() ==> #[trigger] row@[t] == full_mesh_row(i as int, c)[t],
                    repeated@.len() == len0 + row@.len(),
                    forall|idx: int| 0 <= idx < repeated@.len() ==> #[trigger] repeated@[idx] < m0c,
                decreases m0c - j,
            {
                if j != i {
                    row.push(j);
                    repeated.push(j);
                }
                j += 1;
            }
            assert(row@ =~= full_mesh_row(i as int, c));
            let ghost rowv = row@;
            let ghost prev = *self;
            let mut p = self.particles.remove(i);
            p.neighbors = row;
            self.particles.insert(i, p);
            proof {
                assert(self.particles@ =~= prev.particles@.update(
                    i as int,
                    self.particles@[i as int],
                ));
                lemma_full_mesh_row(i as int, c);
                assert forall|t: int| 0 <= t < self.n() implies #[trigger] self.particles@[t].wf(
                    self.dim as int,
                    t,
                    self.n(),
                ) by {
                    assert(prev.particles@[t].wf(prev.dim as int, t, prev.n()));
                }
                assert forall|t: int| 0 <= t < i + 1 implies #[trigger] self.nbrs(t)
                    == full_mesh_row(t, c) by {
                    if t < i {
                        assert(prev.nbrs(t) == full_mesh_row(t, c));
                        assert(self.particles@[t] == prev.particles@[t]);
                    } else {
                        assert(self.nbrs(t) == rowv);
                    }
                }
                assert forall|t: int| i + 1 <= t < n implies (#[trigger] self.nbrs(t)).len()
                    == 0 by {
                    assert(prev.nbrs(t).len() == 0);
                    assert(self.particles@[t] == prev.particles@[t]);
                }
                assert forall|x: int|
                    0 <= x < prev.particles@.len() && x != i implies self.particles@[x]
                    == prev.particles@[x] by {}
                assert(prev.nbrs(i as int).len() == 0);
                assert(self.nbrs(i as int).len() == c - 1);
                lemma_entry_total_update(prev.particles@, self.particles@, i as int, n as int);
                assert((i + 1) * (c - 1) == i * (c - 1) + (c - 1)) by (nonlinear_arith);
            }
            i += 1;
        }

        proof {
            assert forall|a: usize, b: usize| a < n && b < n implies (#[trigger] self.edge(
                a as int,
                b,
            ) <==> self.edge(b as int, a)) by {
                if (a as int) < c {
                    lemma_full_mesh_row(a as int, c);
                }
                if (b as int) < c {
                    lemma_full_mesh_row(b as int, c);
                }
            }
            assert forall|a: int, b: usize| 0 <= a < c && b < c && b as int != a implies
                #[trigger] self.edge(a, b) by {
                lemma_full_mesh_row(a, c);
            }
            assert forall|a: usize, b: usize| a < n && b < n implies #[trigger] self.edge_count(
                a as int,
                b,
            ) == self.edge_count(b as int, a) by {
                if (a as int) < c {
                    lemma_full_mesh_row(a as int, c);
                    assert(self.nbrs(a as int) == full_mesh_row(a as int, c));
                    lemma_count_distinct(self.nbrs(a as int), b);
                } else {
                    lemma_count_empty(self.nbrs(a as int), b);
                }
                if (b as int) < c {
                    lemma_full_mesh_row(b as int, c);
                    assert(self.nbrs(b as int) == full_mesh_row(b as int, c));
                    lemma_count_distinct(self.nbrs(b as int), a);
                } else {
                    lemma_count_empty(self.nbrs(b as int), a);
                }
            }
            assert forall|a: int| 0 <= a < c implies (#[trigger] self.nbrs(a)).len() >= c - 1 by {
                assert(self.nbrs(a) == full_mesh_row(a, c));
            }
            assert forall|a: int| 0 <= a < c implies (#[trigger] self.nbrs(a)).subrange(0, c - 1)
                == full_mesh_row(a, c) by {
                assert(self.nbrs(a) == full_mesh_row(a, c));
                assert(self.nbrs(a).subrange(0, c - 1) =~= full_mesh_row(a, c));
            }
        }

        // Attachment phase: each later particle samples m targets from the
        // pool, degree-proportionally, and links both ways.
        let mut i: usize = m0c;
        while i < n
            invariant
                self.wf(),
                n == self.n(),
                m0c <= i <= n,
                c == m0c as int,
                old(self).same_coords(*self),
                self.sym_edges(),
                self.sym_edge_counts(),
                forall|a: int, b: usize|
                    0 <= a < c && b < c && b as int != a ==> #[trigger] self.edge(a, b),
                forall|a: int| 0 <= a < c ==> (#[trigger] self.nbrs(a)).len() >= c - 1,
                forall|a: int|
                    0 <= a < c ==> (#[trigger] self.nbrs(a)).subrange(0, c - 1) == full_mesh_row(
                        a,
                        c,
                    ),
                forall|a: int, t: int|
                    0 <= a < c && c - 1 <= t < self.nbrs(a).len() ==> #[trigger] self.nbrs(a)[t]
                        >= c,
                forall|a: int|
                    c <= a < i ==> (#[trigger] self.nbrs(a)).len() >= min_int(
                        m as int,
                        c * (c - 1),
                    ),
                forall|t: int| i <= t < n ==> (#[trigger] self.nbrs(t)).len() == 0,
                forall|idx: int| 0 <= idx < repeated@.len() ==> #[trigger] repeated@[idx] < i,
                repeated@.len() >= c * (c - 1),
                m as int <= c * (c - 1) ==> entry_total(self.particles@, n as int) == c * (c - 1)
                    + 2 * (m as int) * (i - c),
            decreases n - i,
        {
            let ghost pool0 = repeated@;
            let choice = sample_targets(&repeated, m, rng);
            proof {
                assert forall|t: int| 0 <= t < choice@.len() implies #[trigger] choice@[t] < i by {
                    assert(pool0.contains(choice@[t]));
                    let idx = choose|idx: int| 0 <= idx < pool0.len() && pool0[idx] == choice@[t];
                    assert(pool0[idx] < i);
                }
            }
            let n_choice: usize = choice.len();
            let mut s: usize = 0;
            while s < n_choice
                invariant
                    self.wf(),
                    n == self.n(),
                    m0c <= i < n,
                    c == m0c as int,
                    s <= n_choice,
                    n_choice == choice@.len(),
                    forall|t: int| 0 <= t < choice@.len() ==> #[trigger] choice@[t] < i,
                    old(self).same_coords(*self),
                    self.sym_edges(),
                    self.sym_edge_counts(),
                    forall|a: int, b: usize|
                        0 <= a < c && b < c && b as int != a ==> #[trigger] self.edge(a, b),
                    forall|a: int| 0 <= a < c ==> (#[trigger] self.nbrs(a)).len() >= c - 1,
                    forall|a: int|
                        0 <= a < c ==> (#[trigger] self.nbrs(a)).subrange(0, c - 1)
                            == full_mesh_row(a, c),
                    forall|a: int, t: int|
                        0 <= a < c && c - 1 <= t < self.nbrs(a).len() ==> #[trigger] self.nbrs(
                            a,
                        )[t] >= c,
                    forall|a: int|
                        c <= a < i ==> (#[trigger] self.nbrs(a)).len() >= min_int(
                            m as int,
                            c * (c - 1),
                        ),
                    self.nbrs(i as int).len() == s,
                    forall|t: int| i < t < n ==> (#[trigger] self.nbrs(t)).len() == 0,
                    forall|idx: int| 0 <= idx < repeated@.len() ==> #[trigger] repeated@[idx] <= i,
                    repeated@.len() >= c * (c - 1),
                    m as int <= c * (c - 1) ==> entry_total(self.particles@, n as int) == c * (c
                        - 1) + 2 * (m as int) * (i - c) + 2 * (s as int),
                decreases n_choice - s,
            {
                let sample: usize = choice[s];
                let ghost prev = *self;
                let mut p = self.particles.remove(i);
                p.neighbors.push(sample);
                self.particles.insert(i, p);
                proof {
                    assert(self.particles@ =~= prev.particles@.update(
                        i as int,
                        self.particles@[i as int],
                    ));
                }
                let ghost mid = *self;
                let mut q = self.particles.remove(sample);
                q.neighbors.push(i);
                self.particles.insert(sample, q);
                repeated.push(i);
                repeated.push(sample);
                proof {
                    assert(self.particles@ =~= mid.particles@.update(
                        sample as int,
                        self.particles@[sample as int],
                    ));
                    assert(self.nbrs(i as int) == prev.nbrs(i as int).push(sample));
                    assert(self.nbrs(sample as int) == prev.nbrs(sample as int).push(i));
                    assert forall|t: int|
                        0 <= t < n && t != i && t != sample implies #[trigger] self.particles@[t]
                        == prev.particles@[t] by {}
                    assert forall|t: int| 0 <= t < self.n() implies
                        #[trigger] self.particles@[t].wf(self.dim as int, t, self.n()) by {
                        assert(prev.particles@[t].wf(prev.dim as int, t, prev.n()));
                        if t == i {
                            lemma_push_contains_all(prev.nbrs(i as int), sample);
                        } else if t == sample {
                            lemma_push_contains_all(prev.nbrs(sample as int), i);
                        }
                    }
                    assert forall|a: usize, b: usize| a < n && b < n implies (#[trigger] self.edge(
                        a as int,
                        b,
                    ) <==> self.edge(b as int, a)) by {
                        lemma_push_contains(prev.nbrs(i as int), sample, b);
                        lemma_push_contains(prev.nbrs(sample as int), i, b);
                        lemma_push_contains(prev.nbrs(i as int), sample, a);
                        lemma_push_contains(prev.nbrs(sample as int), i, a);
                        assert(prev.edge(a as int, b) <==> prev.edge(b as int, a));
                    }
                    assert forall|a: usize, b: usize| a < n && b < n implies
                        #[trigger] self.edge_count(a as int, b) == self.edge_count(b as int, a) by {
                        lemma_push_count(prev.nbrs(i as int), sample, b);
                        lemma_push_count(prev.nbrs(sample as int), i, b);
                        lemma_push_count(prev.nbrs(i as int), sample, a);
                        lemma_push_count(prev.nbrs(sample as int), i, a);
                        assert(prev.edge_count(a as int, b) == prev.edge_count(b as int, a));
                        if a as int != i as int && a != sample {
                            assert(self.particles@[a as int] == prev.particles@[a as int]);
                        }
                        if b as int != i as int && b != sample {
                            assert(self.particles@[b as int] == prev.particles@[b as int]);
                        }
                    }
                    assert forall|a: int, b: usize|
                        0 <= a < c && b < c && b as int != a implies #[trigger] self.edge(
                        a,
                        b,
                    ) by {
                        assert(prev.edge(a, b));
                        if a == i as int {
                            lemma_push_contains(prev.nbrs(i as int), sample, b);
                        } else if a == sample as int {
                            lemma_push_contains(prev.nbrs(sample as int), i, b);
                        }
                    }
                    assert forall|a: int| 0 <= a < c implies (#[trigger] self.nbrs(a)).len() >= c
                        - 1 by {
                        assert(prev.nbrs(a).len() >= c - 1);
                    }
                    assert forall|a: int| 0 <= a < c implies (#[trigger] self.nbrs(a)).subrange(
                        0,
                        c - 1,
                    ) == full_mesh_row(a, c) by {
                        assert(prev.nbrs(a).subrange(0, c - 1) == full_mesh_row(a, c));
                        assert(prev.nbrs(a).len() >= c - 1);
                        if a == sample as int {
                            assert(self.nbrs(a) == prev.nbrs(a).push(i));
                            lemma_push_subrange(prev.nbrs(a), i, c - 1);
                        } else {
                            assert(self.particles@[a] == prev.particles@[a]);
                        }
                    }
                    assert forall|a: int, t: int|
                        0 <= a < c && c - 1 <= t < self.nbrs(a).len() implies #[trigger] self.nbrs(
                        a,
                    )[t] >= c by {
                        if a == sample as int {
                            assert(self.nbrs(a) == prev.nbrs(a).push(i));
                            if t < prev.nbrs(a).len() {
                                assert(prev.nbrs(a)[t] >= c);
                            } else {
                                assert(self.nbrs(a)[t] == i);
                            }
                        } else {
                            assert(self.particles@[a] == prev.particles@[a]);
                            assert(prev.nbrs(a)[t] >= c);
                        }
                    }
                    assert forall|a: int| c <= a < i implies (#[trigger] self.nbrs(a)).len()
                        >= min_int(m as int, c * (c - 1)) by {
                        assert(prev.nbrs(a).len() >= min_int(m as int, c * (c - 1)));
                    }
                    assert forall|t: int| i < t < n implies (#[trigger] self.nbrs(t)).len()
                        == 0 by {
                        assert(prev.nbrs(t).len() == 0);
                    }
                    if m as int <= c * (c - 1) {
                        lemma_entry_total_update(prev.particles@, mid.particles@, i as int, n as int);
                        lemma_entry_total_update(
                            mid.particles@,
                            self.particles@,
                            sample as int,
                            n as int,
                        );
                    }
                }
                s += 1;
            }
            proof {
                assert(self.nbrs(i as int).len() == n_choice);
                assert(n_choice == min_int(m as int, pool0.len() as int));
                assert(pool0.len() >= c * (c - 1));
                if m as int <= c * (c - 1) {
                    assert(n_choice == m);
                    assert(2 * (m as int) * (i + 1 - c) == 2 * (m as int) * (i - c) + 2 * (
                    m as int)) by (nonlinear_arith);
                }
            }
            i += 1;
        }
    }
}

/// Pushing one element keeps every older element in the sequence.
proof fn lemma_push_contains_all(s: Seq<usize>, e: usize)
    ensures
        forall|t: int| 0 <= t < s.push(e).len() ==> #[trigger] s.push(e)[t] == if t < s.len() {
            s[t]
        } else {
            e
        },
{
}

} // verus!

