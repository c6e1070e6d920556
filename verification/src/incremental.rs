//! The incremental driver: runs the search for every goal from the start
//! candidate's progress up to a complete superpermutation, feeding each
//! exact distance back into the heuristic and reindexing the frontier
//! before posing the next goal.

use vstd::prelude::*;
use crate::candidate::{perm_count, Candidate};
use crate::heuristic::Heuristic;
use crate::search::{reach, Search};
use crate::util::fact;

verus! {

/// An observer the driver notifies after each solved sub-goal, with the
/// distance found, the goal it belongs to, and read access to the search
/// and the tightened heuristic.
pub trait Milestone {
    fn milestone(
        &mut self,
        distance: usize,
        subgoal: usize,
        search: &Search,
        heuristic: &Heuristic,
    );
}

pub struct Incremental {
    pub heuristic: Heuristic,
    pub search: Search,
}

impl Incremental {
    pub fn new(heuristic: Heuristic, search: Search) -> (r: Incremental)
        ensures
            r.heuristic == heuristic,
            r.search == search,
    {
        Incremental { heuristic, search }
    }

    /// Seeds the search with `candidate`, then finds the exact shortest
    /// additional distance to each successive permutation count up to a
    /// complete superpermutation; each solved goal appends its distance to
    /// the heuristic's history and tightens its bounds before the next
    /// goal is posed.  Returns the distance of the final goal, which is
    /// then the last distance recorded, or `None` when some goal is
    /// unreachable: iteration stops there, with the search's frontier
    /// exhausted, the failed goal's distance unrecorded and the heuristic
    /// left as the last solved goal had it.  Every recorded distance is
    /// realized by an actual chain of expansions from the seeded candidate
    /// to a state showing its own goal's number of permutations.
    pub fn shortest_path<M: Milestone>(
        &mut self,
        candidate: Candidate,
        milestone: &mut M,
    ) -> (r: Option<usize>)
        requires
            old(self).search.inv(),
            old(self).search.open_set.entries().len() == 0,
            old(self).heuristic.inv(),
            old(self).heuristic.lower_bounds@.len() == perm_count(
                candidate@,
                old(self).search.symmetry.symbols as int,
            ) + 2,
            old(self).search.heuristic.lower_bounds@.len()
                == old(self).heuristic.lower_bounds@.len(),
            candidate.inv(),
            candidate.symbols == old(self).search.symmetry.symbols,
            fact(old(self).search.symmetry.symbols as nat) <= usize::MAX,
        ensures
            final(self).search.inv(),
            final(self).search.symmetry == old(self).search.symmetry,
            final(self).search.starts@ == old(self).search.starts@.insert(candidate@),
            final(self).heuristic.starting_perms == old(self).heuristic.starting_perms,
            final(self).heuristic.distances@.len() >= old(self).heuristic.distances@.len(),
            forall|j: int|
                0 <= j < old(self).heuristic.distances@.len()
                    ==> final(self).heuristic.distances@[j] == old(self).heuristic.distances@[j],
            forall|j: int|
                old(self).heuristic.distances@.len() <= j < final(self).heuristic.distances@.len()
                    ==> 1 <= #[trigger] final(self).heuristic.distances@[j] && (exists|
                    s: Set<u32>,
                    c: Set<u32>,
                |
                    #![auto]
                    {
                        &&& final(self).search.starts@.contains(s)
                        &&& reach(
                            final(self).search.symmetry@,
                            final(self).search.symmetry.symbols as int,
                            s,
                            c,
                            final(self).heuristic.distances@[j] as int,
                        )
                        &&& perm_count(c, final(self).search.symmetry.symbols as int) == perm_count(
                            candidate@,
                            final(self).search.symmetry.symbols as int,
                        ) + 1 + (j - old(self).heuristic.distances@.len())
                    }),
            r matches Some(d) ==> {
                &&& final(self).heuristic.distances@.len() == old(self).heuristic.distances@.len()
                    + (fact(final(self).search.symmetry.symbols as nat) - perm_count(
                    candidate@,
                    final(self).search.symmetry.symbols as int,
                ))
                &&& final(self).heuristic.distances@.last() == d
            },
            r is None ==> perm_count(candidate@, old(self).search.symmetry.symbols as int) + 1
                > fact(old(self).search.symmetry.symbols as nat) || {
                &&& final(self).heuristic.distances@.len() - old(self).heuristic.distances@.len()
                    < fact(final(self).search.symmetry.symbols as nat) - perm_count(
                    candidate@,
                    final(self).search.symmetry.symbols as int,
                )
                &&& final(self).search.open_set.entries().len() == 0
            },
            r matches Some(d) ==> 1 <= d && (exists|s: Set<u32>, c: Set<u32>|
                #![auto]
                {
                    &&& final(self).search.starts@.contains(s)
                    &&& reach(
                        final(self).search.symmetry@,
                        final(self).search.symmetry.symbols as int,
                        s,
                        c,
                        d as int,
                    )
                    &&& perm_count(c, final(self).search.symmetry.symbols as int) == fact(
                        final(self).search.symmetry.symbols as nat,
                    )
                }),
    {
        let ghost n = self.search.symmetry.symbols as int;
        let ghost t = self.search.symmetry@;
        let start = candidate.number_of_permutations();
        let finish = Candidate::maximum_permutations(self.search.symmetry.symbols);
        let ghost c_perms = perm_count(candidate@, n);
        let ghost old_dlen = self.heuristic.distances@.len() as int;
        let ghost mut wits: Seq<(Set<u32>, Set<u32>)> = Seq::empty();
        self.search.seed(candidate);
        let mut distance: Option<usize> = None;
        let ghost mut dwit_s: Set<u32> = Set::empty();
        let ghost mut dwit_c: Set<u32> = Set::empty();
        if start >= finish {
            return None;
        }
        let mut subgoal: usize = start + 1;
        while subgoal <= finish
            invariant
                self.search.inv(),
                self.search.symmetry == old(self).search.symmetry,
                self.search.starts@ == old(self).search.starts@.insert(candidate@),
                c_perms == perm_count(candidate@, n),
                n == self.search.symmetry.symbols as int,
                t == self.search.symmetry@,
                finish == fact(n as nat),
                start == c_perms,
                start + 1 <= subgoal <= finish + 1,
                self.heuristic.inv(),
                self.heuristic.starting_perms == old(self).heuristic.starting_perms,
                self.heuristic.lower_bounds@.len() == subgoal + 1,
                self.search.heuristic.lower_bounds@.len()
                    == self.heuristic.lower_bounds@.len(),
                self.search.open_perms_at_most(subgoal - 1),
                old_dlen == old(self).heuristic.distances@.len(),
                self.heuristic.distances@.len() == old_dlen + (subgoal - 1 - start),
                forall|j: int|
                    0 <= j < old_dlen ==> self.heuristic.distances@[j] == old(
                        self,
                    ).heuristic.distances@[j],
                wits.len() == subgoal - 1 - start,
                forall|j: int|
                    0 <= j < wits.len() ==> {
                        &&& self.search.starts@.contains((#[trigger] wits[j]).0)
                        &&& reach(
                            t,
                            n,
                            wits[j].0,
                            wits[j].1,
                            self.heuristic.distances@[old_dlen + j] as int,
                        )
                        &&& perm_count(wits[j].1, n) == c_perms + 1 + j
                        &&& 1 <= self.heuristic.distances@[old_dlen + j]
                    },
                subgoal > start + 1 ==> (distance matches Some(d) && {
                    &&& 1 <= d
                    &&& self.search.starts@.contains(dwit_s)
                    &&& reach(t, n, dwit_s, dwit_c, d as int)
                    &&& perm_count(dwit_c, n) == subgoal - 1
                    &&& self.heuristic.distances@.last() == d
                }),
            decreases finish + 1 - subgoal,
        {
            let found = self.search.shortest_path(subgoal);
            match found {
                None => {
                    proof {
                        assert forall|j: int|
                            old_dlen <= j < self.heuristic.distances@.len() implies 1 <= #[trigger] self.heuristic.distances@[j]
                            && (exists|s: Set<u32>, c: Set<u32>|
                            #![auto]
                            {
                                &&& self.search.starts@.contains(s)
                                &&& reach(t, n, s, c, self.heuristic.distances@[j] as int)
                                &&& perm_count(c, n) == c_perms + 1 + (j - old_dlen)
                            }) by {
                            let w = wits[j - old_dlen];
                            assert(self.search.starts@.contains(w.0));
                            assert(reach(t, n, w.0, w.1, self.heuristic.distances@[j] as int));
                            assert(perm_count(w.1, n) == c_perms + 1 + (j - old_dlen));
                        }
                    }
                    return None;
                },
                Some(d) => {
                    proof {
                        let (s, c) = choose|s: Set<u32>, c: Set<u32>|
                            #![auto]
                            {
                                &&& self.search.starts@.contains(s)
                                &&& reach(t, n, s, c, d as int)
                                &&& perm_count(c, n) == subgoal
                            };
                        dwit_s = s;
                        dwit_c = c;
                    }
                    distance = Some(d);
                    self.heuristic.improve_based_on(d);
                    proof {
                        wits = wits.push((dwit_s, dwit_c));
                    }
                    milestone.milestone(d, subgoal, &self.search, &self.heuristic);
                    proof {
                        assert forall|e: (int, int, int)|
                            #[trigger] self.search.open_set.entries().count(e) > 0 implies
                            perm_count(self.search.open_set.arena@[e.0]@, n)
                            <= self.heuristic.lower_bounds@.len() - 1 by {
                            assert(perm_count(self.search.open_set.arena@[e.0]@, n) <= subgoal);
                        }
                    }
                    self.search.update_heuristic(&self.heuristic);
                    proof {
                        assert(self.search.open_perms_at_most(subgoal as int));
                    }
                    subgoal = subgoal + 1;
                },
            }
        }
        proof {
            if distance is Some {
                let d = choose|d: usize| distance == Some(d);
                assert(self.search.starts@.contains(dwit_s));
                assert(reach(t, n, dwit_s, dwit_c, d as int));
                assert(perm_count(dwit_c, n) == fact(n as nat));
                assert(exists|s: Set<u32>, c: Set<u32>|
                    #![auto]
                    {
                        &&& self.search.starts@.contains(s)
                        &&& reach(t, n, s, c, d as int)
                        &&& perm_count(c, n) == fact(n as nat)
                    });
            }
            assert forall|j: int|
                old_dlen <= j < self.heuristic.distances@.len() implies 1 <= #[trigger] self.heuristic.distances@[j]
                && (exists|s: Set<u32>, c: Set<u32>|
                #![auto]
                {
                    &&& self.search.starts@.contains(s)
                    &&& reach(t, n, s, c, self.heuristic.distances@[j] as int)
                    &&& perm_count(c, n) == c_perms + 1 + (j - old_dlen)
                }) by {
                let w = wits[j - old_dlen];
                assert(self.search.starts@.contains(w.0));
                assert(reach(t, n, w.0, w.1, self.heuristic.distances@[j] as int));
                assert(perm_count(w.1, n) == c_perms + 1 + (j - old_dlen));
            }
        }
        distance
    }
}

} // verus!
