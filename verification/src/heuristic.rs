//! The adaptive admissible heuristic.  It is indexed by the number of
//! permutations a candidate shows and the depth at which the search found
//! it, and is refined after every solved sub-goal: the exact distance just
//! learned is folded into a table of lower bounds on the distance still to
//! travel, maximized over every already-solved detour.

use vstd::prelude::*;

verus! {

/// The largest distance the tables accept; keeps every sum the update
/// computes comfortably inside a machine word.
pub open spec fn distance_limit() -> int {
    100000000
}

/// The maximum, over `k` in `[1, upto)`, of `ds[k] + ds[ds.len() - k]`:
/// the distance already travelled to some solved milestone plus the
/// shortest known distance for the permutations that remain after it.
pub open spec fn mlb_upto(ds: Seq<usize>, upto: int) -> int
    decreases upto,
{
    if upto <= 1 {
        0
    } else {
        let prev = mlb_upto(ds, upto - 1);
        let cur = ds[upto - 1] + ds[ds.len() - (upto - 1)];
        if cur > prev {
            cur
        } else {
            prev
        }
    }
}

/// The lower bound on the distance from the previous goal to the next one:
/// the maximum over all solved detours.
pub open spec fn spec_mlb(ds: Seq<usize>) -> int {
    mlb_upto(ds, ds.len() as int)
}

/// The refreshed max-depth entry for progress `p`: one less than the
/// shortest distance at which `p + 1` permutations are reachable, or than
/// the new lower bound where that is not yet known.
pub open spec fn new_max_depth(sp: int, ds: Seq<usize>, l: int, p: int) -> int {
    let idx = if p + 1 >= sp {
        p + 1 - sp
    } else {
        0
    };
    let nmd = if idx < ds.len() {
        ds[idx] as int
    } else {
        l
    };
    if nmd >= 1 {
        nmd - 1
    } else {
        0
    }
}

/// The refreshed lower-bound entry for progress `p`: below the starting
/// progress the search must first travel back, above it the max depth is
/// subtracted from the bound to the next goal.
pub open spec fn new_lower_bound(sp: int, ds: Seq<usize>, l: int, p: int) -> int {
    if p < sp {
        l + (sp - p)
    } else {
        l - new_max_depth(sp, ds, l, p)
    }
}

#[derive(Debug, PartialEq)]
pub struct Heuristic {
    pub starting_perms: usize,
    pub distances: Vec<usize>,
    pub lower_bounds: Vec<usize>,
    pub max_depths: Vec<usize>,
}

impl Heuristic {
    /// What `cost` needs: parallel tables with bounded entries.
    pub open spec fn basic_inv(self) -> bool {
        &&& self.lower_bounds@.len() == self.max_depths@.len()
        &&& forall|i: int|
            0 <= i < self.lower_bounds@.len() ==> (#[trigger] self.lower_bounds@[i]) <= 3
                * distance_limit()
        &&& forall|i: int|
            0 <= i < self.max_depths@.len() ==> (#[trigger] self.max_depths@[i]) <= 3
                * distance_limit()
    }

    /// What `improve_based_on` needs in addition: the tables leave room for
    /// exactly the solved milestones plus the next goal.
    pub open spec fn inv(self) -> bool {
        &&& self.basic_inv()
        &&& self.distances@.len() >= 1
        &&& self.lower_bounds@.len() == self.distances@.len() + self.starting_perms + 1
        &&& self.starting_perms <= distance_limit()
        &&& forall|i: int|
            0 <= i < self.distances@.len() ==> (#[trigger] self.distances@[i]) <= distance_limit()
    }

    /// The estimate `cost` returns.
    pub open spec fn spec_cost(self, p: int, d: int) -> int {
        self.lower_bounds@[p] + if self.max_depths@[p] > d {
            self.max_depths@[p] - d
        } else {
            0
        }
    }

    pub fn new(
        starting_perms: usize,
        distances: Vec<usize>,
        lower_bounds: Vec<usize>,
        max_depths: Vec<usize>,
    ) -> (r: Heuristic)
        ensures
            r.starting_perms == starting_perms,
            r.distances == distances,
            r.lower_bounds == lower_bounds,
            r.max_depths == max_depths,
    {
        Heuristic { starting_perms, distances, lower_bounds, max_depths }
    }

    /// The heuristic for a fresh search: one permutation is already shown,
    /// the lower bounds form a strictly descending ladder from the first
    /// goal, and no distance has been solved yet.
    pub fn seed() -> (r: Heuristic)
        ensures
            r.inv(),
            r.starting_perms == 1,
            r.distances@ == seq![0usize],
            r.lower_bounds@ == seq![2usize, 1usize, 0usize],
            r.max_depths@ == seq![0usize, 0usize, 0usize],
    {
        let starting_perms: usize = 1;
        let distances: Vec<usize> = vec![0];
        let lower_bounds: Vec<usize> = vec![2, 1, 0];
        let max_depths: Vec<usize> = vec![0, 0, 0];
        let r = Heuristic { starting_perms, distances, lower_bounds, max_depths };
        proof {
            assert(r.distances@ =~= seq![0usize]);
            assert(r.lower_bounds@ =~= seq![2usize, 1usize, 0usize]);
            assert(r.max_depths@ =~= seq![0usize, 0usize, 0usize]);
        }
        r
    }

    /// The admissible estimate of the distance still to travel when
    /// `number_of_perms` permutations are shown at depth `search_depth`.
    pub fn cost(&self, number_of_perms: usize, search_depth: usize) -> (r: usize)
        requires
            self.basic_inv(),
            number_of_perms < self.lower_bounds@.len(),
        ensures
            r == self.spec_cost(number_of_perms as int, search_depth as int),
            r <= 6 * distance_limit(),
    {
        let lower_bound = self.lower_bounds[number_of_perms];
        let max_depth = self.max_depths[number_of_perms];
        let slack = if max_depth > search_depth {
            max_depth - search_depth
        } else {
            0
        };
        lower_bound + slack
    }

    /// The number of permutations of the first sub-goal ever posed.
    pub fn first_goal(&self) -> (r: usize)
        requires
            self.starting_perms < usize::MAX,
        ensures
            r == self.starting_perms + 1,
    {
        self.starting_perms + 1
    }

    /// The number of permutations of the sub-goal to be solved next.
    pub fn next_goal(&self) -> (r: usize)
        requires
            self.lower_bounds@.len() >= 1,
        ensures
            r == self.lower_bounds@.len() - 1,
    {
        self.lower_bounds.len() - 1
    }

    /// What `shortest_distance` returns.
    pub open spec fn spec_shortest_distance(self, p: int) -> Option<usize> {
        let idx = if p >= self.starting_perms {
            p - self.starting_perms
        } else {
            0
        };
        if idx < self.distances@.len() {
            Some(self.distances@[idx])
        } else {
            None
        }
    }

    /// The solved shortest distance from the start to `number_of_perms`
    /// permutations, where known.
    pub fn shortest_distance(&self, number_of_perms: usize) -> (r: Option<usize>)
        ensures
            r == self.spec_shortest_distance(number_of_perms as int),
    {
        let perms_added = if number_of_perms >= self.starting_perms {
            number_of_perms - self.starting_perms
        } else {
            0
        };
        self.shortest_distance_to_add(perms_added)
    }

    /// The solved shortest distance that adding `perms_to_add` permutations
    /// took, where known.
    pub fn shortest_distance_to_add(&self, perms_to_add: usize) -> (r: Option<usize>)
        ensures
            r == if perms_to_add < self.distances@.len() {
                Some(self.distances@[perms_to_add as int])
            } else {
                None
            },
    {
        if perms_to_add < self.distances.len() {
            Some(self.distances[perms_to_add])
        } else {
            None
        }
    }
}

/// The cost estimate that the tables derived from solved distances `ds`
/// give for progress `p` at depth `dep`; `improve_based_on` writes exactly
/// these values.
pub open spec fn cost_from(sp: int, ds: Seq<usize>, p: int, dep: int) -> int {
    let l = spec_mlb(ds);
    let lb = new_lower_bound(sp, ds, l, p);
    let md = new_max_depth(sp, ds, l, p);
    lb + if md > dep {
        md - dep
    } else {
        0
    }
}

/// Appending a further true distance, no smaller than the last, never
/// lowers the maximized bound, which also dominates the new distance.
proof fn lemma_mlb_push_ge(ds: Seq<usize>, d: usize)
    requires
        ds.len() >= 1,
        forall|i: int, j: int| 0 <= i <= j < ds.len() ==> ds[i] <= ds[j],
        d >= ds.last(),
    ensures
        spec_mlb(ds.push(d)) >= spec_mlb(ds),
        spec_mlb(ds.push(d)) >= d,
{
    let ds2 = ds.push(d);
    let len = ds.len() as int;
    assert forall|i: int, j: int| 0 <= i <= j < ds2.len() implies ds2[i] <= ds2[j] by {
        if j == len {
            if i < len {
                assert(ds2[i] == ds[i]);
                assert(ds[i] <= ds[len - 1]);
            }
        }
    }
    assert forall|u: int| 1 <= u <= len implies mlb_upto(ds2, u) >= mlb_upto(ds, u) by {
        lemma_mlb_push_ge_upto(ds, ds2, u);
    }
    assert(mlb_upto(ds2, len + 1) >= mlb_upto(ds2, len));
    assert(mlb_upto(ds2, len + 1) >= ds2[len] + ds2[1]) by {
        if len >= 1 {
            assert(mlb_upto(ds2, len + 1) >= ds2[(len + 1) - 1] + ds2[ds2.len() - ((len + 1)
                - 1)]);
        }
    }
}

proof fn lemma_mlb_push_ge_upto(ds: Seq<usize>, ds2: Seq<usize>, u: int)
    requires
        ds.len() >= 1,
        ds2 == ds.push(ds2.last()),
        ds2.len() == ds.len() + 1,
        forall|i: int, j: int| 0 <= i <= j < ds2.len() ==> ds2[i] <= ds2[j],
        1 <= u <= ds.len(),
    ensures
        mlb_upto(ds2, u) >= mlb_upto(ds, u),
    decreases u,
{
    if u > 1 {
        lemma_mlb_push_ge_upto(ds, ds2, u - 1);
        let k = u - 1;
        assert(ds2[k] == ds[k]);
        assert(ds2[ds2.len() - k] >= ds2[ds.len() - k]);
        assert(ds2[ds.len() - k] == ds[ds.len() - k]);
    }
}

/// Bounds only tighten: folding in a further true distance, no smaller
/// than the last one recorded, never lowers any cost estimate.
pub proof fn lemma_improvement_tightens(sp: int, ds: Seq<usize>, d: usize, p: int, dep: int)
    requires
        0 <= sp,
        ds.len() >= 1,
        forall|i: int, j: int| 0 <= i <= j < ds.len() ==> ds[i] <= ds[j],
        d >= ds.last(),
        0 <= p,
    ensures
        cost_from(sp, ds, p, dep) <= cost_from(sp, ds.push(d), p, dep),
{
    let ds2 = ds.push(d);
    let len = ds.len() as int;
    let l = spec_mlb(ds);
    let l2 = spec_mlb(ds2);
    lemma_mlb_push_ge(ds, d);
    assert(l >= 0 && l2 >= 0) by {
        lemma_mlb_nonneg(ds, len);
        lemma_mlb_nonneg(ds2, len + 1);
    }
    if p < sp {
    } else {
        let idx = p + 1 - sp;
        if idx < len {
        } else if idx == len {
            assert(ds2[idx] == d);
            assert(l2 >= d);
        } else {
        }
    }
}

/// The maximized bound is never negative.
proof fn lemma_mlb_nonneg(ds: Seq<usize>, upto: int)
    ensures
        mlb_upto(ds, upto) >= 0,
    decreases upto,
{
    if upto > 1 {
        lemma_mlb_nonneg(ds, upto - 1);
    }
}

/// The fresh ladder is dominated by the table the first solved distance
/// derives: the seeded bounds were themselves admissible under-estimates.
pub proof fn lemma_seed_improvement_tightens(d: usize, p: int, dep: int)
    requires
        1 <= d,
        0 <= p <= 2,
    ensures
        2 - p <= cost_from(1, seq![0usize].push(d), p, dep),
{
    let ds2 = seq![0usize].push(d);
    assert(ds2.len() == 2);
    assert(ds2[0] == 0 && ds2[1] == d);
    assert(spec_mlb(ds2) == d + d) by {
        assert(mlb_upto(ds2, 2) >= ds2[1] + ds2[1]);
        assert(mlb_upto(ds2, 1) == 0);
    }
}

/// The tables `improve_based_on` writes give exactly the derived cost:
/// what `cost` answers afterwards is `cost_from` over the recorded
/// distances.
pub proof fn lemma_cost_is_derived(h: Heuristic, sp: int, ds: Seq<usize>, p: int, dep: int)
    requires
        0 <= p < h.lower_bounds@.len(),
        p < h.max_depths@.len(),
        h.lower_bounds@[p] == new_lower_bound(sp, ds, spec_mlb(ds), p),
        h.max_depths@[p] == new_max_depth(sp, ds, spec_mlb(ds), p),
    ensures
        h.spec_cost(p, dep) == cost_from(sp, ds, p, dep),
{
}

impl Clone for Heuristic {
    /// The copy carries the same tables.
    fn clone(&self) -> (r: Self)
        ensures
            r.starting_perms == self.starting_perms,
            r.distances@ == self.distances@,
            r.lower_bounds@ == self.lower_bounds@,
            r.max_depths@ == self.max_depths@,
    {
        let r = Heuristic {
            starting_perms: self.starting_perms,
            distances: self.distances.clone(),
            lower_bounds: self.lower_bounds.clone(),
            max_depths: self.max_depths.clone(),
        };
        proof {
            assert(r.distances@ =~= self.distances@);
            assert(r.lower_bounds@ =~= self.lower_bounds@);
            assert(r.max_depths@ =~= self.max_depths@);
        }
        r
    }
}

/// Every single travelled distance is dominated by the maximized bound.
proof fn lemma_mlb_covers(ds: Seq<usize>, k: int, upto: int)
    requires
        1 <= k < upto <= ds.len(),
    ensures
        ds[k] + ds[ds.len() - k] <= mlb_upto(ds, upto),
    decreases upto,
{
    if k < upto - 1 {
        lemma_mlb_covers(ds, k, upto - 1);
    }
}

/// The maximized bound never exceeds twice the largest entry.
proof fn lemma_mlb_bounded(ds: Seq<usize>, upto: int, limit: int)
    requires
        upto <= ds.len(),
        forall|i: int| 0 <= i < ds.len() ==> (#[trigger] ds[i]) <= limit,
        0 <= limit,
    ensures
        0 <= mlb_upto(ds, upto) <= 2 * limit,
    decreases upto,
{
    if upto > 1 {
        lemma_mlb_bounded(ds, upto - 1, limit);
    }
}

impl Heuristic {
    /// The greatest admissible bound on the distance from the previous goal
    /// to the next: for every solved milestone, the distance to reach it
    /// plus the shortest known distance for the permutations that remain.
    pub fn maximum_lower_bound_on_the_distance_to_next_goal(&self) -> (r: usize)
        requires
            self.inv(),
        ensures
            r == spec_mlb(self.distances@),
            0 <= r <= 2 * distance_limit(),
    {
        let ghost ds = self.distances@;
        let mut greatest_distance: usize = 0;
        let first = self.first_goal();
        let goal = self.next_goal();
        let mut p: usize = first;
        proof {
            lemma_mlb_bounded(ds, ds.len() as int, distance_limit());
        }
        if goal < first {
            proof {
                assert(self.distances@.len() == 1);
                assert(spec_mlb(ds) == 0);
            }
            return 0;
        }
        while p < goal
            invariant
                self.inv(),
                ds == self.distances@,
                first == self.starting_perms + 1,
                goal == self.lower_bounds@.len() - 1,
                goal == ds.len() + self.starting_perms,
                first <= p <= goal,
                greatest_distance == mlb_upto(ds, p - self.starting_perms),
                greatest_distance <= 2 * distance_limit(),
            decreases goal - p,
        {
            let needed_perms = goal - p;
            let distance_from_start = self.shortest_distance(p);
            let distance_to_goal = self.shortest_distance_to_add(needed_perms);
            let a = match distance_from_start {
                Some(v) => v,
                None => 0,
            };
            let b = match distance_to_goal {
                Some(v) => v,
                None => 0,
            };
            proof {
                assert(distance_from_start == Some(ds[p - self.starting_perms]));
                assert(distance_to_goal == Some(ds[ds.len() - (p - self.starting_perms)]));
            }
            let total_distance = a + b;
            if total_distance > greatest_distance {
                greatest_distance = total_distance;
            }
            p = p + 1;
        }
        greatest_distance
    }

    /// Folds the exact distance of the sub-goal just solved into the
    /// tables: record it, grow every table by one milestone, and recompute
    /// all bounds below the new goal as the maximum over solved detours.
    pub fn improve_based_on(&mut self, shortest_path_distance: usize)
        requires
            old(self).inv(),
            shortest_path_distance <= distance_limit(),
        ensures
            final(self).inv(),
            final(self).starting_perms == old(self).starting_perms,
            final(self).distances@ == old(self).distances@.push(shortest_path_distance),
            final(self).lower_bounds@.len() == old(self).lower_bounds@.len() + 1,
            final(self).max_depths@.len() == old(self).max_depths@.len() + 1,
            final(self).lower_bounds@.last() == 0,
            final(self).max_depths@.last() == 0,
            forall|p: int|
                0 <= p < final(self).lower_bounds@.len() - 1 ==> (
                #[trigger] final(self).lower_bounds@[p]) == new_lower_bound(
                    old(self).starting_perms as int,
                    final(self).distances@,
                    spec_mlb(final(self).distances@),
                    p,
                ),
            forall|p: int|
                0 <= p < final(self).max_depths@.len() - 1 ==> (
                #[trigger] final(self).max_depths@[p]) == new_max_depth(
                    old(self).starting_perms as int,
                    final(self).distances@,
                    spec_mlb(final(self).distances@),
                    p,
                ),
    {
        let ghost sp = self.starting_perms as int;
        self.distances.push(shortest_path_distance);
        self.lower_bounds.push(0);
        self.max_depths.push(0);
        let ghost ds = self.distances@;
        let ghost l = spec_mlb(ds);
        proof {
            lemma_mlb_bounded(ds, ds.len() as int, distance_limit());
        }
        let lower_bound = self.maximum_lower_bound_on_the_distance_to_next_goal();
        let goal = self.next_goal();
        let ghost lbs0 = self.lower_bounds@;
        let ghost mds0 = self.max_depths@;
        let mut p: usize = 0;
        while p < goal
            invariant
                self.basic_inv(),
                self.starting_perms == sp,
                self.distances@ == ds,
                ds.len() >= 2,
                forall|i: int| 0 <= i < ds.len() ==> (#[trigger] ds[i]) <= distance_limit(),
                sp <= distance_limit(),
                lower_bound == l,
                l == spec_mlb(ds),
                0 <= l <= 2 * distance_limit(),
                goal == lbs0.len() - 1,
                goal == ds.len() + sp,
                p <= goal,
                self.lower_bounds@.len() == lbs0.len(),
                self.max_depths@.len() == mds0.len(),
                mds0.len() == lbs0.len(),
                lbs0.last() == 0,
                mds0.last() == 0,
                forall|q: int|
                    0 <= q < p ==> (#[trigger] self.lower_bounds@[q]) == new_lower_bound(
                        sp,
                        ds,
                        l,
                        q,
                    ),
                forall|q: int|
                    0 <= q < p ==> (#[trigger] self.max_depths@[q]) == new_max_depth(sp, ds, l, q),
                forall|q: int|
                    p <= q < lbs0.len() ==> (#[trigger] self.lower_bounds@[q]) == lbs0[q],
                forall|q: int|
                    p <= q < mds0.len() ==> (#[trigger] self.max_depths@[q]) == mds0[q],
            decreases goal - p,
        {
            let next_min_depth = self.shortest_distance(p + 1);
            let max_depth: usize = match next_min_depth {
                Some(v) => if v >= 1 {
                    v - 1
                } else {
                    0
                },
                None => if lower_bound >= 1 {
                    lower_bound - 1
                } else {
                    0
                },
            };
            proof {
                assert(max_depth == new_max_depth(sp, ds, l, p as int));
            }
            let slot = vstd::std_specs::vec::vec_index_mut(&mut self.max_depths, p);
            *slot = max_depth;
            if p < self.starting_perms {
                let value: usize = lower_bound + (self.starting_perms - p);
                let slot2 = vstd::std_specs::vec::vec_index_mut(&mut self.lower_bounds, p);
                *slot2 = value;
            } else {
                proof {
                    if p + 1 - sp < ds.len() {
                        lemma_mlb_covers(ds, p + 1 - sp, ds.len() as int);
                    }
                }
                let value: usize = lower_bound - max_depth;
                let slot2 = vstd::std_specs::vec::vec_index_mut(&mut self.lower_bounds, p);
                *slot2 = value;
            }
            p = p + 1;
        }
    }
}

} // verus!
