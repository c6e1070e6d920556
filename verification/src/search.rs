//! Single-goal best-first search.  Candidates are popped from the open
//! frontier in f-cost order, expanded through the symmetry table, screened
//! against the closed set, and scored by the heuristic; when a neighbor
//! shows the goal number of permutations the current node is still fully
//! expanded and closed before the depth of that neighbor is returned.
//!
//! What is proved: every distance the search reports is realized by an
//! actual chain of expansions from a seeded candidate to a state showing
//! the goal number of permutations, one expansion past a candidate the
//! search finalized at the preceding depth; a search that reports no
//! distance leaves the frontier exhausted; every entry the search
//! enqueues carries its depth plus the heuristic's estimate as its
//! f-cost; and reindexing under a new heuristic preserves the frontier's
//! candidates and depths exactly.  That the reported distance is also
//! minimal rests on the A* argument and is not proved here.

use vstd::prelude::*;
use crate::candidate::{expand_bits, lemma_expand_perms, perm_count, Candidate};
use crate::closed_set::ClosedSet;
use crate::heuristic::{distance_limit, Heuristic};
use crate::open_set::{lemma_pair_count_grow, lemma_pair_count_insert, lemma_pair_count_remove,
    pair_count, OpenSet};
use crate::symmetry::Symmetry;

verus! {

/// The search gives up on paths deeper than this; any real search
/// exhausts memory long before.
pub open spec fn depth_limit() -> int {
    1000000000
}

/// `to` is reachable from `from` in exactly `steps` expansions.
pub open spec fn reach(
    t: Seq<Seq<Seq<u32>>>,
    n: int,
    from: Set<u32>,
    to: Set<u32>,
    steps: int,
) -> bool
    decreases steps,
{
    if steps <= 0 {
        from == to && steps == 0
    } else {
        exists|sym: int|
            0 <= sym < n - 1 && reach(t, n, expand_bits(t, n, from, sym), to, steps - 1)
    }
}

/// A reachable state stays reachable through one more expansion.
pub proof fn lemma_reach_extend(
    t: Seq<Seq<Seq<u32>>>,
    n: int,
    from: Set<u32>,
    mid: Set<u32>,
    steps: int,
    sym: int,
)
    requires
        0 <= steps,
        reach(t, n, from, mid, steps),
        0 <= sym < n - 1,
    ensures
        reach(t, n, from, expand_bits(t, n, mid, sym), steps + 1),
    decreases steps,
{
    if steps == 0 {
        assert(reach(t, n, expand_bits(t, n, from, sym), expand_bits(t, n, mid, sym), 0));
    } else {
        let sym0 = choose|s2: int|
            0 <= s2 < n - 1 && reach(t, n, expand_bits(t, n, from, s2), mid, steps - 1);
        lemma_reach_extend(t, n, expand_bits(t, n, from, sym0), mid, steps - 1, sym);
        assert(reach(t, n, expand_bits(t, n, from, sym0), expand_bits(t, n, mid, sym), steps));
    }
}

/// A closed-set record carries over to a later state that kept the same
/// value for it and moved nothing the record mentions.
proof fn lemma_closed_entry_carry(pre: Search, post: Search, c: Set<u32>, goal: int)
    requires
        post.symmetry == pre.symmetry,
        post.starts == pre.starts,
        pre.closed_entry_ok(c, goal),
        post.closed_set@[c] == pre.closed_set@[c],
    ensures
        post.closed_entry_ok(c, goal),
{
    let s = choose|s: Set<u32>|
        #[trigger] pre.starts@.contains(s) && reach(
            pre.symmetry@,
            pre.symmetry.symbols as int,
            s,
            c,
            pre.closed_set@[c] as int,
        );
    assert(post.starts@.contains(s));
    assert(reach(post.symmetry@, post.symmetry.symbols as int, s, c, post.closed_set@[c] as int));
}

/// How many stacked pairs carry the bit-vector `b` at g-cost `g`.
spec fn stack_pairs(s: Seq<(Candidate, usize)>, b: Set<u32>, g: int) -> int
    decreases s.len(),
{
    if s.len() == 0 {
        0
    } else {
        stack_pairs(s.drop_last(), b, g) + if s.last().0@ == b && s.last().1 == g {
            1int
        } else {
            0int
        }
    }
}

pub struct Search {
    pub symmetry: Symmetry,
    pub open_set: OpenSet,
    pub closed_set: ClosedSet,
    pub heuristic: Heuristic,
    pub starts: Ghost<Set<Set<u32>>>,
}

impl Search {
    /// Every open entry carries a bounded depth at which its candidate is
    /// reachable from one of the seeded states.
    pub open spec fn entry_ok(self, e: (int, int, int)) -> bool {
        &&& e.2 <= depth_limit()
        &&& exists|s: Set<u32>|
            #[trigger] self.starts@.contains(s) && reach(
                self.symmetry@,
                self.symmetry.symbols as int,
                s,
                self.open_set.arena@[e.0]@,
                e.2,
            )
    }

    pub open spec fn inv(self) -> bool {
        &&& self.symmetry.inv()
        &&& 3 <= self.symmetry.symbols
        &&& self.open_set.inv()
        &&& self.closed_set.inv()
        &&& self.heuristic.basic_inv()
        &&& self.open_set.uniform(self.symmetry.symbols as int)
        &&& forall|e: (int, int, int)| #[trigger] self.open_set.entries().count(e) > 0
            ==> self.entry_ok(e)
    }

    /// No enqueued candidate shows more than `k` permutations.
    pub open spec fn open_perms_at_most(self, k: int) -> bool {
        forall|e: (int, int, int)| #[trigger] self.open_set.entries().count(e) > 0 ==> perm_count(
            self.open_set.arena@[e.0]@,
            self.symmetry.symbols as int,
        ) <= k
    }

    /// The entry's f-cost is its g-cost plus the held heuristic's estimate
    /// for its candidate at that depth.
    pub open spec fn entry_costed(self, e: (int, int, int)) -> bool {
        e.1 == e.2 + self.heuristic.spec_cost(
            perm_count(self.open_set.arena@[e.0]@, self.symmetry.symbols as int),
            e.2,
        )
    }

    /// A finalized candidate of a search towards `goal`: its recorded cost
    /// is the depth of an actual expansion chain from a seeded state, and
    /// it was closed before it could show `goal` permutations.
    pub open spec fn closed_entry_ok(self, c: Set<u32>, goal: int) -> bool {
        &&& perm_count(c, self.symmetry.symbols as int) <= goal - 1
        &&& self.closed_set@[c] <= depth_limit()
        &&& exists|s: Set<u32>| #[trigger] self.starts@.contains(s) && reach(
            self.symmetry@,
            self.symmetry.symbols as int,
            s,
            c,
            self.closed_set@[c] as int,
        )
    }

    pub fn new(symmetry: Symmetry, open_set: OpenSet, closed_set: ClosedSet) -> (r: Search)
        requires
            symmetry.inv(),
            3 <= symmetry.symbols,
            open_set.inv(),
            open_set.entries().len() == 0,
            open_set.arena@.len() == 0,
            closed_set.inv(),
        ensures
            r.inv(),
            r.symmetry == symmetry,
            r.open_set == open_set,
            r.closed_set == closed_set,
            r.heuristic.inv(),
            r.heuristic.starting_perms == 1,
            r.heuristic.lower_bounds@ == seq![2usize, 1usize, 0usize],
            r.starts@ == Set::<Set<u32>>::empty(),
            r.open_set.entries().len() == 0,
    {
        let r = Search {
            symmetry,
            open_set,
            closed_set,
            heuristic: Heuristic::seed(),
            starts: Ghost(Set::empty()),
        };
        proof {
            broadcast use vstd::multiset::group_multiset_axioms;

            assert forall|e: (int, int, int)| #[trigger] r.open_set.entries().count(e)
                > 0 implies r.entry_ok(e) by {
                assert(r.open_set.entries().count(e) <= r.open_set.entries().len());
            }
        }
        r
    }

    /// Puts a start candidate on the frontier with g-cost 0 and f-cost 1:
    /// by construction every goal is at least one step away.
    pub fn seed(&mut self, candidate: Candidate)
        requires
            old(self).inv(),
            candidate.inv(),
            candidate.symbols == old(self).symmetry.symbols,
        ensures
            final(self).inv(),
            final(self).symmetry == old(self).symmetry,
            final(self).heuristic == old(self).heuristic,
            final(self).closed_set == old(self).closed_set,
            final(self).starts@ == old(self).starts@.insert(candidate@),
            final(self).open_set.arena@ == old(self).open_set.arena@.push(candidate),
            final(self).open_set.entries() == old(self).open_set.entries().insert(
                (old(self).open_set.arena@.len() as int, 1int, 0int),
            ),
            final(self).open_set.entries().len() == old(self).open_set.entries().len() + 1,
            forall|k: int|
                old(self).open_perms_at_most(k) && perm_count(
                    candidate@,
                    old(self).symmetry.symbols as int,
                ) <= k ==> final(self).open_perms_at_most(k),
    {
        let ghost c_bits = candidate@;
        proof {
            self.starts@ = self.starts@.insert(c_bits);
        }
        self.open_set.add(candidate, 1, 0);
        proof {
            broadcast use vstd::multiset::group_multiset_axioms;

            let n = self.symmetry.symbols as int;
            let e_new = (old(self).open_set.arena@.len() as int, 1int, 0int);
            assert forall|e: (int, int, int)| #[trigger] self.open_set.entries().count(e)
                > 0 implies self.entry_ok(e) by {
                if e == e_new {
                    assert(self.starts@.contains(c_bits));
                    assert(reach(self.symmetry@, n, c_bits, self.open_set.arena@[e.0]@, 0));
                } else {
                    assert(old(self).open_set.entries().count(e) > 0);
                    assert(old(self).entry_ok(e));
                    let s = choose|s: Set<u32>|
                        #[trigger] old(self).starts@.contains(s) && reach(
                            old(self).symmetry@,
                            n,
                            s,
                            old(self).open_set.arena@[e.0]@,
                            e.2,
                        );
                    assert(self.starts@.contains(s));
                }
            }
            assert forall|k: int|
                old(self).open_perms_at_most(k) && perm_count(c_bits, n)
                    <= k implies self.open_perms_at_most(k) by {
                assert forall|e: (int, int, int)| #[trigger] self.open_set.entries().count(e)
                    > 0 implies perm_count(self.open_set.arena@[e.0]@, n) <= k by {
                    if e != e_new {
                        assert(old(self).open_set.entries().count(e) > 0);
                    }
                }
            }
        }
    }

    /// Carries the bookkeeping of `shortest_path`, stated against the
    /// anchor state the call began in, across a step that at most removed
    /// open entries and moved nothing else.
    proof fn lemma_unmoved_carries(&self, anchor: Search, pre: Search, goal: int)
        requires
            self.symmetry == pre.symmetry,
            self.heuristic == pre.heuristic,
            self.starts == pre.starts,
            self.closed_set == pre.closed_set,
            self.open_set.arena@ == pre.open_set.arena@,
            forall|e: (int, int, int)| #[trigger] self.open_set.entries().count(e)
                <= pre.open_set.entries().count(e),
            pre.open_set.arena@.len() >= anchor.open_set.arena@.len(),
            forall|i: int|
                0 <= i < anchor.open_set.arena@.len() ==> pre.open_set.arena@[i]
                    == anchor.open_set.arena@[i],
            forall|e: (int, int, int)|
                e.0 < anchor.open_set.arena@.len() ==> #[trigger] pre.open_set.entries().count(e)
                    <= anchor.open_set.entries().count(e),
            forall|e: (int, int, int)|
                #[trigger] pre.open_set.entries().count(e) > 0 && e.0
                    >= anchor.open_set.arena@.len() ==> pre.entry_costed(e),
            forall|c: Set<u32>|
                #[trigger] anchor.closed_set@.dom().contains(c)
                    ==> pre.closed_set@.dom().contains(c) && pre.closed_set@[c]
                    <= anchor.closed_set@[c],
            forall|c: Set<u32>|
                #[trigger] pre.closed_set@.dom().contains(c) ==> (
                anchor.closed_set@.dom().contains(c) && pre.closed_set@[c]
                    == anchor.closed_set@[c]) || pre.closed_entry_ok(c, goal),
        ensures
            self.open_set.arena@.len() >= anchor.open_set.arena@.len(),
            forall|i: int|
                0 <= i < anchor.open_set.arena@.len() ==> self.open_set.arena@[i]
                    == anchor.open_set.arena@[i],
            forall|e: (int, int, int)|
                e.0 < anchor.open_set.arena@.len() ==> #[trigger] self.open_set.entries().count(e)
                    <= anchor.open_set.entries().count(e),
            forall|e: (int, int, int)|
                #[trigger] self.open_set.entries().count(e) > 0 && e.0
                    >= anchor.open_set.arena@.len() ==> self.entry_costed(e),
            forall|c: Set<u32>|
                #[trigger] anchor.closed_set@.dom().contains(c)
                    ==> self.closed_set@.dom().contains(c) && self.closed_set@[c]
                    <= anchor.closed_set@[c],
            forall|c: Set<u32>|
                #[trigger] self.closed_set@.dom().contains(c) ==> (
                anchor.closed_set@.dom().contains(c) && self.closed_set@[c]
                    == anchor.closed_set@[c]) || self.closed_entry_ok(c, goal),
    {
        assert forall|e: (int, int, int)|
            e.0 < anchor.open_set.arena@.len() implies #[trigger] self.open_set.entries().count(e)
            <= anchor.open_set.entries().count(e) by {
            assert(self.open_set.entries().count(e) <= pre.open_set.entries().count(e));
            assert(pre.open_set.entries().count(e) <= anchor.open_set.entries().count(e));
        }
        assert forall|e: (int, int, int)|
            #[trigger] self.open_set.entries().count(e) > 0 && e.0
                >= anchor.open_set.arena@.len() implies self.entry_costed(e) by {
            assert(pre.open_set.entries().count(e) > 0);
            assert(pre.entry_costed(e));
        }
        assert forall|c: Set<u32>| #[trigger] self.closed_set@.dom().contains(c) implies (
        anchor.closed_set@.dom().contains(c) && self.closed_set@[c] == anchor.closed_set@[c])
            || self.closed_entry_ok(c, goal) by {
            assert(pre.closed_set@.dom().contains(c));
            if !(anchor.closed_set@.dom().contains(c) && pre.closed_set@[c]
                == anchor.closed_set@[c]) {
                assert(pre.closed_entry_ok(c, goal));
                lemma_closed_entry_carry(pre, *self, c, goal);
            }
        }
    }

    /// Empties the frontier: what a search that gives up on a safety bound
    /// leaves behind, so that giving up and exhaustion are outwardly the
    /// same event.
    fn drain_frontier(&mut self)
        requires
            old(self).inv(),
        ensures
            final(self).inv(),
            final(self).symmetry == old(self).symmetry,
            final(self).heuristic == old(self).heuristic,
            final(self).closed_set == old(self).closed_set,
            final(self).starts == old(self).starts,
            final(self).open_set.arena@ == old(self).open_set.arena@,
            final(self).open_set.entries().len() == 0,
    {
        broadcast use vstd::multiset::group_multiset_axioms;

        let ghost n = self.symmetry.symbols as int;
        let ghost t = self.symmetry@;
        loop
            invariant
                self.inv(),
                self.symmetry == old(self).symmetry,
                self.heuristic == old(self).heuristic,
                self.closed_set == old(self).closed_set,
                self.starts == old(self).starts,
                self.open_set.arena@ == old(self).open_set.arena@,
                n == self.symmetry.symbols as int,
                t == self.symmetry@,
            decreases self.open_set.entries().len(),
        {
            let ghost pre = *self;
            let popped = self.open_set.next();
            if popped.is_none() {
                return ;
            }
            proof {
                assert forall|e: (int, int, int)| #[trigger] self.open_set.entries().count(e)
                    > 0 implies self.entry_ok(e) by {
                    assert(self.open_set.entries().count(e) <= pre.open_set.entries().count(e));
                    assert(pre.entry_ok(e));
                    let s = choose|s: Set<u32>|
                        #[trigger] pre.starts@.contains(s) && reach(
                            t,
                            n,
                            s,
                            pre.open_set.arena@[e.0]@,
                            e.2,
                        );
                    assert(self.starts@.contains(s));
                    assert(reach(t, n, s, self.open_set.arena@[e.0]@, e.2));
                }
            }
        }
    }

    /// Pops candidates in cost order until a neighbor shows `goal`
    /// permutations; that node's depth is the returned distance.  `None`
    /// leaves the frontier exhausted: the search either drained it without
    /// reaching the goal, or gave up on a safety bound (an iteration count
    /// or a path depth no feasible run reaches) and emptied it.  A returned
    /// distance is always realized by an actual chain of expansions from a
    /// seeded candidate; arena slots and closed records of earlier calls
    /// are kept, every enqueued neighbor carries its depth plus the held
    /// heuristic's estimate as its f-cost, and every candidate finalized
    /// here is recorded at the depth of an actual chain reaching it.  That
    /// the distance is also minimal rests on the A* argument and is not
    /// proved here.
    pub fn shortest_path(&mut self, goal: usize) -> (r: Option<usize>)
        requires
            old(self).inv(),
            goal < old(self).heuristic.lower_bounds@.len(),
            old(self).open_perms_at_most(goal - 1),
        ensures
            final(self).inv(),
            final(self).symmetry == old(self).symmetry,
            final(self).heuristic == old(self).heuristic,
            final(self).starts == old(self).starts,
            final(self).open_perms_at_most(goal as int),
            r is None ==> final(self).open_set.entries().len() == 0,
            final(self).open_set.arena@.len() >= old(self).open_set.arena@.len(),
            forall|i: int|
                0 <= i < old(self).open_set.arena@.len() ==> final(self).open_set.arena@[i] == old(
                    self,
                ).open_set.arena@[i],
            forall|e: (int, int, int)|
                e.0 < old(self).open_set.arena@.len()
                    ==> #[trigger] final(self).open_set.entries().count(e)
                    <= old(self).open_set.entries().count(e),
            forall|e: (int, int, int)|
                #[trigger] final(self).open_set.entries().count(e) > 0
                    && e.0 >= old(self).open_set.arena@.len()
                    ==> final(self).entry_costed(e),
            forall|c: Set<u32>|
                #[trigger] old(self).closed_set@.dom().contains(c)
                    ==> final(self).closed_set@.dom().contains(c)
                    && final(self).closed_set@[c] <= old(self).closed_set@[c],
            forall|c: Set<u32>|
                #[trigger] final(self).closed_set@.dom().contains(c)
                    ==> (old(self).closed_set@.dom().contains(c)
                    && final(self).closed_set@[c] == old(self).closed_set@[c])
                    || final(self).closed_entry_ok(c, goal as int),
            r matches Some(d) ==> (exists|c: Set<u32>, sym: int|
                #![auto]
                {
                    &&& final(self).closed_set@.dom().contains(c)
                    &&& final(self).closed_set@[c] == d - 1
                    &&& 0 <= sym < final(self).symmetry.symbols - 1
                    &&& perm_count(
                        expand_bits(
                            final(self).symmetry@,
                            final(self).symmetry.symbols as int,
                            c,
                            sym,
                        ),
                        final(self).symmetry.symbols as int,
                    ) == goal
                }),
            r matches Some(d) ==> 1 <= d <= distance_limit() && (exists|s: Set<u32>, c: Set<u32>|
                #![auto]
                {
                    &&& final(self).starts@.contains(s)
                    &&& reach(
                        final(self).symmetry@,
                        final(self).symmetry.symbols as int,
                        s,
                        c,
                        d as int,
                    )
                    &&& perm_count(c, final(self).symmetry.symbols as int) == goal
                }),
    {
        broadcast use vstd::multiset::group_multiset_axioms;

        let expansions = self.symmetry.symbols - 1;
        let ghost n = self.symmetry.symbols as int;
        let ghost t = self.symmetry@;
        let mut fuel: u64 = 281474976710656;
        while fuel > 0
            invariant
                self.inv(),
                self.symmetry == old(self).symmetry,
                self.heuristic == old(self).heuristic,
                self.starts == old(self).starts,
                n == self.symmetry.symbols as int,
                t == self.symmetry@,
                expansions == self.symmetry.symbols - 1,
                goal < self.heuristic.lower_bounds@.len(),
                self.open_perms_at_most(goal - 1),
                self.open_set.arena@.len() >= old(self).open_set.arena@.len(),
                forall|i: int|
                    0 <= i < old(self).open_set.arena@.len() ==> self.open_set.arena@[i] == old(
                        self,
                    ).open_set.arena@[i],
                forall|e: (int, int, int)|
                    e.0 < old(self).open_set.arena@.len()
                        ==> #[trigger] self.open_set.entries().count(e) <= old(
                        self,
                    ).open_set.entries().count(e),
                forall|e: (int, int, int)|
                    #[trigger] self.open_set.entries().count(e) > 0 && e.0 >= old(
                        self,
                    ).open_set.arena@.len() ==> self.entry_costed(e),
                forall|c: Set<u32>|
                    #[trigger] old(self).closed_set@.dom().contains(c)
                        ==> self.closed_set@.dom().contains(c) && self.closed_set@[c] <= old(
                        self,
                    ).closed_set@[c],
                forall|c: Set<u32>|
                    #[trigger] self.closed_set@.dom().contains(c) ==> (old(
                        self,
                    ).closed_set@.dom().contains(c) && self.closed_set@[c] == old(
                        self,
                    ).closed_set@[c]) || self.closed_entry_ok(c, goal as int),
            decreases fuel,
        {
            fuel = fuel - 1;
            let ghost pre = *self;
            let popped = self.open_set.next();
            match popped {
                None => {
                    proof {
                        self.lemma_unmoved_carries(*old(self), pre, goal as int);
                    }
                    return None;
                },
                Some((candidate, search_depth)) => {
                    let ghost (pi, pf) = choose|i: int, f: int|
                        #![auto]
                        {
                            &&& pre.open_set.entries().count((i, f, search_depth as int)) > 0
                            &&& self.open_set.entries() == pre.open_set.entries().remove(
                                (i, f, search_depth as int),
                            )
                            &&& candidate@ == pre.open_set.candidate_at(i)@
                            &&& candidate.symbols == pre.open_set.candidate_at(i).symbols
                            &&& candidate.inv()
                        };
                    let ghost pe = (pi, pf, search_depth as int);
                    proof {
                        assert(pre.open_set.entries().count(pe) > 0);
                        assert(pre.entry_ok(pe));
                        assert(perm_count(pre.open_set.arena@[pi]@, n) <= goal - 1);
                        assert forall|e: (int, int, int)|
                            #[trigger] self.open_set.entries().count(e) > 0 implies self.entry_ok(
                            e,
                        ) && perm_count(self.open_set.arena@[e.0]@, n) <= goal - 1 by {
                            assert(self.open_set.entries().count(e) <= pre.open_set.entries().count(
                                e,
                            ));
                            assert(pre.entry_ok(e));
                            let s = choose|s: Set<u32>|
                                #[trigger] pre.starts@.contains(s) && reach(
                                    t,
                                    n,
                                    s,
                                    pre.open_set.arena@[e.0]@,
                                    e.2,
                                );
                            assert(self.starts@.contains(s));
                            assert(reach(t, n, s, self.open_set.arena@[e.0]@, e.2));
                        }
                        assert forall|e: (int, int, int)| #[trigger] self.open_set.entries().count(
                            e,
                        ) <= pre.open_set.entries().count(e) by {
                            assert(self.open_set.entries() == pre.open_set.entries().remove(pe));
                        }
                        self.lemma_unmoved_carries(*old(self), pre, goal as int);
                    }
                    let ghost cstart = choose|s: Set<u32>|
                        #[trigger] pre.starts@.contains(s) && reach(
                            t,
                            n,
                            s,
                            pre.open_set.arena@[pi]@,
                            search_depth as int,
                        );
                    proof {
                        assert(self.starts@.contains(cstart));
                        assert(reach(t, n, cstart, candidate@, search_depth as int));
                    }
                    if search_depth >= 100000000 {
                        let ghost before_drain = *self;
                        self.drain_frontier();
                        proof {
                            self.lemma_unmoved_carries(*old(self), before_drain, goal as int);
                        }
                        return None;
                    }
                    if self.closed_set.contains(&candidate, search_depth) {
                        continue;
                    }
                    proof {
                        assert(!(pre.closed_set@.dom().contains(candidate@)
                            && pre.closed_set@[candidate@] <= search_depth as nat));
                    }
                    let mut reached_goal = false;
                    let ghost mut goal_wit: Set<u32> = Set::empty();
                    let ghost mut goal_sym: int = 0;
                    let mut symbol: usize = 0;
                    while symbol < expansions
                        invariant
                            self.inv(),
                            self.symmetry == old(self).symmetry,
                            self.heuristic == old(self).heuristic,
                            self.starts == old(self).starts,
                            n == self.symmetry.symbols as int,
                            t == self.symmetry@,
                            expansions == self.symmetry.symbols - 1,
                            goal < self.heuristic.lower_bounds@.len(),
                            symbol <= expansions,
                            candidate.inv(),
                            candidate.symbols == n,
                            search_depth < 100000000,
                            perm_count(candidate@, n) <= goal - 1,
                            self.starts@.contains(cstart),
                            reach(t, n, cstart, candidate@, search_depth as int),
                            self.closed_set == pre.closed_set,
                            self.open_set.arena@.len() >= old(self).open_set.arena@.len(),
                            forall|i: int|
                                0 <= i < old(self).open_set.arena@.len()
                                    ==> self.open_set.arena@[i] == old(self).open_set.arena@[i],
                            forall|e: (int, int, int)|
                                e.0 < old(self).open_set.arena@.len()
                                    ==> #[trigger] self.open_set.entries().count(e) <= old(
                                    self,
                                ).open_set.entries().count(e),
                            forall|e: (int, int, int)|
                                #[trigger] self.open_set.entries().count(e) > 0 && e.0 >= old(
                                    self,
                                ).open_set.arena@.len() ==> self.entry_costed(e),
                            forall|c: Set<u32>|
                                #[trigger] old(self).closed_set@.dom().contains(c)
                                    ==> self.closed_set@.dom().contains(c) && self.closed_set@[c]
                                    <= old(self).closed_set@[c],
                            forall|c: Set<u32>|
                                #[trigger] self.closed_set@.dom().contains(c) ==> (old(
                                    self,
                                ).closed_set@.dom().contains(c) && self.closed_set@[c] == old(
                                    self,
                                ).closed_set@[c]) || self.closed_entry_ok(c, goal as int),
                            !reached_goal ==> self.open_perms_at_most(goal - 1),
                            reached_goal ==> self.open_perms_at_most(goal as int),
                            reached_goal ==> reach(
                                t,
                                n,
                                cstart,
                                goal_wit,
                                search_depth + 1,
                            ) && perm_count(goal_wit, n) == goal,
                            reached_goal ==> 0 <= goal_sym < n - 1 && goal_wit == expand_bits(
                                t,
                                n,
                                candidate@,
                                goal_sym,
                            ),
                        decreases expansions - symbol,
                    {
                        let neighbor = candidate.expand(&self.symmetry, symbol);
                        proof {
                            lemma_expand_perms(t, n, candidate@, symbol as int);
                            lemma_reach_extend(
                                t,
                                n,
                                cstart,
                                candidate@,
                                search_depth as int,
                                symbol as int,
                            );
                        }
                        let closed = self.closed_set.contains(&neighbor, search_depth + 1);
                        if !closed {
                            let perms = neighbor.number_of_permutations();
                            proof {
                                assert(perms == perm_count(neighbor@, n));
                                assert(perms <= goal);
                            }
                            if perms == goal {
                                reached_goal = true;
                                proof {
                                    goal_wit = neighbor@;
                                    goal_sym = symbol as int;
                                }
                            }
                            let g_cost = search_depth + 1;
                            let h_cost = self.heuristic.cost(perms, g_cost);
                            let f_cost = g_cost + h_cost;
                            let ghost before = *self;
                            self.open_set.add(neighbor, f_cost, g_cost);
                            proof {
                                let e_new = (
                                    before.open_set.arena@.len() as int,
                                    f_cost as int,
                                    g_cost as int,
                                );
                                assert forall|e: (int, int, int)|
                                    #[trigger] self.open_set.entries().count(e)
                                    > 0 implies self.entry_ok(e) && perm_count(
                                    self.open_set.arena@[e.0]@,
                                    n,
                                ) <= goal by {
                                    if e == e_new && before.open_set.entries().count(e) == 0 {
                                        assert(self.open_set.arena@[e.0] == neighbor);
                                        assert(self.starts@.contains(cstart));
                                        assert(reach(
                                            t,
                                            n,
                                            cstart,
                                            self.open_set.arena@[e.0]@,
                                            e.2,
                                        ));
                                        assert(e.2 <= depth_limit());
                                        assert(perm_count(self.open_set.arena@[e.0]@, n) <= goal);
                                    } else {
                                        assert(before.open_set.entries().count(e) > 0);
                                        assert(before.entry_ok(e));
                                        let s = choose|s: Set<u32>|
                                            #[trigger] before.starts@.contains(s) && reach(
                                                t,
                                                n,
                                                s,
                                                before.open_set.arena@[e.0]@,
                                                e.2,
                                            );
                                        assert(self.open_set.arena@[e.0]
                                            == before.open_set.arena@[e.0]);
                                        assert(self.starts@.contains(s));
                                        assert(reach(t, n, s, self.open_set.arena@[e.0]@, e.2));
                                    }
                                }
                                assert forall|e: (int, int, int)|
                                    #[trigger] self.open_set.entries().count(e) > 0 && !reached_goal
                                    implies perm_count(self.open_set.arena@[e.0]@, n) <= goal
                                    - 1 by {
                                    if e == e_new && before.open_set.entries().count(e) == 0 {
                                    } else {
                                        assert(before.open_set.entries().count(e) > 0);
                                    }
                                }
                                assert forall|e: (int, int, int)|
                                    e.0 < old(self).open_set.arena@.len()
                                        implies #[trigger] self.open_set.entries().count(e) <= old(
                                    self,
                                ).open_set.entries().count(e) by {
                                    assert(e != e_new);
                                    assert(self.open_set.entries().count(e)
                                        == before.open_set.entries().count(e));
                                }
                                assert forall|e: (int, int, int)|
                                    #[trigger] self.open_set.entries().count(e) > 0 && e.0 >= old(
                                        self,
                                    ).open_set.arena@.len() implies self.entry_costed(e) by {
                                    if e == e_new {
                                        assert(self.open_set.arena@[e.0] == neighbor);
                                        assert(h_cost == self.heuristic.spec_cost(
                                            perms as int,
                                            g_cost as int,
                                        ));
                                    } else {
                                        assert(before.open_set.entries().count(e) > 0);
                                        assert(before.entry_costed(e));
                                        assert(self.open_set.arena@[e.0]
                                            == before.open_set.arena@[e.0]);
                                    }
                                }
                                assert forall|c: Set<u32>|
                                    #[trigger] self.closed_set@.dom().contains(c) implies (old(
                                    self,
                                ).closed_set@.dom().contains(c) && self.closed_set@[c] == old(
                                    self,
                                ).closed_set@[c]) || self.closed_entry_ok(c, goal as int) by {
                                    if !(old(self).closed_set@.dom().contains(c)
                                        && self.closed_set@[c] == old(self).closed_set@[c]) {
                                        assert(before.closed_entry_ok(c, goal as int));
                                        lemma_closed_entry_carry(before, *self, c, goal as int);
                                    }
                                }
                            }
                        }
                        symbol = symbol + 1;
                    }
                    let ghost before_close = *self;
                    self.closed_set.add(candidate, search_depth);
                    proof {
                        assert forall|e: (int, int, int)|
                            #[trigger] self.open_set.entries().count(e) > 0 implies self.entry_ok(
                            e,
                        ) by {
                            assert(before_close.open_set.entries().count(e) > 0);
                            assert(before_close.entry_ok(e));
                            let s = choose|s: Set<u32>|
                                #[trigger] before_close.starts@.contains(s) && reach(
                                    t,
                                    n,
                                    s,
                                    before_close.open_set.arena@[e.0]@,
                                    e.2,
                                );
                            assert(self.starts@.contains(s));
                            assert(reach(t, n, s, self.open_set.arena@[e.0]@, e.2));
                        }
                        assert forall|e: (int, int, int)|
                            #[trigger] self.open_set.entries().count(e) > 0 && e.0 >= old(
                                self,
                            ).open_set.arena@.len() implies self.entry_costed(e) by {
                            assert(before_close.entry_costed(e));
                        }
                        assert forall|c: Set<u32>|
                            #[trigger] old(self).closed_set@.dom().contains(c) implies
                            self.closed_set@.dom().contains(c) && self.closed_set@[c] <= old(
                            self,
                        ).closed_set@[c] by {
                            assert(before_close.closed_set@.dom().contains(c));
                            if c == candidate@ {
                                assert(before_close.closed_set@[c] <= old(self).closed_set@[c]);
                                assert(!(before_close.closed_set@[c] <= search_depth as nat));
                                assert(self.closed_set@[c] == search_depth as nat);
                            } else {
                                assert(self.closed_set@[c] == before_close.closed_set@[c]);
                            }
                        }
                        assert forall|c: Set<u32>|
                            #[trigger] self.closed_set@.dom().contains(c) implies (old(
                            self,
                        ).closed_set@.dom().contains(c) && self.closed_set@[c] == old(
                            self,
                        ).closed_set@[c]) || self.closed_entry_ok(c, goal as int) by {
                            if c == candidate@ {
                                assert(self.closed_set@[c] == search_depth as nat);
                                assert(self.starts@.contains(cstart));
                                assert(reach(t, n, cstart, c, self.closed_set@[c] as int));
                                assert(self.closed_entry_ok(c, goal as int));
                            } else {
                                assert(self.closed_set@[c] == before_close.closed_set@[c]);
                                assert(before_close.closed_set@.dom().contains(c));
                                if !(old(self).closed_set@.dom().contains(c) && self.closed_set@[c]
                                    == old(self).closed_set@[c]) {
                                    assert(before_close.closed_entry_ok(c, goal as int));
                                    lemma_closed_entry_carry(before_close, *self, c, goal as int);
                                }
                            }
                        }
                    }
                    if reached_goal {
                        proof {
                            assert(self.closed_set@.dom().contains(candidate@));
                            assert(self.closed_set@[candidate@] == search_depth as nat);
                            assert(perm_count(expand_bits(t, n, candidate@, goal_sym), n) == goal);
                            assert(self.starts@.contains(cstart));
                            assert(reach(t, n, cstart, goal_wit, search_depth + 1));
                            assert(perm_count(goal_wit, n) == goal);
                            assert(exists|s: Set<u32>, c: Set<u32>|
                                #![auto]
                                {
                                    &&& self.starts@.contains(s)
                                    &&& reach(t, n, s, c, search_depth + 1)
                                    &&& perm_count(c, n) == goal
                                });
                        }
                        return Some(search_depth + 1);
                    }
                },
            }
        }
        let ghost before_drain = *self;
        self.drain_frontier();
        proof {
            self.lemma_unmoved_carries(*old(self), before_drain, goal as int);
        }
        None
    }

    /// Replaces the held heuristic with a tightened one and reindexes the
    /// whole frontier: every queued candidate's f-cost is recomputed from
    /// its unchanged g-cost and the new bounds.
    pub fn update_heuristic(&mut self, heuristic: &Heuristic)
        requires
            old(self).inv(),
            heuristic.basic_inv(),
            old(self).open_perms_at_most(heuristic.lower_bounds@.len() - 1),
        ensures
            final(self).inv(),
            final(self).symmetry == old(self).symmetry,
            final(self).starts == old(self).starts,
            final(self).closed_set == old(self).closed_set,
            final(self).heuristic.starting_perms == heuristic.starting_perms,
            final(self).heuristic.distances@ == heuristic.distances@,
            final(self).heuristic.lower_bounds@ == heuristic.lower_bounds@,
            final(self).heuristic.max_depths@ == heuristic.max_depths@,
            final(self).open_set.entries().len() == old(self).open_set.entries().len(),
            forall|k: int|
                old(self).open_perms_at_most(k) ==> final(self).open_perms_at_most(k),
            forall|e: (int, int, int)|
                #[trigger] final(self).open_set.entries().count(e) > 0
                    ==> final(self).entry_costed(e),
            forall|b: Set<u32>, g: int|
                #[trigger] pair_count(
                    final(self).open_set.entries(),
                    final(self).open_set.arena@,
                    b,
                    g,
                ) == pair_count(old(self).open_set.entries(), old(self).open_set.arena@, b, g),
    {
        broadcast use vstd::multiset::group_multiset_axioms;

        let ghost n = self.symmetry.symbols as int;
        let ghost t = self.symmetry@;
        let mut stack: Vec<(Candidate, usize)> = Vec::new();
        let ghost mut sws: Seq<Set<u32>> = Seq::empty();
        while self.open_set.len() != 0
            invariant
                self.inv(),
                self.symmetry == old(self).symmetry,
                self.starts == old(self).starts,
                self.closed_set == old(self).closed_set,
                self.heuristic == old(self).heuristic,
                n == self.symmetry.symbols as int,
                t == self.symmetry@,
                self.open_set.arena@ == old(self).open_set.arena@,
                forall|e: (int, int, int)| #[trigger] self.open_set.entries().count(e) <= old(
                    self,
                ).open_set.entries().count(e),
                self.open_set.entries().len() + stack@.len() == old(
                    self,
                ).open_set.entries().len(),
                sws.len() == stack@.len(),
                forall|j: int| 0 <= j < stack@.len() ==> (#[trigger] stack@[j]).0.inv(),
                forall|j: int| 0 <= j < stack@.len() ==> (#[trigger] stack@[j]).0.symbols == n,
                forall|j: int| 0 <= j < stack@.len() ==> (#[trigger] stack@[j]).1 <= depth_limit(),
                forall|j: int| 0 <= j < sws.len() ==> old(self).starts@.contains(#[trigger] sws[j]),
                forall|j: int|
                    0 <= j < stack@.len() ==> reach(
                        t,
                        n,
                        sws[j],
                        (#[trigger] stack@[j]).0@,
                        stack@[j].1 as int,
                    ),
                forall|j: int, k: int|
                    #![trigger stack@[j], old(self).open_perms_at_most(k)]
                    0 <= j < stack@.len() && old(self).open_perms_at_most(k) ==> perm_count(
                        stack@[j].0@,
                        n,
                    ) <= k,
                forall|b: Set<u32>, g: int|
                    #[trigger] pair_count(self.open_set.entries(), self.open_set.arena@, b, g)
                        + stack_pairs(stack@, b, g) == pair_count(
                        old(self).open_set.entries(),
                        old(self).open_set.arena@,
                        b,
                        g,
                    ),
            decreases self.open_set.entries().len(),
        {
            let ghost pre = *self;
            let ghost stack0 = stack@;
            let ghost mut sw: Set<u32> = Set::empty();
            let ghost mut pew: (int, int, int) = (0, 0, 0);
            let popped = self.open_set.next();
            match popped {
                None => {
                    proof {
                        assert(false);
                    }
                },
                Some(pair) => {
                    proof {
                        let (pi, pf) = choose|i: int, f: int|
                            #![auto]
                            {
                                &&& pre.open_set.entries().count((i, f, pair.1 as int)) > 0
                                &&& self.open_set.entries() == pre.open_set.entries().remove(
                                    (i, f, pair.1 as int),
                                )
                                &&& pair.0@ == pre.open_set.candidate_at(i)@
                                &&& pair.0.symbols == pre.open_set.candidate_at(i).symbols
                                &&& pair.0.inv()
                            };
                        pew = (pi, pf, pair.1 as int);
                        assert(pre.open_set.entries().count(pew) > 0);
                        assert(pre.entry_ok(pew));
                        sw = choose|s: Set<u32>|
                            #[trigger] pre.starts@.contains(s) && reach(
                                t,
                                n,
                                s,
                                pre.open_set.arena@[pi]@,
                                pair.1 as int,
                            );
                        assert(old(self).starts@.contains(sw));
                        assert(reach(t, n, sw, pair.0@, pair.1 as int));
                        assert(pre.open_set.entries().count(pew) <= old(
                            self,
                        ).open_set.entries().count(pew));
                        assert(old(self).open_set.entries().count(pew) > 0);
                        assert(pair.0@ == old(self).open_set.arena@[pew.0]@);
                        assert forall|e2: (int, int, int)|
                            #[trigger] self.open_set.entries().count(e2) <= old(
                            self,
                        ).open_set.entries().count(e2) by {
                            assert(self.open_set.entries().count(e2) <= pre.open_set.entries()
                                .count(e2));
                            assert(pre.open_set.entries().count(e2) <= old(
                                self,
                            ).open_set.entries().count(e2));
                        }
                        assert forall|e2: (int, int, int)|
                            #[trigger] self.open_set.entries().count(e2) > 0 implies self.entry_ok(
                            e2,
                        ) by {
                            assert(self.open_set.entries().count(e2) <= pre.open_set.entries()
                                .count(e2));
                            assert(pre.entry_ok(e2));
                            let s = choose|s: Set<u32>|
                                #[trigger] pre.starts@.contains(s) && reach(
                                    t,
                                    n,
                                    s,
                                    pre.open_set.arena@[e2.0]@,
                                    e2.2,
                                );
                            assert(self.starts@.contains(s));
                            assert(reach(t, n, s, self.open_set.arena@[e2.0]@, e2.2));
                        }
                    }
                    stack.push(pair);
                    proof {
                        sws = sws.push(sw);
                        assert forall|b: Set<u32>, g: int|
                            #[trigger] pair_count(self.open_set.entries(), self.open_set.arena@, b, g)
                                + stack_pairs(stack@, b, g) == pair_count(
                                old(self).open_set.entries(),
                                old(self).open_set.arena@,
                                b,
                                g,
                            ) by {
                            lemma_pair_count_remove(
                                pre.open_set.entries(),
                                pre.open_set.arena@,
                                pew,
                                b,
                                g,
                            );
                            assert(self.open_set.entries() == pre.open_set.entries().remove(pew));
                            assert(stack@.drop_last() =~= stack0);
                            assert(stack@.last() == pair);
                            assert(pre.open_set.arena@[pew.0]@ == pair.0@);
                            assert(pew.2 == pair.1 as int);
                        }
                        assert forall|j: int, k: int|
                            #![trigger stack@[j], old(self).open_perms_at_most(k)]
                            0 <= j < stack@.len() && old(
                                self,
                            ).open_perms_at_most(k) implies perm_count(stack@[j].0@, n) <= k by {
                            if j < stack0.len() {
                                assert(stack@[j] == stack0[j]);
                            } else {
                                assert(stack@[j] == pair);
                                assert(old(self).open_set.entries().count(pew) > 0);
                                assert(perm_count(old(self).open_set.arena@[pew.0]@, n) <= k);
                            }
                        }
                    }
                },
            }
        }
        while stack.len() != 0
            invariant
                self.inv(),
                self.symmetry == old(self).symmetry,
                self.starts == old(self).starts,
                self.closed_set == old(self).closed_set,
                self.heuristic == old(self).heuristic,
                heuristic.basic_inv(),
                old(self).open_perms_at_most(heuristic.lower_bounds@.len() - 1),
                n == self.symmetry.symbols as int,
                t == self.symmetry@,
                self.open_set.entries().len() + stack@.len() == old(
                    self,
                ).open_set.entries().len(),
                sws.len() == stack@.len(),
                forall|j: int| 0 <= j < stack@.len() ==> (#[trigger] stack@[j]).0.inv(),
                forall|j: int| 0 <= j < stack@.len() ==> (#[trigger] stack@[j]).0.symbols == n,
                forall|j: int| 0 <= j < stack@.len() ==> (#[trigger] stack@[j]).1 <= depth_limit(),
                forall|j: int| 0 <= j < sws.len() ==> old(self).starts@.contains(#[trigger] sws[j]),
                forall|j: int|
                    0 <= j < stack@.len() ==> reach(
                        t,
                        n,
                        sws[j],
                        (#[trigger] stack@[j]).0@,
                        stack@[j].1 as int,
                    ),
                forall|j: int, k: int|
                    #![trigger stack@[j], old(self).open_perms_at_most(k)]
                    0 <= j < stack@.len() && old(self).open_perms_at_most(k) ==> perm_count(
                        stack@[j].0@,
                        n,
                    ) <= k,
                forall|e: (int, int, int), k: int|
                    #![trigger self.open_set.entries().count(e), old(self).open_perms_at_most(k)]
                    self.open_set.entries().count(e) > 0 && old(self).open_perms_at_most(k)
                        ==> perm_count(self.open_set.arena@[e.0]@, n) <= k,
                self.open_set.arena@.len() >= old(self).open_set.arena@.len(),
                forall|i: int|
                    0 <= i < old(self).open_set.arena@.len() ==> self.open_set.arena@[i] == old(
                        self,
                    ).open_set.arena@[i],
                forall|e: (int, int, int)|
                    #[trigger] self.open_set.entries().count(e) > 0 ==> e.1 == e.2
                        + heuristic.spec_cost(perm_count(self.open_set.arena@[e.0]@, n), e.2),
                forall|b: Set<u32>, g: int|
                    #[trigger] pair_count(self.open_set.entries(), self.open_set.arena@, b, g)
                        + stack_pairs(stack@, b, g) == pair_count(
                        old(self).open_set.entries(),
                        old(self).open_set.arena@,
                        b,
                        g,
                    ),
            decreases stack@.len(),
        {
            let ghost stack0 = stack@;
            let ghost sws0 = sws;
            let popped = stack.pop();
            match popped {
                None => {
                    proof {
                        assert(false);
                    }
                },
                Some((candidate, g_cost)) => {
                    let ghost j = stack@.len() as int;
                    let ghost c_bits = candidate@;
                    proof {
                        sws = sws.drop_last();
                        assert(stack0[j] == (candidate, g_cost));
                        assert(old(self).open_perms_at_most(heuristic.lower_bounds@.len() - 1));
                        assert(perm_count(c_bits, n) <= heuristic.lower_bounds@.len() - 1);
                    }
                    let perms = candidate.number_of_permutations();
                    let h_cost = heuristic.cost(perms, g_cost);
                    let f_cost = g_cost + h_cost;
                    let ghost before = *self;
                    self.open_set.add(candidate, f_cost, g_cost);
                    proof {
                        let e_new = (
                            before.open_set.arena@.len() as int,
                            f_cost as int,
                            g_cost as int,
                        );
                        let sw = sws0.last();
                        assert(old(self).starts@.contains(sw));
                        assert(reach(t, n, sw, c_bits, g_cost as int));
                        assert forall|e: (int, int, int)|
                            #[trigger] self.open_set.entries().count(e) > 0 implies self.entry_ok(
                            e,
                        ) by {
                            if e == e_new && before.open_set.entries().count(e) == 0 {
                                assert(self.open_set.arena@[e.0]@ == c_bits);
                                assert(self.starts@.contains(sw));
                                assert(reach(t, n, sw, self.open_set.arena@[e.0]@, e.2));
                            } else {
                                assert(before.open_set.entries().count(e) > 0);
                                assert(before.entry_ok(e));
                                let s = choose|s: Set<u32>|
                                    #[trigger] before.starts@.contains(s) && reach(
                                        t,
                                        n,
                                        s,
                                        before.open_set.arena@[e.0]@,
                                        e.2,
                                    );
                                assert(self.open_set.arena@[e.0] == before.open_set.arena@[e.0]);
                                assert(self.starts@.contains(s));
                                assert(reach(t, n, s, self.open_set.arena@[e.0]@, e.2));
                            }
                        }
                        assert forall|e: (int, int, int), k: int|
                            #![trigger self.open_set.entries().count(e), old(self).open_perms_at_most(k)]
                            self.open_set.entries().count(e) > 0 && old(
                                self,
                            ).open_perms_at_most(k) implies perm_count(
                            self.open_set.arena@[e.0]@,
                            n,
                        ) <= k by {
                            if e == e_new && before.open_set.entries().count(e) == 0 {
                                assert(stack0[j] == (candidate, g_cost));
                                assert(perm_count(stack0[j].0@, n) <= k);
                                assert(self.open_set.arena@[e.0]@ == c_bits);
                            } else {
                                assert(before.open_set.entries().count(e) > 0);
                                assert(self.open_set.arena@[e.0] == before.open_set.arena@[e.0]);
                            }
                        }
                        assert forall|e: (int, int, int)|
                            #[trigger] self.open_set.entries().count(e) > 0 implies e.1 == e.2
                            + heuristic.spec_cost(
                            perm_count(self.open_set.arena@[e.0]@, n),
                            e.2,
                        ) by {
                            if e == e_new && before.open_set.entries().count(e) == 0 {
                                assert(self.open_set.arena@[e.0]@ == c_bits);
                                assert(perms == perm_count(c_bits, n));
                                assert(h_cost == heuristic.spec_cost(perms as int, g_cost as int));
                            } else {
                                assert(before.open_set.entries().count(e) > 0);
                                assert(self.open_set.arena@[e.0] == before.open_set.arena@[e.0]);
                            }
                        }
                        assert forall|b: Set<u32>, g: int|
                            #[trigger] pair_count(
                                self.open_set.entries(),
                                self.open_set.arena@,
                                b,
                                g,
                            ) + stack_pairs(stack@, b, g) == pair_count(
                            old(self).open_set.entries(),
                            old(self).open_set.arena@,
                            b,
                            g,
                        ) by {
                            assert(pair_count(before.open_set.entries(), before.open_set.arena@, b, g)
                                + stack_pairs(stack0, b, g) == pair_count(
                                old(self).open_set.entries(),
                                old(self).open_set.arena@,
                                b,
                                g,
                            ));
                            assert forall|e2: (int, int, int)|
                                #[trigger] before.open_set.entries().count(e2) > 0 implies 0 <= e2.0
                                < before.open_set.arena@.len() by {}
                            lemma_pair_count_grow(
                                before.open_set.entries(),
                                before.open_set.arena@,
                                self.open_set.arena@,
                                b,
                                g,
                            );
                            lemma_pair_count_insert(
                                before.open_set.entries(),
                                self.open_set.arena@,
                                e_new,
                                b,
                                g,
                            );
                            assert(self.open_set.entries() == before.open_set.entries().insert(
                                e_new,
                            ));
                            assert(self.open_set.arena@[e_new.0]@ == c_bits);
                            assert(stack0.drop_last() =~= stack@);
                            assert(stack0.last() == (candidate, g_cost));
                            assert(stack_pairs(stack0, b, g) == stack_pairs(stack@, b, g) + (
                            if c_bits == b && g_cost == g {
                                1int
                            } else {
                                0int
                            }));
                        }
                    }
                },
            }
        }
        self.heuristic = heuristic.clone();
        proof {
            assert forall|e: (int, int, int)| #[trigger] self.open_set.entries().count(e)
                > 0 implies self.entry_ok(e) by {
                let prev = Search {
                    heuristic: old(self).heuristic,
                    symmetry: self.symmetry,
                    open_set: self.open_set,
                    closed_set: self.closed_set,
                    starts: self.starts,
                };
                assert(prev.open_set.entries().count(e) > 0);
                assert(prev.entry_ok(e));
                let s = choose|s: Set<u32>|
                    #[trigger] prev.starts@.contains(s) && reach(
                        t,
                        n,
                        s,
                        prev.open_set.arena@[e.0]@,
                        e.2,
                    );
                assert(self.starts@.contains(s));
                assert(reach(t, n, s, self.open_set.arena@[e.0]@, e.2));
            }
            assert forall|k: int|
                old(self).open_perms_at_most(k) implies self.open_perms_at_most(k) by {
                assert forall|e: (int, int, int)| #[trigger] self.open_set.entries().count(e)
                    > 0 implies perm_count(self.open_set.arena@[e.0]@, n) <= k by {
                    assert(old(self).open_perms_at_most(k));
                }
            }
            assert forall|e: (int, int, int)| #[trigger] self.open_set.entries().count(e)
                > 0 implies self.entry_costed(e) by {
                assert(e.1 == e.2 + heuristic.spec_cost(
                    perm_count(self.open_set.arena@[e.0]@, n),
                    e.2,
                ));
                assert(self.heuristic.spec_cost(perm_count(self.open_set.arena@[e.0]@, n), e.2)
                    == heuristic.spec_cost(perm_count(self.open_set.arena@[e.0]@, n), e.2));
            }
            assert forall|b: Set<u32>, g: int|
                #[trigger] pair_count(self.open_set.entries(), self.open_set.arena@, b, g)
                    == pair_count(
                    old(self).open_set.entries(),
                    old(self).open_set.arena@,
                    b,
                    g,
                ) by {
                assert(stack@.len() == 0);
                assert(stack_pairs(stack@, b, g) == 0);
            }
        }
    }

    pub fn open_set_len(&self) -> (r: usize)
        ensures
            r == self.open_set.entries().len(),
    {
        self.open_set.len()
    }

    pub fn closed_set_len(&self) -> (r: usize)
        requires
            self.closed_set.inv(),
        ensures
            r == self.closed_set@.dom().len(),
    {
        self.closed_set.len()
    }
}

} // verus!
