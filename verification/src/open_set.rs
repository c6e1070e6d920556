//! The open frontier: not-yet-finalized candidates ordered by estimated
//! total cost.  Candidates live in an arena and the bucket queue holds
//! their indices, keyed by f-cost and sub-bucketed by g-cost; `next`
//! removes a candidate of least f-cost, preferring the greatest g-cost
//! within that bucket.

use vstd::prelude::*;
use vstd::multiset::Multiset;
use crate::buckets::{
    frontier_entries, frontier_len, frontier_max_priority, frontier_min_priority, frontier_new,
    frontier_pop, frontier_push, FrontierQueue,
};
use crate::candidate::Candidate;

verus! {

/// `f` is the least f-cost among the entries.
pub open spec fn is_min_f(es: Multiset<(int, int, int)>, f: int) -> bool {
    forall|e: (int, int, int)| #[trigger] es.count(e) > 0 ==> f <= e.1
}

/// `f` is at least every f-cost among the entries.
pub open spec fn is_max_g_overall(es: Multiset<(int, int, int)>, f: int) -> bool {
    forall|e: (int, int, int)| #[trigger] es.count(e) > 0 ==> e.1 <= f
}

/// `g` is the greatest g-cost among the entries whose f-cost is `f`.
pub open spec fn is_max_g_at(es: Multiset<(int, int, int)>, f: int, g: int) -> bool {
    forall|e: (int, int, int)| #[trigger] es.count(e) > 0 && e.1 == f ==> e.2 <= g
}

/// Whether an entry carries the bit-vector `b` at g-cost `g`.
pub open spec fn pair_pred(arena: Seq<Candidate>, b: Set<u32>, g: int) -> spec_fn(
    (int, int, int),
) -> bool {
    |e: (int, int, int)| arena[e.0]@ == b && e.2 == g
}

/// How many entries carry the bit-vector `b` at g-cost `g`: the candidate
/// content of the frontier, blind to f-costs and to arena positions.
pub open spec fn pair_count(
    es: Multiset<(int, int, int)>,
    arena: Seq<Candidate>,
    b: Set<u32>,
    g: int,
) -> nat {
    es.filter(pair_pred(arena, b, g)).len()
}

/// Removing an entry lowers the matching pair count exactly when the entry
/// carries the pair.
pub proof fn lemma_pair_count_remove(
    es: Multiset<(int, int, int)>,
    arena: Seq<Candidate>,
    e: (int, int, int),
    b: Set<u32>,
    g: int,
)
    requires
        es.count(e) > 0,
    ensures
        pair_count(es.remove(e), arena, b, g) + (if arena[e.0]@ == b && e.2 == g {
            1int
        } else {
            0int
        }) == pair_count(es, arena, b, g),
{
    broadcast use vstd::multiset::group_multiset_axioms;

    let f = pair_pred(arena, b, g);
    if f(e) {
        assert(es.filter(f) =~= es.remove(e).filter(f).insert(e)) by {
            assert forall|v: (int, int, int)|
                es.filter(f).count(v) == es.remove(e).filter(f).insert(e).count(v) by {
                if v == e {
                } else {
                    assert(es.remove(e).count(v) == es.count(v));
                }
            }
        }
        vstd::multiset::lemma_insert_len(es.remove(e).filter(f), e);
    } else {
        assert(es.filter(f) =~= es.remove(e).filter(f)) by {
            assert forall|v: (int, int, int)|
                es.filter(f).count(v) == es.remove(e).filter(f).count(v) by {
                if v != e {
                    assert(es.remove(e).count(v) == es.count(v));
                }
            }
        }
    }
}

/// Inserting an entry raises the matching pair count exactly when the
/// entry carries the pair.
pub proof fn lemma_pair_count_insert(
    es: Multiset<(int, int, int)>,
    arena: Seq<Candidate>,
    e: (int, int, int),
    b: Set<u32>,
    g: int,
)
    ensures
        pair_count(es.insert(e), arena, b, g) == pair_count(es, arena, b, g) + (if arena[e.0]@ == b
            && e.2 == g {
            1int
        } else {
            0int
        }),
{
    broadcast use vstd::multiset::group_multiset_axioms;

    lemma_pair_count_remove(es.insert(e), arena, e, b, g);
    assert(es.insert(e).remove(e) =~= es);
}

/// Growing the arena beyond every index in use leaves pair counts alone.
pub proof fn lemma_pair_count_grow(
    es: Multiset<(int, int, int)>,
    arena: Seq<Candidate>,
    arena2: Seq<Candidate>,
    b: Set<u32>,
    g: int,
)
    requires
        arena2.len() >= arena.len(),
        forall|i: int| 0 <= i < arena.len() ==> arena2[i] == arena[i],
        forall|e: (int, int, int)| #[trigger] es.count(e) > 0 ==> 0 <= e.0 < arena.len(),
    ensures
        pair_count(es, arena2, b, g) == pair_count(es, arena, b, g),
{
    broadcast use vstd::multiset::group_multiset_axioms;

    let f1 = pair_pred(arena, b, g);
    let f2 = pair_pred(arena2, b, g);
    assert(es.filter(f1) =~= es.filter(f2)) by {
        assert forall|v: (int, int, int)| es.filter(f1).count(v) == es.filter(f2).count(v) by {
            if es.count(v) > 0 {
                assert(arena2[v.0] == arena[v.0]);
            }
        }
    }
}

/// The arena is append-only: a slot, once filled, keeps its candidate for
/// the life of the set, so an entry's index stays meaningful however the
/// queue around it moves.  The price is that memory grows with the total
/// number of enqueues, not with the live frontier.
pub struct OpenSet {
    pub queue: FrontierQueue,
    pub arena: Vec<Candidate>,
}

impl OpenSet {
    /// The (arena index, f-cost, g-cost) entries currently enqueued.
    pub open spec fn entries(self) -> Multiset<(int, int, int)> {
        frontier_entries(self.queue)
    }

    /// The candidate an entry refers to.
    pub open spec fn candidate_at(self, i: int) -> Candidate {
        self.arena@[i]
    }

    /// Every entry points into the arena with sane costs, and arena
    /// candidates are well formed.
    pub open spec fn inv(self) -> bool {
        &&& forall|e: (int, int, int)| #[trigger] self.entries().count(e) > 0 ==> 0 <= e.0
            < self.arena@.len() && 0 <= e.1 && 0 <= e.2
        &&& forall|i: int| 0 <= i < self.arena@.len() ==> (#[trigger] self.arena@[i]).inv()
    }

    /// All enqueued candidates belong to an `n`-symbol alphabet.
    pub open spec fn uniform(self, n: int) -> bool {
        forall|i: int| 0 <= i < self.arena@.len() ==> (#[trigger] self.arena@[i]).symbols == n
    }

    pub fn new() -> (r: OpenSet)
        ensures
            r.inv(),
            r.entries() == Multiset::<(int, int, int)>::empty(),
            r.entries().len() == 0,
            r.arena@.len() == 0,
    {
        let r = OpenSet { queue: frontier_new(), arena: Vec::new() };
        proof {
            broadcast use vstd::multiset::group_multiset_axioms;

        }
        r
    }

    /// Enqueues a candidate under its f-cost, sub-bucketed by g-cost.
    pub fn add(&mut self, candidate: Candidate, f_cost: usize, g_cost: usize)
        requires
            old(self).inv(),
            candidate.inv(),
        ensures
            final(self).inv(),
            final(self).arena@ == old(self).arena@.push(candidate),
            final(self).entries() == old(self).entries().insert(
                (old(self).arena@.len() as int, f_cost as int, g_cost as int),
            ),
            final(self).entries().len() == old(self).entries().len() + 1,
            forall|n: int| old(self).uniform(n) && candidate.symbols == n ==> final(self).uniform(
                n,
            ),
    {
        let item = self.arena.len();
        self.arena.push(candidate);
        frontier_push(&mut self.queue, item, f_cost, g_cost);
        proof {
            broadcast use vstd::multiset::group_multiset_axioms;

            let e_new = (item as int, f_cost as int, g_cost as int);
            assert forall|e: (int, int, int)| #[trigger] self.entries().count(e) > 0 implies 0
                <= e.0 < self.arena@.len() && 0 <= e.1 && 0 <= e.2 by {
                if e != e_new {
                    assert(old(self).entries().count(e) == self.entries().count(e));
                }
            }
            assert(self.entries().len() == old(self).entries().len() + 1);
        }
    }

    /// Removes and returns a candidate with the least f-cost, breaking ties
    /// by the greatest g-cost within that f-bucket, together with its
    /// g-cost; `None` once the frontier is exhausted.
    pub fn next(&mut self) -> (r: Option<(Candidate, usize)>)
        requires
            old(self).inv(),
        ensures
            final(self).inv(),
            final(self).arena@ == old(self).arena@,
            r is None ==> final(self).entries() == old(self).entries() && old(
                self,
            ).entries().len() == 0,
            r matches Some(p) ==> exists|i: int, f: int|
                #![auto]
                {
                    &&& old(self).entries().count((i, f, p.1 as int)) > 0
                    &&& is_min_f(old(self).entries(), f)
                    &&& is_max_g_at(old(self).entries(), f, p.1 as int)
                    &&& final(self).entries() == old(self).entries().remove((i, f, p.1 as int))
                    &&& final(self).entries().len() == old(self).entries().len() - 1
                    &&& p.0@ == old(self).candidate_at(i)@
                    &&& p.0.symbols == old(self).candidate_at(i).symbols
                    &&& p.0.inv()
                },
    {
        proof {
            broadcast use vstd::multiset::group_multiset_axioms;

        }
        let ghost es0 = frontier_entries(old(self).queue);
        let ghost mut fw: int = 0;
        match frontier_pop(&mut self.queue) {
            None => {
                proof {
                    assert(frontier_entries(old(self).queue).len() == 0);
                }
                None
            },
            Some((item, g_cost)) => {
                proof {
                    broadcast use vstd::multiset::group_multiset_axioms;

                    fw = choose|f: int|
                        #![auto]
                        {
                            &&& es0.count((item as int, f, g_cost as int)) > 0
                            &&& (forall|e: (int, int, int)| es0.count(e) > 0 ==> f <= e.1)
                            &&& (forall|e: (int, int, int)|
                                es0.count(e) > 0 && e.1 == f ==> e.2 <= g_cost as int)
                            &&& frontier_entries(self.queue) == es0.remove(
                                (item as int, f, g_cost as int),
                            )
                        };
                    let e = (item as int, fw, g_cost as int);
                    assert(es0.count(e) > 0);
                    assert(old(self).entries().count(e) > 0);
                    assert(0 <= item < old(self).arena@.len());
                    assert(Multiset::singleton(e).subset_of(es0)) by {
                        assert forall|v: (int, int, int)|
                            Multiset::singleton(e).count(v) <= es0.count(v) by {
                            if v == e {
                            } else {
                                assert(Multiset::singleton(e).count(v) == 0);
                            }
                        }
                    }
                    assert(es0.remove(e).len() == es0.len() - 1);
                    assert forall|e2: (int, int, int)|
                        #[trigger] frontier_entries(self.queue).count(e2) > 0 implies es0.count(e2)
                        > 0 by {
                        assert(frontier_entries(self.queue).count(e2) <= es0.count(e2));
                    }
                }
                let candidate = self.arena[item].clone();
                proof {
                    let e = (item as int, fw, g_cost as int);
                    assert(is_min_f(old(self).entries(), fw));
                    assert(is_max_g_at(old(self).entries(), fw, g_cost as int));
                    assert(self.entries() == old(self).entries().remove(e));
                    assert(candidate@ == old(self).candidate_at(item as int)@);
                    assert(candidate.inv());
                }
                let r: Option<(Candidate, usize)> = Some((candidate, g_cost));
                proof {
                    assert(r matches Some(p) ==> {
                        &&& old(self).entries().count((item as int, fw, p.1 as int)) > 0
                        &&& is_min_f(old(self).entries(), fw)
                        &&& is_max_g_at(old(self).entries(), fw, p.1 as int)
                        &&& self.entries() == old(self).entries().remove(
                            (item as int, fw, p.1 as int),
                        )
                        &&& self.entries().len() == old(self).entries().len() - 1
                        &&& p.0@ == old(self).candidate_at(item as int)@
                        &&& p.0.symbols == old(self).candidate_at(item as int).symbols
                        &&& p.0.inv()
                    });
                }
                r
            },
        }
    }

    /// Total number of enqueued candidates.
    pub fn len(&self) -> (r: usize)
        ensures
            r == self.entries().len(),
    {
        frontier_len(&self.queue)
    }

    /// The least f-cost on the frontier, if any.
    pub fn minimum_f_cost(&self) -> (r: Option<usize>)
        ensures
            r is None ==> self.entries().len() == 0,
            r matches Some(f) ==> (exists|e: (int, int, int)|
                #![auto]
                self.entries().count(e) > 0 && e.1 == f as int) && is_min_f(
                self.entries(),
                f as int,
            ),
    {
        frontier_min_priority(&self.queue)
    }

    /// The greatest f-cost on the frontier, if any.
    pub fn maximum_f_cost(&self) -> (r: Option<usize>)
        ensures
            r is None ==> self.entries().len() == 0,
            r matches Some(f) ==> (exists|e: (int, int, int)|
                #![auto]
                self.entries().count(e) > 0 && e.1 == f as int) && is_max_g_overall(
                self.entries(),
                f as int,
            ),
    {
        frontier_max_priority(&self.queue)
    }
}

} // verus!
