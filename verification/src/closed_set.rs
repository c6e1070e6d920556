//! The deduplicating store of finalized candidates.  Each candidate is kept
//! with the best g-cost at which it was finalized; a candidate counts as
//! closed only at costs no better than that, so a cheaper path found later
//! may still re-open it.  Keys are the candidates' bit-vectors, and lookup
//! is a linear scan over the entries: an ordered index over opaque bitmaps
//! would have nothing to hang its order on.

use vstd::prelude::*;
use crate::candidate::Candidate;
use crate::roaring::bitmap_eq;

verus! {

/// The map that an entry list denotes: later entries override earlier ones.
pub open spec fn map_of(s: Seq<(Candidate, usize)>) -> Map<Set<u32>, nat>
    decreases s.len(),
{
    if s.len() == 0 {
        Map::empty()
    } else {
        map_of(s.drop_last()).insert(s.last().0@, s.last().1 as nat)
    }
}

/// A key occurs in the denoted map exactly when some entry carries it, and
/// with unique keys each entry gives its key's value.
proof fn lemma_map_of_entries(s: Seq<(Candidate, usize)>)
    ensures
        forall|key: Set<u32>| #[trigger] map_of(s).dom().contains(key) <==> exists|i: int|
            0 <= i < s.len() && (#[trigger] s[i].0)@ == key,
        (forall|i: int, j: int|
            0 <= i < j < s.len() ==> (#[trigger] s[i].0)@ != (#[trigger] s[j].0)@) ==> forall|
            i: int,
        |
            0 <= i < s.len() ==> map_of(s)[(#[trigger] s[i].0)@] == s[i].1 as nat,
    decreases s.len(),
{
    if s.len() > 0 {
        lemma_map_of_entries(s.drop_last());
        assert forall|key: Set<u32>| #[trigger] map_of(s).dom().contains(key) implies exists|
            i: int,
        | 0 <= i < s.len() && (#[trigger] s[i].0)@ == key by {
            if key == s.last().0@ {
                assert(s[s.len() - 1].0@ == key);
            } else {
                assert(map_of(s).dom() == map_of(s.drop_last()).dom().insert(s.last().0@));
                assert(map_of(s.drop_last()).dom().contains(key));
                let i = choose|i: int|
                    0 <= i < s.drop_last().len() && (#[trigger] s.drop_last()[i].0)@ == key;
                assert(s.drop_last()[i] == s[i]);
                assert(s[i].0@ == key);
            }
        }
        assert forall|key: Set<u32>|
            (exists|i: int| 0 <= i < s.len() && (#[trigger] s[i].0)@ == key) implies #[trigger] map_of(
            s,
        ).dom().contains(key) by {
            let i = choose|i: int| 0 <= i < s.len() && (#[trigger] s[i].0)@ == key;
            assert(map_of(s).dom() == map_of(s.drop_last()).dom().insert(s.last().0@));
            if i < s.len() - 1 {
                assert(s.drop_last()[i].0@ == key);
                assert(map_of(s.drop_last()).dom().contains(key));
            }
        }
        if forall|i: int, j: int|
            0 <= i < j < s.len() ==> (#[trigger] s[i].0)@ != (#[trigger] s[j].0)@ {
            assert forall|i: int| 0 <= i < s.len() implies map_of(s)[(#[trigger] s[i].0)@] == s[i].1
                as nat by {
                if i < s.len() - 1 {
                    assert(s.drop_last()[i].0@ == s[i].0@);
                    assert(s[i].0@ != s[s.len() - 1].0@);
                    assert(map_of(s.drop_last())[s[i].0@] == s[i].1 as nat);
                }
            }
        }
    }
}

/// With unique keys, the denoted map has one entry per list element.
proof fn lemma_map_of_len(s: Seq<(Candidate, usize)>)
    requires
        forall|i: int, j: int|
            0 <= i < j < s.len() ==> (#[trigger] s[i].0)@ != (#[trigger] s[j].0)@,
    ensures
        map_of(s).dom().len() == s.len(),
        map_of(s).dom().finite(),
    decreases s.len(),
{
    if s.len() > 0 {
        lemma_map_of_len(s.drop_last());
        lemma_map_of_entries(s.drop_last());
        assert(!map_of(s.drop_last()).dom().contains(s.last().0@)) by {
            if map_of(s.drop_last()).dom().contains(s.last().0@) {
                let i = choose|i: int|
                    0 <= i < s.drop_last().len() && (#[trigger] s.drop_last()[i].0)@ == s.last().0@;
                assert(s[i].0@ == s[s.len() - 1].0@);
            }
        }
        assert(map_of(s).dom() =~= map_of(s.drop_last()).dom().insert(s.last().0@));
    } else {
        assert(map_of(s).dom() =~= Set::<Set<u32>>::empty());
    }
}

pub struct ClosedSet {
    pub candidates: Vec<(Candidate, usize)>,
}

impl View for ClosedSet {
    type V = Map<Set<u32>, nat>;

    open spec fn view(&self) -> Map<Set<u32>, nat> {
        map_of(self.candidates@)
    }
}

impl ClosedSet {
    /// Entries keep pairwise distinct bit-vectors.
    pub open spec fn inv(self) -> bool {
        forall|i: int, j: int|
            0 <= i < j < self.candidates@.len() ==> (#[trigger] self.candidates@[i].0)@ != (
            #[trigger] self.candidates@[j].0)@
    }

    pub fn new() -> (r: ClosedSet)
        ensures
            r.inv(),
            r@ == Map::<Set<u32>, nat>::empty(),
            r.candidates@.len() == 0,
    {
        ClosedSet { candidates: Vec::new() }
    }

    /// Finalizes a candidate at cost `g_cost`, replacing any earlier record
    /// of the same bit-vector.
    pub fn add(&mut self, candidate: Candidate, g_cost: usize)
        requires
            old(self).inv(),
        ensures
            final(self).inv(),
            final(self)@ == old(self)@.insert(candidate@, g_cost as nat),
    {
        let ghost s0 = self.candidates@;
        let mut j: usize = 0;
        let n = self.candidates.len();
        while j < n
            invariant
                self.inv(),
                self.candidates@ == s0,
                s0 == old(self).candidates@,
                n == s0.len(),
                j <= n,
                forall|i: int| 0 <= i < j ==> (#[trigger] s0[i].0)@ != candidate@,
            decreases n - j,
        {
            let same = bitmap_eq(&self.candidates[j].0.bitmap, &candidate.bitmap);
            if same {
                let slot = vstd::std_specs::vec::vec_index_mut(&mut self.candidates, j);
                *slot = (candidate, g_cost);
                proof {
                    lemma_map_of_replace(s0, j as int, candidate, g_cost);
                    assert(self.candidates@ == s0.update(j as int, (candidate, g_cost)));
                    assert forall|a: int, b: int|
                        0 <= a < b < self.candidates@.len() implies (
                    #[trigger] self.candidates@[a].0)@ != (#[trigger] self.candidates@[b].0)@ by {
                        assert(s0[a].0@ != s0[b].0@);
                        assert(a == j ==> self.candidates@[a].0@ == s0[a].0@);
                        assert(b == j ==> self.candidates@[b].0@ == s0[b].0@);
                    }
                }
                return ;
            }
            j = j + 1;
        }
        let ghost key = candidate@;
        self.candidates.push((candidate, g_cost));
        proof {
            assert(self.candidates@.drop_last() =~= s0);
            assert(self.candidates@.last().0@ == key);
            assert forall|i: int, j2: int|
                0 <= i < j2 < self.candidates@.len() implies (#[trigger] self.candidates@[i].0)@
                != (#[trigger] self.candidates@[j2].0)@ by {
                if j2 == self.candidates@.len() - 1 {
                    assert(s0[i].0@ != key);
                }
            }
        }
    }

    /// A candidate is closed at `g_cost` when it was finalized at a cost no
    /// greater than `g_cost`; a cheaper path re-opens it.
    pub fn contains(&self, candidate: &Candidate, g_cost: usize) -> (r: bool)
        requires
            self.inv(),
        ensures
            r == (self@.dom().contains(candidate@) && self@[candidate@] <= g_cost),
    {
        proof {
            lemma_map_of_entries(self.candidates@);
        }
        let mut j: usize = 0;
        let n = self.candidates.len();
        while j < n
            invariant
                self.inv(),
                n == self.candidates@.len(),
                j <= n,
                forall|i: int| 0 <= i < j ==> (#[trigger] self.candidates@[i].0)@ != candidate@,
            decreases n - j,
        {
            let same = bitmap_eq(&self.candidates[j].0.bitmap, &candidate.bitmap);
            if same {
                proof {
                    lemma_map_of_entries(self.candidates@);
                    assert(map_of(self.candidates@)[self.candidates@[j as int].0@]
                        == self.candidates@[j as int].1 as nat);
                }
                return self.candidates[j].1 <= g_cost;
            }
            j = j + 1;
        }
        proof {
            if self@.dom().contains(candidate@) {
                lemma_map_of_entries(self.candidates@);
                let i = choose|i: int|
                    0 <= i < self.candidates@.len() && (#[trigger] self.candidates@[i].0)@
                        == candidate@;
            }
        }
        false
    }

    /// Number of finalized candidates.
    pub fn len(&self) -> (r: usize)
        requires
            self.inv(),
        ensures
            r == self@.dom().len(),
    {
        proof {
            lemma_map_of_len(self.candidates@);
        }
        self.candidates.len()
    }
}

/// Overwriting the one entry that carries `key` denotes the same map as
/// inserting `key` anew.
proof fn lemma_map_of_replace(s: Seq<(Candidate, usize)>, j: int, candidate: Candidate, g: usize)
    requires
        0 <= j < s.len(),
        forall|i: int, k: int|
            0 <= i < k < s.len() ==> (#[trigger] s[i].0)@ != (#[trigger] s[k].0)@,
        s[j].0@ == candidate@,
    ensures
        map_of(s.update(j, (candidate, g))) == map_of(s).insert(candidate@, g as nat),
    decreases s.len(),
{
    let t = s.update(j, (candidate, g));
    if j == s.len() - 1 {
        assert(t.drop_last() =~= s.drop_last());
        assert(t.last() == (candidate, g));
        assert(map_of(s).insert(candidate@, g as nat) =~= map_of(s.drop_last()).insert(
            candidate@,
            g as nat,
        ));
    } else {
        assert(t.drop_last() =~= s.drop_last().update(j, (candidate, g)));
        assert(t.last() == s.last());
        lemma_map_of_replace(s.drop_last(), j, candidate, g);
        assert(map_of(t) == map_of(s.drop_last()).insert(candidate@, g as nat).insert(
            s.last().0@,
            s.last().1 as nat,
        ));
        assert(s[j].0@ != s[s.len() - 1].0@);
        assert(map_of(s.drop_last()).insert(candidate@, g as nat).insert(
            s.last().0@,
            s.last().1 as nat,
        ) =~= map_of(s.drop_last()).insert(s.last().0@, s.last().1 as nat).insert(
            candidate@,
            g as nat,
        ));
    }
}

} // verus!
