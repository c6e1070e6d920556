//! The search state: a fixed-capacity bit-vector over `n! + n - 2` positions.
//! Bit `r` of the permutation region `[0, n!)` records that the permutation
//! of rank `r` has appeared as a window of the string built so far; the
//! `n - 2` counter bits above it form a ladder saying how many more symbols
//! must be appended before a new permutation can possibly appear.

use vstd::prelude::*;
use core::cmp::Ordering;
use crate::roaring::{
    bits_of, bitmap_add, bitmap_cardinality, bitmap_clone, bitmap_contains, bitmap_eq, bitmap_new,
    bitmap_run_optimize, bitmap_to_vec,
};
use crate::symmetry::{chosen_mapping, Symmetry};
use crate::util::{fact, lemma_fact_pos, Util};

verus! {

/// Where a bit-index mapping sends a whole bit-vector.
pub open spec fn apply_mapping(m: Seq<u32>, bits: Set<u32>) -> Set<u32> {
    bits.map(|b: u32| m[b as int])
}

/// The bit-vector that expanding by `sym` produces: relabel every set bit
/// through the chosen mapping, then set the fixed ground-truth bit.
pub open spec fn expand_bits(t: Seq<Seq<Seq<u32>>>, n: int, bits: Set<u32>, sym: int) -> Set<u32> {
    apply_mapping(chosen_mapping(t, bits, sym), bits).insert(fact(n as nat) as u32)
}

/// The permutation bits of a bit-vector: how many permutations the
/// represented string has shown.
pub open spec fn perm_count(bits: Set<u32>, n: int) -> int {
    bits.intersect(Set::<u32>::range(0u32, fact(n as nat) as u32)).len() as int
}

/// A mapped finite set is no larger than its source.
proof fn lemma_map_len_le(s: Set<u32>, f: spec_fn(u32) -> u32)
    requires
        s.finite(),
    ensures
        s.map(f).finite(),
        s.map(f).len() <= s.len(),
    decreases s.len(),
{
    if s.len() == 0 {
        s.lemma_len0_is_empty();
        assert(s.map(f) =~= Set::<u32>::empty());
    } else {
        assert(exists|x: u32| s.contains(x)) by {
            if !(exists|x: u32| s.contains(x)) {
                assert(s =~= Set::<u32>::empty());
            }
        }
        let x = choose|x: u32| s.contains(x);
        let s2 = s.remove(x);
        lemma_map_len_le(s2, f);
        assert forall|y: u32| s.map(f).contains(y) implies s2.map(f).insert(f(x)).contains(y) by {
            let a = choose|a: u32| s.contains(a) && f(a) == y;
            if a != x {
                assert(s2.contains(a));
            }
        }
        assert forall|y: u32| s2.map(f).insert(f(x)).contains(y) implies s.map(f).contains(y) by {
            if y == f(x) {
                assert(s.contains(x));
            } else {
                let a = choose|a: u32| s2.contains(a) && f(a) == y;
                assert(s.contains(a));
            }
        }
        assert(s.map(f) =~= s2.map(f).insert(f(x)));
    }
}

/// Expanding shows at most one new permutation: the chosen mapping permutes
/// the permutation region, at most one counter bit wraps onto permutation
/// bit 0, and the fixed ground-truth bit lies in the counter region.
pub proof fn lemma_expand_perms(t: Seq<Seq<Seq<u32>>>, n: int, bits: Set<u32>, sym: int)
    requires
        3 <= n,
        fact(n as nat) + n - 2 <= u32::MAX,
        crate::symmetry::table_wf(t, n, fact(n as nat) + n - 2),
        0 <= sym < n - 1,
        bits.finite(),
        forall|x: u32| bits.contains(x) ==> x < fact(n as nat) + n - 2,
    ensures
        perm_count(expand_bits(t, n, bits, sym), n) <= perm_count(bits, n) + 1,
{
    broadcast use vstd::set_lib::range_set_properties;

    let f = fact(n as nat) as int;
    let cap = f + n - 2;
    let m = chosen_mapping(t, bits, sym);
    crate::symmetry::lemma_select_index_valid(t[sym], bits);
    let p_range = Set::<u32>::range(0u32, f as u32);
    let mapped = apply_mapping(m, bits);
    let e = expand_bits(t, n, bits, sym);
    lemma_fact_pos(n as nat);
    assert(e.intersect(p_range) =~= mapped.intersect(p_range));
    let bits_p = bits.intersect(p_range);
    let g = |b: u32| m[b as int];
    let small = bits_p.map(g).insert(0u32);
    assert forall|y: u32| mapped.intersect(p_range).contains(y) implies small.contains(y) by {
        let a = choose|a: u32| bits.contains(a) && g(a) == y;
        if a < f {
            assert(bits_p.contains(a));
            assert(bits_p.map(g).contains(y));
        } else {
            assert(cap - (n - 2) <= a < cap);
            assert(m[a as int] == 0 || m[a as int] >= cap - (n - 2));
            assert(y == 0);
        }
    }
    vstd::set_lib::lemma_len_intersect(bits, p_range);
    lemma_map_len_le(bits_p, g);
    assert(small.finite());
    vstd::set_lib::lemma_len_subset(mapped.intersect(p_range), small);
    assert(small.len() <= bits_p.map(g).len() + 1);
    lemma_intersect_range_finite(mapped, 0u32, f as u32);
    assert(mapped.intersect(p_range) =~= p_range.intersect(mapped).intersect(p_range));
    assert(perm_count(e, n) == e.intersect(p_range).len());
    assert(perm_count(bits, n) == bits_p.len());
}

#[derive(Debug)]
pub struct Candidate {
    pub bitmap: croaring::Bitmap,
    pub symbols: usize,
}

impl View for Candidate {
    type V = Set<u32>;

    open spec fn view(&self) -> Set<u32> {
        bits_of(self.bitmap)
    }
}

/// The bit-vector of a freshly seeded candidate: the rank-0 permutation bit
/// and every counter bit.
pub open spec fn seed_bits(n: int) -> Set<u32> {
    Set::<u32>::range(fact(n as nat) as u32, (fact(n as nat) + n - 2) as u32).insert(0u32)
}

impl Candidate {
    /// Number of permutation bits, `n!`.
    pub open spec fn spec_factorial(self) -> int {
        fact(self.symbols as nat) as int
    }

    /// Size of the whole bit universe, `n! + n - 2`.
    pub open spec fn spec_capacity(self) -> int {
        self.spec_factorial() + self.symbols - 2
    }

    pub open spec fn inv(self) -> bool {
        &&& 2 <= self.symbols
        &&& self.spec_capacity() <= u32::MAX
        &&& self@.finite()
        &&& forall|x: u32| self@.contains(x) ==> x < self.spec_capacity()
    }

    /// The set bits of the permutation region.
    pub open spec fn spec_permutation_bits(self) -> Set<u32> {
        self@.intersect(Set::<u32>::range(0u32, self.spec_factorial() as u32))
    }

    /// The set bits of the counter region.
    pub open spec fn spec_counter_bits(self) -> Set<u32> {
        self@.intersect(
            Set::<u32>::range(self.spec_factorial() as u32, self.spec_capacity() as u32),
        )
    }

    /// The candidate for the initial length-`n` string that holds every
    /// symbol once: the rank-0 permutation bit is set and so is the whole
    /// counter ladder.
    pub fn seed(symbols: usize) -> (r: Candidate)
        requires
            2 <= symbols,
            fact(symbols as nat) + symbols - 2 <= u32::MAX,
        ensures
            r.inv(),
            r.symbols == symbols,
            r@ == seed_bits(symbols as int),
    {
        proof {
            lemma_fact_pos(symbols as nat);
        }
        let factorial: usize = Util::factorial(symbols);
        let capacity: usize = factorial + (symbols - 2);
        let mut bitmap = bitmap_new();
        bitmap_add(&mut bitmap, 0);
        let mut i: usize = factorial;
        while i < capacity
            invariant
                factorial == fact(symbols as nat),
                factorial <= i <= capacity,
                capacity == factorial + symbols - 2 <= u32::MAX,
                bits_of(bitmap) == Set::<u32>::range(factorial as u32, i as u32).insert(0u32),
            decreases capacity - i,
        {
            bitmap_add(&mut bitmap, i as u32);
            proof {
                assert(Set::<u32>::range(factorial as u32, i as u32).insert(0u32).insert(
                    i as u32,
                ) =~= Set::<u32>::range(factorial as u32, (i + 1) as u32).insert(0u32));
            }
            i = i + 1;
        }
        bitmap_run_optimize(&mut bitmap);
        let r = Candidate { bitmap, symbols };
        proof {
            broadcast use vstd::set_lib::range_set_properties;

            assert(r@ == seed_bits(symbols as int));
            assert(Set::<u32>::range(factorial as u32, capacity as u32).finite());
        }
        r
    }

    /// The candidate reached by appending `symbol` to the represented
    /// string: the bit-vector is folded onto its canonical form through the
    /// symmetry table, and the fixed ground-truth permutation bit is set.
    pub fn expand(&self, symmetry: &Symmetry, symbol: usize) -> (r: Candidate)
        requires
            self.inv(),
            symmetry.inv(),
            symmetry.symbols == self.symbols,
            3 <= self.symbols,
            symbol < self.symbols - 1,
        ensures
            r.inv(),
            r.symbols == self.symbols,
            r@ == expand_bits(symmetry@, self.symbols as int, self@, symbol as int),
    {
        broadcast use Set::lemma_set_map_insert_commute;

        let ghost bits = self@;
        let ghost cap = self.spec_capacity();
        let mapping = symmetry.mapping(symbol, &self.bitmap);
        let ghost m = mapping@;
        let v = bitmap_to_vec(&self.bitmap);
        let mut bitmap = bitmap_new();
        proof {
            assert(v@.take(0).to_set() =~= Set::<u32>::empty());
            assert(apply_mapping(m, Set::<u32>::empty()) =~= Set::<u32>::empty());
        }
        let mut k: usize = 0;
        while k < v.len()
            invariant
                self.inv(),
                bits == self@,
                cap == self.spec_capacity(),
                m == mapping@,
                m.len() == cap,
                forall|j: int| 0 <= j < m.len() ==> (#[trigger] m[j]) < cap,
                v@.len() == bits.len(),
                forall|x: u32| v@.contains(x) <==> bits.contains(x),
                k <= v@.len(),
                bits_of(bitmap) == apply_mapping(m, v@.take(k as int).to_set()),
                bits_of(bitmap).finite(),
                forall|x: u32| bits_of(bitmap).contains(x) ==> x < cap,
            decreases v@.len() - k,
        {
            let b = v[k];
            proof {
                broadcast use Set::lemma_set_map_insert_commute;

                assert(v@.contains(b));
                assert(bits.contains(b));
                assert(b < cap);
                let ghost pre = v@.take(k as int).to_set();
                assert forall|x: u32| #[trigger] v@.take(k + 1).contains(x) implies (v@.take(
                    k as int,
                ).contains(x) || x == b) by {
                    let i = choose|i: int| 0 <= i < k + 1 && #[trigger] v@.take(k + 1)[i] == x;
                    if i < k {
                        assert(v@.take(k as int)[i] == x);
                    }
                }
                assert forall|x: u32| v@.take(k as int).contains(x) implies v@.take(
                    k + 1,
                ).contains(x) by {
                    let i = choose|i: int| 0 <= i < k && #[trigger] v@.take(k as int)[i] == x;
                    assert(v@.take(k + 1)[i] == x);
                }
                assert(v@.take(k + 1)[k as int] == b);
                assert(v@.take(k + 1).contains(b));
                assert(v@.take(k + 1).to_set() =~= pre.insert(b));
                assert(apply_mapping(m, pre.insert(b)) == apply_mapping(m, pre).insert(
                    m[b as int],
                ));
            }
            bitmap_add(&mut bitmap, mapping[b as usize]);
            k = k + 1;
        }
        proof {
            assert(v@.take(v@.len() as int) =~= v@);
            assert(v@.to_set() =~= bits);
            assert(bits_of(bitmap) == apply_mapping(m, bits));
        }
        let factorial: usize = Util::factorial(self.symbols);
        bitmap_add(&mut bitmap, factorial as u32);
        bitmap_run_optimize(&mut bitmap);
        let r = Candidate { bitmap, symbols: self.symbols };
        proof {
            assert(r@ == expand_bits(symmetry@, self.symbols as int, bits, symbol as int));
        }
        r
    }

    /// Total number of set bits.
    pub fn number_of_bits(&self) -> (r: usize)
        requires
            self.inv(),
        ensures
            r == self@.len(),
    {
        proof {
            broadcast use vstd::set_lib::range_set_properties;

            vstd::set_lib::lemma_len_subset(
                self@,
                Set::<u32>::range(0u32, self.spec_capacity() as u32),
            );
        }
        let n = bitmap_cardinality(&self.bitmap);
        n as usize
    }

    /// Number of set counter bits.
    fn number_of_counter_bits(&self) -> (r: usize)
        requires
            self.inv(),
        ensures
            r == self.spec_counter_bits().len(),
    {
        proof {
            lemma_fact_pos(self.symbols as nat);
        }
        let factorial: usize = Util::factorial(self.symbols);
        let capacity: usize = factorial + (self.symbols - 2);
        let mut count: usize = 0;
        let mut i: usize = factorial;
        proof {
            assert(self@.intersect(Set::<u32>::range(factorial as u32, factorial as u32))
                =~= Set::<u32>::empty());
        }
        while i < capacity
            invariant
                self.inv(),
                factorial == self.spec_factorial(),
                factorial <= i <= capacity,
                capacity == self.spec_capacity(),
                count == self@.intersect(
                    Set::<u32>::range(factorial as u32, i as u32),
                ).len() <= i - factorial,
            decreases capacity - i,
        {
            let ghost pre = self@.intersect(Set::<u32>::range(factorial as u32, i as u32));
            let ghost post = self@.intersect(Set::<u32>::range(factorial as u32, (i + 1) as u32));
            if bitmap_contains(&self.bitmap, i as u32) {
                proof {
                    assert(post =~= pre.insert(i as u32));
                    assert(!pre.contains(i as u32));
                    lemma_intersect_range_finite(self@, factorial as u32, i as u32);
                }
                count = count + 1;
            } else {
                proof {
                    assert(post =~= pre);
                }
            }
            i = i + 1;
        }
        proof {
            assert(self@.intersect(Set::<u32>::range(factorial as u32, capacity as u32))
                == self.spec_counter_bits());
        }
        count
    }

    /// Number of set bits in the permutation region: how many permutations
    /// the represented string has shown so far.
    pub fn number_of_permutations(&self) -> (r: usize)
        requires
            self.inv(),
        ensures
            r == self.spec_permutation_bits().len(),
    {
        proof {
            lemma_split_at_factorial(*self);
        }
        self.number_of_bits() - self.number_of_counter_bits()
    }

    /// The number of permutations of the whole alphabet, `n!`: the
    /// permutation count of a complete superpermutation.
    pub fn maximum_permutations(symbols: usize) -> (r: usize)
        requires
            fact(symbols as nat) <= usize::MAX,
        ensures
            r == fact(symbols as nat),
    {
        Util::factorial(symbols)
    }

    /// The capacity of the bit universe, `n! + n - 2`.
    pub fn maximum_bits(symbols: usize) -> (r: usize)
        requires
            2 <= symbols,
            fact(symbols as nat) + symbols - 2 <= usize::MAX,
        ensures
            r == fact(symbols as nat) + symbols - 2,
    {
        Util::factorial(symbols) + (symbols - 2)
    }
}

proof fn lemma_intersect_range_finite(s: Set<u32>, lo: u32, hi: u32)
    ensures
        s.intersect(Set::<u32>::range(lo, hi)).finite(),
{
    broadcast use vstd::set_lib::range_set_properties;

    vstd::set_lib::lemma_len_intersect(Set::<u32>::range(lo, hi), s);
    assert(s.intersect(Set::<u32>::range(lo, hi)) =~= Set::<u32>::range(lo, hi).intersect(s));
}

/// A candidate's bits split exactly into its permutation bits and its
/// counter bits.
pub proof fn lemma_split_at_factorial(c: Candidate)
    requires
        c.inv(),
    ensures
        c.spec_permutation_bits().len() + c.spec_counter_bits().len() == c@.len(),
        c.spec_counter_bits().len() <= c@.len(),
{
    lemma_split_len(c@, c.spec_factorial() as u32, c.spec_capacity() as u32);
}

proof fn lemma_split_len(s: Set<u32>, f: u32, cap: u32)
    requires
        s.finite(),
        f <= cap,
        forall|x: u32| s.contains(x) ==> x < cap,
    ensures
        s.intersect(Set::<u32>::range(0u32, f)).len() + s.intersect(
            Set::<u32>::range(f, cap),
        ).len() == s.len(),
    decreases s.len(),
{
    let lowset = s.intersect(Set::<u32>::range(0u32, f));
    let highset = s.intersect(Set::<u32>::range(f, cap));
    if s.len() == 0 {
        assert(s =~= Set::<u32>::empty()) by {
            if exists|x: u32| s.contains(x) {
                let x = choose|x: u32| s.contains(x);
                assert(s.remove(x).len() == s.len() - 1);
            }
        }
        assert(lowset =~= Set::<u32>::empty());
        assert(highset =~= Set::<u32>::empty());
    } else {
        assert(exists|x: u32| s.contains(x)) by {
            if !(exists|x: u32| s.contains(x)) {
                assert(s =~= Set::<u32>::empty());
            }
        }
        let x = choose|x: u32| s.contains(x);
        let s2 = s.remove(x);
        assert(s2.len() == s.len() - 1);
        lemma_split_len(s2, f, cap);
        if x < f {
            assert(lowset =~= s2.intersect(Set::<u32>::range(0u32, f)).insert(x));
            assert(highset =~= s2.intersect(Set::<u32>::range(f, cap)));
            assert(!s2.intersect(Set::<u32>::range(0u32, f)).contains(x));
            lemma_intersect_range_finite(s2, 0u32, f);
        } else {
            assert(lowset =~= s2.intersect(Set::<u32>::range(0u32, f)));
            assert(highset =~= s2.intersect(Set::<u32>::range(f, cap)).insert(x));
            assert(!s2.intersect(Set::<u32>::range(f, cap)).contains(x));
            lemma_intersect_range_finite(s2, f, cap);
        }
    }
}

/// A freshly seeded candidate shows exactly one permutation, and `n - 1`
/// bits in all: the one permutation bit plus `n - 2` counter bits.
pub proof fn lemma_seed_counts(c: Candidate)
    requires
        c.inv(),
        c@ == seed_bits(c.symbols as int),
    ensures
        c.spec_permutation_bits().len() == 1,
        c@.len() == c.symbols - 1,
{
    broadcast use vstd::set_lib::range_set_properties;

    let n = c.symbols as int;
    let f = fact(n as nat) as u32;
    let cap = (fact(n as nat) + n - 2) as u32;
    lemma_fact_pos(n as nat);
    let counters = Set::<u32>::range(f, cap);
    assert(!counters.contains(0u32));
    assert(c@.len() == counters.len() + 1);
    assert(c.spec_permutation_bits() =~= Set::<u32>::empty().insert(0u32));
    assert(c.spec_permutation_bits().len() == 1);
}

/// The total order used to pick the least bit index.
pub open spec fn u32_le() -> spec_fn(u32, u32) -> bool {
    |x: u32, y: u32| x <= y
}

/// The bit positions on which two bit-vectors disagree.
pub open spec fn diff_bits(a: Set<u32>, b: Set<u32>) -> Set<u32> {
    Set::new(|x: u32| a.contains(x) != b.contains(x))
}

/// The lowest bit position on which two bit-vectors disagree.
pub open spec fn first_diff(a: Set<u32>, b: Set<u32>) -> u32 {
    diff_bits(a, b).find_unique_minimal(u32_le())
}

/// The candidate order: cardinality ascending, then the ascending bit
/// sequences compared lexicographically, which is the same as asking which
/// side owns the lowest differing bit.
pub open spec fn cmp_spec(a: Set<u32>, b: Set<u32>) -> Ordering {
    if a.len() < b.len() {
        Ordering::Less
    } else if a.len() > b.len() {
        Ordering::Greater
    } else if a == b {
        Ordering::Equal
    } else if a.contains(first_diff(a, b)) {
        Ordering::Less
    } else {
        Ordering::Greater
    }
}

/// At the first index where two strictly ascending element listings differ,
/// the smaller entry is the least bit set in exactly one of the two sets,
/// and it belongs to the set listed by `u`.
proof fn lemma_first_diff_of_vecs(a: Set<u32>, b: Set<u32>, u: Seq<u32>, v: Seq<u32>, j: int)
    requires
        forall|p: int, q: int| 0 <= p < q < u.len() ==> u[p] < u[q],
        forall|p: int, q: int| 0 <= p < q < v.len() ==> v[p] < v[q],
        forall|x: u32| u.contains(x) <==> a.contains(x),
        forall|x: u32| v.contains(x) <==> b.contains(x),
        0 <= j < u.len(),
        j < v.len(),
        forall|k: int| 0 <= k < j ==> u[k] == v[k],
        u[j] < v[j],
    ensures
        a.contains(u[j]),
        !b.contains(u[j]),
        diff_bits(a, b).contains(u[j]),
        forall|x: u32| diff_bits(a, b).contains(x) ==> u[j] <= x,
{
    let m = u[j];
    assert(u.contains(m));
    assert(!b.contains(m)) by {
        if b.contains(m) {
            let k = choose|k: int| 0 <= k < v.len() && v[k] == m;
            assert(v[k] < v[j]);
            assert(k < j);
            assert(u[k] == v[k]);
        }
    }
    assert forall|x: u32| diff_bits(a, b).contains(x) implies m <= x by {
        if x < m {
            if a.contains(x) {
                let k = choose|k: int| 0 <= k < u.len() && u[k] == x;
                assert(u[k] < u[j]);
                assert(k < j);
                assert(v[k] == x);
                assert(b.contains(x));
            } else {
                assert(b.contains(x));
                let k = choose|k: int| 0 <= k < v.len() && v[k] == x;
                assert(v[k] < v[j]);
                assert(k < j);
                assert(u[k] == x);
                assert(a.contains(x));
            }
        }
    }
}

/// When two finite sets differ, the least differing bit is what
/// `first_diff` names, and it lies in one set but not the other.
proof fn lemma_first_diff_characterized(a: Set<u32>, b: Set<u32>, m: u32)
    requires
        a.finite(),
        b.finite(),
        diff_bits(a, b).contains(m),
        forall|x: u32| diff_bits(a, b).contains(x) ==> m <= x,
    ensures
        first_diff(a, b) == m,
{
    let d = diff_bits(a, b);
    assert(d.finite()) by {
        broadcast use vstd::seq_lib::seq_to_set_is_finite;
        broadcast use vstd::set_lib::lemma_set_subset_finite;

        vstd::set_lib::lemma_set_union_finite_iff(a, b);
        assert(d.subset_of(a.union(b)));
    }
    assert(vstd::relations::total_ordering(u32_le()));
    assert(d.len() > 0) by {
        if d.len() == 0 {
            d.lemma_len0_is_empty();
        }
    }
    d.find_unique_minimal_ensures(u32_le());
    assert(vstd::relations::is_minimal(u32_le(), m, d));
}

/// When two finite bit-vectors differ at all, `first_diff` names a position
/// inside one of them, below every other differing position.
proof fn lemma_first_diff_in(a: Set<u32>, b: Set<u32>)
    requires
        a.finite(),
        b.finite(),
        a != b,
    ensures
        diff_bits(a, b).contains(first_diff(a, b)),
        forall|x: u32| diff_bits(a, b).contains(x) ==> first_diff(a, b) <= x,
{
    let d = diff_bits(a, b);
    assert(d.finite()) by {
        broadcast use vstd::set_lib::lemma_set_subset_finite;

        vstd::set_lib::lemma_set_union_finite_iff(a, b);
        assert(d.subset_of(a.union(b)));
    }
    if !(exists|x: u32| d.contains(x)) {
        assert forall|x: u32| a.contains(x) <==> b.contains(x) by {
            assert(!d.contains(x));
        }
        assert(a =~= b);
    }
    assert(d.len() > 0) by {
        if d.len() == 0 {
            d.lemma_len0_is_empty();
        }
    }
    assert(vstd::relations::total_ordering(u32_le()));
    d.find_unique_minimal_ensures(u32_le());
    let m = d.find_unique_minimal(u32_le());
    assert forall|x: u32| d.contains(x) implies m <= x by {
        assert(u32_le()(x, m) ==> u32_le()(m, x));
    }
}

/// The candidate order is consistent with equality: it reports `Equal`
/// exactly on equal bit-vectors.
pub proof fn lemma_cmp_consistent_with_equality(a: Set<u32>, b: Set<u32>)
    ensures
        cmp_spec(a, b) == Ordering::Equal <==> a == b,
{
}

/// The candidate order is antisymmetric: `a` comes before `b` exactly when
/// `b` comes after `a`.
pub proof fn lemma_cmp_antisymmetric(a: Set<u32>, b: Set<u32>)
    requires
        a.finite(),
        b.finite(),
    ensures
        cmp_spec(a, b) == Ordering::Less <==> cmp_spec(b, a) == Ordering::Greater,
{
    if a.len() == b.len() && a != b {
        lemma_first_diff_in(a, b);
        lemma_first_diff_in(b, a);
        assert(diff_bits(b, a) =~= diff_bits(a, b));
        lemma_first_diff_characterized(b, a, first_diff(a, b));
    }
}

/// The candidate order is transitive.
pub proof fn lemma_cmp_transitive(a: Set<u32>, b: Set<u32>, c: Set<u32>)
    requires
        a.finite(),
        b.finite(),
        c.finite(),
        cmp_spec(a, b) == Ordering::Less,
        cmp_spec(b, c) == Ordering::Less,
    ensures
        cmp_spec(a, c) == Ordering::Less,
{
    if a.len() < b.len() || b.len() < c.len() {
        assert(a.len() < c.len());
    } else {
        lemma_first_diff_in(a, b);
        lemma_first_diff_in(b, c);
        let m1 = first_diff(a, b);
        let m2 = first_diff(b, c);
        assert(a.contains(m1) && !b.contains(m1));
        assert(b.contains(m2) && !c.contains(m2));
        let m = if m1 < m2 { m1 } else { m2 };
        assert(a.contains(m) && !c.contains(m)) by {
            if m1 < m2 {
                assert(!diff_bits(b, c).contains(m1));
            } else {
                assert(!diff_bits(a, b).contains(m2));
            }
        }
        assert forall|x: u32| diff_bits(a, c).contains(x) implies m <= x by {
            if x < m {
                assert(!diff_bits(a, b).contains(x));
                assert(!diff_bits(b, c).contains(x));
            }
        }
        lemma_first_diff_characterized(a, c, m);
        assert(a != c);
    }
}

impl Candidate {
    /// Total order on candidates: fewer bits first, then the candidate
    /// whose set bits come first in ascending order.  Used as the
    /// deduplication key of the closed set, never as a search priority.
    pub fn cmp(&self, other: &Candidate) -> (r: Ordering)
        ensures
            r == cmp_spec(self@, other@),
    {
        let left_len = bitmap_cardinality(&self.bitmap);
        let right_len = bitmap_cardinality(&other.bitmap);
        if left_len < right_len {
            return Ordering::Less;
        }
        if left_len > right_len {
            return Ordering::Greater;
        }
        let u = bitmap_to_vec(&self.bitmap);
        let v = bitmap_to_vec(&other.bitmap);
        proof {
            broadcast use vstd::seq_lib::seq_to_set_is_finite;

            assert(self@ =~= u@.to_set());
            assert(other@ =~= v@.to_set());
        }
        let mut j: usize = 0;
        while j < u.len()
            invariant
                u@.len() == v@.len(),
                j <= u@.len(),
                self@.finite(),
                other@.finite(),
                u@.len() == self@.len(),
                v@.len() == other@.len(),
                forall|p: int, q: int| 0 <= p < q < u@.len() ==> u@[p] < u@[q],
                forall|p: int, q: int| 0 <= p < q < v@.len() ==> v@[p] < v@[q],
                forall|x: u32| u@.contains(x) <==> self@.contains(x),
                forall|x: u32| v@.contains(x) <==> other@.contains(x),
                forall|k: int| 0 <= k < j ==> u@[k] == v@[k],
            decreases u@.len() - j,
        {
            if u[j] < v[j] {
                proof {
                    lemma_first_diff_of_vecs(self@, other@, u@, v@, j as int);
                    lemma_first_diff_characterized(self@, other@, u@[j as int]);
                }
                return Ordering::Less;
            }
            if v[j] < u[j] {
                proof {
                    lemma_first_diff_of_vecs(other@, self@, v@, u@, j as int);
                    lemma_first_diff_characterized(other@, self@, v@[j as int]);
                    assert(diff_bits(self@, other@) =~= diff_bits(other@, self@));
                    lemma_first_diff_characterized(self@, other@, v@[j as int]);
                }
                return Ordering::Greater;
            }
            j = j + 1;
        }
        proof {
            assert(u@ =~= v@);
            assert(self@ =~= other@);
        }
        Ordering::Equal
    }
}

impl Clone for Candidate {
    /// The copy represents the same state: same alphabet, same bits.
    fn clone(&self) -> (r: Self)
        ensures
            r@ == self@,
            r.symbols == self.symbols,
    {
        Candidate { bitmap: bitmap_clone(&self.bitmap), symbols: self.symbols }
    }
}

impl PartialEq for Candidate {
    fn eq(&self, other: &Self) -> (r: bool) {
        self.symbols == other.symbols && bitmap_eq(&self.bitmap, &other.bitmap)
    }
}

impl Eq for Candidate {}

impl vstd::std_specs::cmp::PartialEqSpecImpl for Candidate {
    open spec fn obeys_eq_spec() -> bool {
        true
    }

    open spec fn eq_spec(&self, other: &Candidate) -> bool {
        self.symbols == other.symbols && self@ == other@
    }
}

impl PartialOrd for Candidate {
    fn partial_cmp(&self, other: &Self) -> (r: Option<Ordering>) {
        Some(self.cmp(other))
    }
}

impl vstd::std_specs::cmp::PartialOrdSpecImpl for Candidate {
    open spec fn obeys_partial_cmp_spec() -> bool {
        true
    }

    open spec fn partial_cmp_spec(&self, other: &Candidate) -> Option<Ordering> {
        Some(cmp_spec(self@, other@))
    }
}

} // verus!
