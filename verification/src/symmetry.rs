//! Precomputed canonicalization tables.  When a symbol is appended to the
//! string, some relabelings of the not-yet-distinguished symbols are
//! indistinguishable given only the permutations seen so far; this module
//! lifts every such relabeling to a full bit-index mapping over both
//! regions of a candidate's bit-vector, and picks one representative per
//! equivalence class by the leftmost-bits-set rule.

use vstd::prelude::*;
use crate::codec::{is_permutation, perm_of, perm_of_rank, rank_of, rank_of_perm};
use crate::roaring::{bitmap_contains, bits_of};
use crate::util::{fact, lemma_fact_mono, lemma_fact_pos, Util};

verus! {

/// One row of the counter-region remapping: appending symbol `s` shifts the
/// ladder up by one, consumes `s` rungs into the always-set ground-truth
/// bit, and (for symbol 0 only) wraps the last rung onto permutation bit 0.
pub open spec fn counter_entry(n: int, s: int, k: int) -> u32 {
    let f = fact(n as nat) as int;
    if k < n - 2 - s {
        if k < n - 3 {
            (f + k + 1) as u32
        } else {
            0u32
        }
    } else {
        f as u32
    }
}

/// The relabeling of the alphabet that transposition `t` of symbol `s`
/// induces: a permutation of the first `s` symbols, then the symbols above
/// `s` shifted down one place, then `s` itself last.
pub open spec fn transposition_entry(n: int, s: int, t: int) -> Seq<u8> {
    Seq::new(
        n as nat,
        |j: int|
            if j < s {
                perm_of(t, s)[j]
            } else if j < n - 1 {
                (j + 1) as u8
            } else {
                s as u8
            },
    )
}

/// Every list of the table is non-empty, and each mapping covers the whole
/// bit universe with in-range targets.
pub open spec fn table_wf(t: Seq<Seq<Seq<u32>>>, n: int, cap: int) -> bool {
    &&& t.len() == n - 1
    &&& forall|s: int| 0 <= s < n - 1 ==> (#[trigger] t[s]).len() >= 1
    &&& forall|s: int, j: int|
        0 <= s < n - 1 && 0 <= j < t[s].len() ==> (#[trigger] t[s][j]).len() == cap
    &&& forall|s: int, j: int, k: int|
        0 <= s < n - 1 && 0 <= j < t[s].len() && 0 <= k < cap ==> (#[trigger] t[s][j][k]) < cap
    &&& forall|s: int, j: int, k: int|
        0 <= s < n - 1 && 0 <= j < t[s].len() && 0 <= k < cap - (n - 2) ==> (#[trigger] t[s][j][k])
            < cap - (n - 2)
    &&& forall|s: int, j: int, k: int|
        0 <= s < n - 1 && 0 <= j < t[s].len() && cap - (n - 2) <= k < cap ==> ((
        #[trigger] t[s][j][k]) == 0 || t[s][j][k] >= cap - (n - 2))
}

/// An alphabet whose bit universe fits in a `u32` has at most 12 symbols.
pub proof fn lemma_alphabet_small(n: int)
    requires
        2 <= n,
        fact(n as nat) + n - 2 <= u32::MAX,
    ensures
        n <= 12,
{
    if n >= 13 {
        assert(fact(13nat) == 6227020800) by {
            reveal_with_fuel(fact, 14);
        }
        lemma_fact_mono(13nat, n as nat);
    }
}

/// The position of `x` in `tr`.
pub open spec fn index_in(tr: Seq<u8>, x: u8) -> int {
    choose|j: int| 0 <= j < tr.len() && tr[j] == x
}

/// The inverse of a permutation: position `x` holds where `x` occurs.
pub open spec fn inverse_perm(tr: Seq<u8>) -> Seq<u8> {
    Seq::new(tr.len(), |x: int| index_in(tr, x as u8) as u8)
}

/// The permutation of rank `i`, relabeled through the inverse of `tr`.
pub open spec fn transposed_perm(n: int, tr: Seq<u8>, i: int) -> Seq<u8> {
    Seq::new(n as nat, |j: int| inverse_perm(tr)[perm_of(i, n)[j] as int])
}

/// Where the relabeling `tr` sends the permutation bit of rank `i`.
pub open spec fn mapped_rank(n: int, tr: Seq<u8>, i: int) -> int {
    rank_of(transposed_perm(n, tr, i))
}

/// A permutation of `0..n` attains every value below `n`.
pub proof fn lemma_permutation_onto(p: Seq<u8>, n: int)
    requires
        is_permutation(p, n),
        0 <= n <= 255,
    ensures
        forall|x: u8| x < n ==> #[trigger] p.contains(x),
{
    broadcast use vstd::set_lib::range_set_properties;
    broadcast use vstd::seq_lib::seq_to_set_is_finite;

    assert(p.no_duplicates());
    p.unique_seq_to_set();
    let full = Set::<u8>::range(0u8, n as u8);
    assert forall|x: u8| x < n implies #[trigger] p.contains(x) by {
        if !p.contains(x) {
            assert forall|y: u8| p.to_set().contains(y) implies full.remove(x).contains(y) by {
                let j = choose|j: int| 0 <= j < p.len() && p[j] == y;
                assert(y < n);
            }
            vstd::set_lib::lemma_len_subset(p.to_set(), full.remove(x));
            assert(full.remove(x).len() == n - 1);
        }
    }
}

/// The relabeling induced by a transposition is itself a permutation of the
/// alphabet.
pub proof fn lemma_transposition_is_permutation(n: int, s: int, t: int)
    requires
        2 <= n <= 255,
        0 <= s <= n - 2,
        is_permutation(perm_of(t, s), s),
    ensures
        is_permutation(transposition_entry(n, s, t), n),
{
    let e = transposition_entry(n, s, t);
    assert forall|j: int, k: int| 0 <= j < k < n implies e[j] != e[k] by {
        if k < s {
        } else if j < s {
            assert(e[j] < s);
            assert(e[k] >= s);
        } else if k < n - 1 {
            assert(e[j] == j + 1 && e[k] == k + 1);
        } else if j < n - 1 {
            assert(e[j] == j + 1 && e[k] == s);
        }
    }
}

fn invert(tr: &Vec<u8>, n: usize) -> (inv: Vec<u8>)
    requires
        tr@.len() == n,
        is_permutation(tr@, n as int),
        n <= 255,
    ensures
        inv@.len() == n,
        inv@ == inverse_perm(tr@),
        forall|x: int| 0 <= x < n ==> inv@[x] < n,
        forall|x: int| 0 <= x < n ==> tr@[inv@[x] as int] == x as u8,
        forall|j: int| 0 <= j < n ==> inv@[tr@[j] as int] == j as u8,
{
    proof {
        lemma_permutation_onto(tr@, n as int);
    }
    let mut inv: Vec<u8> = Vec::new();
    let mut x: usize = 0;
    while x < n
        invariant
            x <= n <= 255,
            tr@.len() == n,
            is_permutation(tr@, n as int),
            inv@.len() == x,
            forall|y: int| 0 <= y < x ==> inv@[y] < n,
            forall|y: int| 0 <= y < x ==> tr@[#[trigger] inv@[y] as int] == y as u8,
        decreases n - x,
    {
        let mut j: usize = 0;
        let mut found: usize = 0;
        proof {
            lemma_permutation_onto(tr@, n as int);
            assert(tr@.contains(x as u8));
            assert(exists|k: int| 0 <= k < n && tr@[k] == x as u8);
        }
        let mut have: bool = false;
        while j < n
            invariant
                j <= n,
                tr@.len() == n,
                exists|k: int| 0 <= k < n && tr@[k] == x as u8,
                !have ==> forall|k: int| 0 <= k < j ==> tr@[k] != x as u8,
                have ==> found < n && tr@[found as int] == x as u8,
            decreases n - j,
        {
            if !have && tr[j] == x as u8 {
                found = j;
                have = true;
            }
            j = j + 1;
        }
        proof {
            if !have {
                let k = choose|k: int| 0 <= k < n && tr@[k] == x as u8;
                assert(tr@[k] != x as u8);
            }
        }
        inv.push(found as u8);
        x = x + 1;
    }
    proof {
        assert forall|y: int| 0 <= y < n implies inv@[y] == inverse_perm(tr@)[y] by {
            let c = index_in(tr@, y as u8);
            assert(tr@[inv@[y] as int] == y as u8);
            assert(0 <= (inv@[y] as int) < tr@.len() && tr@[inv@[y] as int] == y as u8);
            assert(0 <= c < tr@.len() && tr@[c] == y as u8);
            assert(c == inv@[y] as int);
        }
        assert(inv@ =~= inverse_perm(tr@));
        assert forall|j: int| 0 <= j < n implies inv@[tr@[j] as int] == j as u8 by {
            let y = tr@[j] as int;
            assert(0 <= y < n);
            assert(tr@[inv@[y] as int] == y as u8);
        }
    }
    inv
}

/// One full bit-index mapping: the permutation-region remapping of a
/// transposition, concatenated with the counter-region remapping of its
/// symbol.
pub open spec fn combined_entry(n: int, s: int, t: int) -> Seq<u32> {
    Seq::new(
        (fact(n as nat) + n - 2) as nat,
        |b: int|
            if b < fact(n as nat) {
                mapped_rank(n, transposition_entry(n, s, t), b) as u32
            } else {
                counter_entry(n, s, b - fact(n as nat))
            },
    )
}

/// The candidate relabelings that survive one elimination step: those whose
/// mapping sends a set bit to position `i`.
pub open spec fn surviving(
    lists: Seq<Seq<u32>>,
    bits: Set<u32>,
    choices: Seq<usize>,
    i: int,
) -> Seq<usize> {
    choices.filter(|c: usize| bits.contains(lists[c as int][i]))
}

/// The elimination procedure: walk the bit positions from the left;
/// wherever some surviving relabeling would set the bit, drop the ones that
/// would not.  This keeps the relabelings whose resulting set bits lie as
/// far left as possible.
pub open spec fn eliminate(
    lists: Seq<Seq<u32>>,
    bits: Set<u32>,
    choices: Seq<usize>,
    i: int,
    len: int,
) -> Seq<usize>
    decreases len - i,
{
    if i >= len {
        choices
    } else {
        let surv = surviving(lists, bits, choices, i);
        eliminate(
            lists,
            bits,
            if surv.len() == 0 {
                choices
            } else {
                surv
            },
            i + 1,
            len,
        )
    }
}

/// The initial choice list: every relabeling of the symbol's class.
pub open spec fn all_choices(count: int) -> Seq<usize> {
    Seq::new(count as nat, |c: int| c as usize)
}

/// Which relabeling the elimination procedure settles on.
pub open spec fn select_index(lists: Seq<Seq<u32>>, bits: Set<u32>) -> int {
    if lists.len() == 1 {
        0
    } else {
        eliminate(lists, bits, all_choices(lists.len() as int), 0, lists[0].len() as int)[0] as int
    }
}

/// The bit-index mapping chosen for `sym` on a given bit-vector.
pub open spec fn chosen_mapping(t: Seq<Seq<Seq<u32>>>, bits: Set<u32>, sym: int) -> Seq<u32> {
    t[sym][select_index(t[sym], bits)]
}

/// Canonicalization is deterministic: bit-identical inputs always pick the
/// same relabeling, so applying the selection twice chooses identically.
pub proof fn lemma_mapping_deterministic(
    t: Seq<Seq<Seq<u32>>>,
    a: Set<u32>,
    b: Set<u32>,
    sym: int,
)
    requires
        a == b,
    ensures
        chosen_mapping(t, a, sym) == chosen_mapping(t, b, sym),
{
}

/// Elimination keeps at least one relabeling, and only valid ones.
proof fn lemma_eliminate_props(
    lists: Seq<Seq<u32>>,
    bits: Set<u32>,
    choices: Seq<usize>,
    i: int,
    len: int,
)
    requires
        choices.len() >= 1,
        forall|q: int| 0 <= q < choices.len() ==> (#[trigger] choices[q]) < lists.len(),
    ensures
        eliminate(lists, bits, choices, i, len).len() >= 1,
        forall|q: int|
            0 <= q < eliminate(lists, bits, choices, i, len).len() ==> (#[trigger] eliminate(
                lists,
                bits,
                choices,
                i,
                len,
            )[q]) < lists.len(),
    decreases len - i,
{
    if i < len {
        let surv = surviving(lists, bits, choices, i);
        let pred = |c: usize| bits.contains(lists[c as int][i]);
        lemma_filter_subset(choices, pred);
        assert forall|q: int| 0 <= q < surv.len() implies (#[trigger] surv[q]) < lists.len() by {
            assert(choices.contains(surv[q]));
            let w = choose|w: int| 0 <= w < choices.len() && choices[w] == surv[q];
        }
        if surv.len() == 0 {
            lemma_eliminate_props(lists, bits, choices, i + 1, len);
        } else {
            lemma_eliminate_props(lists, bits, surv, i + 1, len);
        }
    }
}

/// The selected relabeling index always points into the list.
pub proof fn lemma_select_index_valid(lists: Seq<Seq<u32>>, bits: Set<u32>)
    requires
        lists.len() >= 1,
    ensures
        0 <= select_index(lists, bits) < lists.len(),
{
    if lists.len() != 1 {
        let init = all_choices(lists.len() as int);
        lemma_eliminate_props(lists, bits, init, 0, lists[0].len() as int);
    }
}

/// Every element of a filtered sequence comes from the sequence it was
/// filtered from.
proof fn lemma_filter_subset<A>(s: Seq<A>, pred: spec_fn(A) -> bool)
    ensures
        forall|i: int|
            0 <= i < s.filter(pred).len() ==> s.contains(#[trigger] s.filter(pred)[i]),
    decreases s.len(),
{
    reveal(Seq::filter);
    if s.len() != 0 {
        lemma_filter_subset(s.drop_last(), pred);
        assert forall|i: int|
            0 <= i < s.filter(pred).len() implies s.contains(#[trigger] s.filter(pred)[i]) by {
            let f = s.filter(pred);
            let fd = s.drop_last().filter(pred);
            if i < fd.len() {
                assert(fd[i] == f[i]);
                let j = choose|j: int| 0 <= j < s.drop_last().len() && s.drop_last()[j] == fd[i];
                assert(s[j] == f[i]);
            } else {
                assert(f[i] == s.last());
                assert(s[s.len() - 1] == s.last());
            }
        }
    }
}

pub struct Symmetry {
    pub mappings: Vec<Vec<Vec<u32>>>,
    pub symbols: usize,
}

impl View for Symmetry {
    type V = Seq<Seq<Seq<u32>>>;

    open spec fn view(&self) -> Seq<Seq<Seq<u32>>> {
        self.mappings.deep_view()
    }
}

impl Symmetry {
    pub open spec fn spec_factorial(self) -> int {
        fact(self.symbols as nat) as int
    }

    pub open spec fn spec_capacity(self) -> int {
        self.spec_factorial() + self.symbols - 2
    }

    pub open spec fn inv(self) -> bool {
        &&& 2 <= self.symbols
        &&& self.spec_capacity() <= u32::MAX
        &&& table_wf(self@, self.symbols as int, self.spec_capacity())
    }

    /// Selects, deterministically, the relabeling of `symbol`'s class whose
    /// resulting bit-vector has its set bits as far left as possible, by
    /// the elimination procedure; a class with a single relabeling is
    /// returned at once.
    pub fn mapping(&self, symbol: usize, bitmap: &croaring::Bitmap) -> (r: &Vec<u32>)
        requires
            self.inv(),
            symbol < self.symbols - 1,
        ensures
            r@ == chosen_mapping(self@, bits_of(*bitmap), symbol as int),
            r@.len() == self.spec_capacity(),
            forall|k: int| 0 <= k < r@.len() ==> (#[trigger] r@[k]) < self.spec_capacity(),
    {
        let ghost tablev = self@;
        let ghost bits = bits_of(*bitmap);
        let lists = &self.mappings[symbol];
        let ghost listsv = lists.deep_view();
        proof {
            assert(tablev[symbol as int] == listsv);
            assert(listsv.len() == lists@.len());
            assert forall|j: int| 0 <= j < listsv.len() implies (#[trigger] listsv[j]).len()
                == self.spec_capacity() && listsv[j] == lists@[j]@ by {
                assert(tablev[symbol as int][j].len() == self.spec_capacity());
            }
        }
        if lists.len() == 1 {
            let r = &lists[0];
            proof {
                assert(r@ == chosen_mapping(tablev, bits, symbol as int));
            }
            return r;
        }
        let mut choices: Vec<usize> = Vec::new();
        let mut c: usize = 0;
        while c < lists.len()
            invariant
                c <= lists@.len(),
                choices@.len() == c,
                forall|q: int| 0 <= q < c ==> (#[trigger] choices@[q]) == q as usize,
            decreases lists@.len() - c,
        {
            choices.push(c);
            c = c + 1;
        }
        proof {
            assert(choices@ =~= all_choices(listsv.len() as int));
        }
        proof {
            assert(listsv[0] == lists@[0]@);
            assert(listsv[0].len() == self.spec_capacity());
        }
        let cap = lists[0].len();
        let mut i: usize = 0;
        while i < cap
            invariant
                self.inv(),
                symbol < self.symbols - 1,
                lists == &self.mappings[symbol as int],
                listsv == lists.deep_view(),
                tablev == self@,
                tablev[symbol as int] == listsv,
                listsv.len() == lists@.len(),
                listsv.len() >= 2,
                cap == self.spec_capacity(),
                forall|j: int| 0 <= j < listsv.len() ==> (#[trigger] listsv[j]).len() == cap
                    && listsv[j] == lists@[j]@,
                i <= cap,
                bits == bits_of(*bitmap),
                choices@.len() >= 1,
                forall|q: int| 0 <= q < choices@.len() ==> (#[trigger] choices@[q]) < listsv.len(),
                eliminate(listsv, bits, all_choices(listsv.len() as int), 0, cap as int)
                    == eliminate(listsv, bits, choices@, i as int, cap as int),
            decreases cap - i,
        {
            let ghost pred = |c: usize| bits.contains(listsv[c as int][i as int]);
            let mut any: bool = false;
            let mut q: usize = 0;
            while q < choices.len()
                invariant
                    q <= choices@.len(),
                    listsv == lists.deep_view(),
                    listsv.len() == lists@.len(),
                    forall|p: int| 0 <= p < choices@.len() ==> (#[trigger] choices@[p])
                        < listsv.len(),
                    forall|j: int| 0 <= j < listsv.len() ==> (#[trigger] listsv[j]).len() == cap
                        && listsv[j] == lists@[j]@,
                    i < cap,
                    bits == bits_of(*bitmap),
                    pred == (|c: usize| bits.contains(listsv[c as int][i as int])),
                    !any ==> forall|p: int| 0 <= p < q ==> !pred(#[trigger] choices@[p]),
                    any ==> exists|p: int| 0 <= p < choices@.len() && pred(#[trigger] choices@[p]),
                decreases choices@.len() - q,
            {
                let idx = choices[q];
                proof {
                    assert(idx < listsv.len());
                    assert(listsv[idx as int] == lists@[idx as int]@);
                }
                if bitmap_contains(bitmap, lists[idx][i]) {
                    proof {
                        assert(pred(choices@[q as int]));
                    }
                    any = true;
                }
                q = q + 1;
            }
            let ghost old_choices = choices@;
            let ghost surv = surviving(listsv, bits, choices@, i as int);
            if any {
                let mut kept: Vec<usize> = Vec::new();
                let mut q: usize = 0;
                while q < choices.len()
                    invariant
                        q <= choices@.len(),
                        listsv == lists.deep_view(),
                        listsv.len() == lists@.len(),
                        forall|p: int| 0 <= p < choices@.len() ==> (#[trigger] choices@[p])
                            < listsv.len(),
                        forall|j: int| 0 <= j < listsv.len() ==> (#[trigger] listsv[j]).len() == cap
                            && listsv[j] == lists@[j]@,
                        i < cap,
                        bits == bits_of(*bitmap),
                        pred == (|c: usize| bits.contains(listsv[c as int][i as int])),
                        kept@ == choices@.take(q as int).filter(pred),
                    decreases choices@.len() - q,
                {
                    proof {
                        reveal(Seq::filter);
                        assert(choices@.take(q + 1).drop_last() =~= choices@.take(q as int));
                        assert(choices@.take(q + 1).last() == choices@[q as int]);
                    }
                    let idx = choices[q];
                    proof {
                        assert(idx < listsv.len());
                        assert(listsv[idx as int] == lists@[idx as int]@);
                    }
                    if bitmap_contains(bitmap, lists[idx][i]) {
                        kept.push(idx);
                        proof {
                            assert(pred(choices@[q as int]));
                            assert(kept@ == choices@.take(q + 1).filter(pred));
                        }
                    } else {
                        proof {
                            assert(!pred(choices@[q as int]));
                            assert(kept@ == choices@.take(q + 1).filter(pred));
                        }
                    }
                    q = q + 1;
                }
                proof {
                    assert(choices@.take(choices@.len() as int) =~= choices@);
                    assert(kept@ == surv);
                    assert(surv.len() >= 1) by {
                        let p = choose|p: int|
                            0 <= p < choices@.len() && pred(#[trigger] choices@[p]);
                        choices@.lemma_filter_contains(pred, p);
                    }
                    lemma_filter_subset(choices@, pred);
                }
                choices = kept;
            } else {
                proof {
                    assert(surv.len() == 0) by {
                        if surv.len() > 0 {
                            choices@.lemma_filter_pred(pred, 0);
                            lemma_filter_subset(choices@, pred);
                            let x = surv[0];
                            assert(choices@.contains(x));
                            let p = choose|p: int|
                                0 <= p < choices@.len() && choices@[p] == x;
                            assert(pred(choices@[p]));
                        }
                    }
                }
            }
            proof {
                assert(eliminate(listsv, bits, old_choices, i as int, cap as int) == eliminate(
                    listsv,
                    bits,
                    choices@,
                    i + 1,
                    cap as int,
                ));
            }
            i = i + 1;
        }
        let sel = choices[0];
        let r = &lists[sel];
        proof {
            assert(eliminate(listsv, bits, choices@, cap as int, cap as int) == choices@);
            assert(select_index(listsv, bits) == choices@[0] as int);
            assert(r@ == chosen_mapping(tablev, bits, symbol as int));
        }
        r
    }

    /// Builds the whole table: precomputed once at start-up, then shared
    /// read-only with every component that canonicalizes candidates.
    pub fn precompute(n: usize) -> (r: Symmetry)
        requires
            2 <= n,
            fact(n as nat) + n - 2 <= u32::MAX,
        ensures
            r.inv(),
            r.symbols == n,
            r@.len() == n - 1,
            forall|s: int| 0 <= s < n - 1 ==> (#[trigger] r@[s]).len() == fact(s as nat),
            forall|s: int, t: int|
                0 <= s < n - 1 && 0 <= t < fact(s as nat) ==> (#[trigger] r@[s][t])
                    == combined_entry(n as int, s, t),
    {
        let mappings = Self::combined_mappings(n);
        let r = Symmetry { mappings, symbols: n };
        proof {
            lemma_fact_pos(n as nat);
            assert forall|s: int| 0 <= s < n - 1 implies (#[trigger] r@[s]).len() >= 1 by {
                lemma_fact_pos(s as nat);
            }
        }
        r
    }

    /// Joins the permutation-region and counter-region remappings into one
    /// mapping per transposition, covering the whole bit universe.
    pub fn combined_mappings(n: usize) -> (r: Vec<Vec<Vec<u32>>>)
        requires
            2 <= n,
            fact(n as nat) + n - 2 <= u32::MAX,
        ensures
            r.deep_view().len() == n - 1,
            forall|s: int| 0 <= s < n - 1 ==> (#[trigger] r.deep_view()[s]).len() == fact(s as nat),
            forall|s: int, t: int|
                0 <= s < n - 1 && 0 <= t < fact(s as nat) ==> (#[trigger] r.deep_view()[s][t])
                    == combined_entry(n as int, s, t),
            table_wf(r.deep_view(), n as int, fact(n as nat) + n - 2),
    {
        proof {
            lemma_alphabet_small(n as int);
        }
        let factorial: usize = Util::factorial(n);
        let ghost cap = fact(n as nat) + n - 2;
        let perms = Self::permutation_mappings(n);
        let counters = Self::counter_mappings(n);
        let mut rows: Vec<Vec<Vec<u32>>> = Vec::new();
        let mut s: usize = 0;
        while s < n - 1
            invariant
                2 <= n <= 12,
                factorial == fact(n as nat),
                cap == fact(n as nat) + n - 2,
                cap <= u32::MAX,
                s <= n - 1,
                perms.deep_view().len() == n - 1,
                forall|q: int|
                    0 <= q < n - 1 ==> (#[trigger] perms.deep_view()[q]).len() == fact(q as nat),
                forall|q: int, t: int|
                    0 <= q < n - 1 && 0 <= t < fact(q as nat) ==> (
                    #[trigger] perms.deep_view()[q][t]).len() == fact(n as nat),
                forall|q: int, t: int, i: int|
                    0 <= q < n - 1 && 0 <= t < fact(q as nat) && 0 <= i < fact(n as nat) ==> (
                    #[trigger] perms.deep_view()[q][t][i]) == mapped_rank(
                        n as int,
                        transposition_entry(n as int, q, t),
                        i,
                    ) as u32 && perms.deep_view()[q][t][i] < fact(n as nat),
                counters.deep_view().len() == n - 1,
                forall|q: int| 0 <= q < n - 1 ==> (#[trigger] counters.deep_view()[q]).len() == n
                    - 2,
                forall|q: int, k: int|
                    0 <= q < n - 1 && 0 <= k < n - 2 ==> (#[trigger] counters.deep_view()[q][k])
                        == counter_entry(n as int, q, k),
                rows.deep_view().len() == s,
                forall|q: int| 0 <= q < s ==> (#[trigger] rows.deep_view()[q]).len() == fact(
                    q as nat,
                ),
                forall|q: int, t: int|
                    0 <= q < s && 0 <= t < fact(q as nat) ==> (#[trigger] rows.deep_view()[q][t])
                        == combined_entry(n as int, q, t),
            decreases n - 1 - s,
        {
            proof {
                lemma_fact_mono(s as nat, n as nat);
            }
            let fs: usize = Util::factorial(s);
            let mut row: Vec<Vec<u32>> = Vec::new();
            let mut t: usize = 0;
            while t < fs
                invariant
                    2 <= n <= 12,
                    s < n - 1,
                    factorial == fact(n as nat),
                    cap == fact(n as nat) + n - 2,
                    cap <= u32::MAX,
                    fs == fact(s as nat),
                    fact(s as nat) <= fact(n as nat),
                    t <= fs,
                    perms.deep_view().len() == n - 1,
                    perms.deep_view()[s as int].len() == fact(s as nat),
                    forall|u: int|
                        0 <= u < fact(s as nat) ==> (#[trigger] perms.deep_view()[s as int][u]).len()
                            == fact(n as nat),
                    forall|u: int, i: int|
                        0 <= u < fact(s as nat) && 0 <= i < fact(n as nat) ==> (
                        #[trigger] perms.deep_view()[s as int][u][i]) == mapped_rank(
                            n as int,
                            transposition_entry(n as int, s as int, u),
                            i,
                        ) as u32 && perms.deep_view()[s as int][u][i] < fact(n as nat),
                    counters.deep_view().len() == n - 1,
                    counters.deep_view()[s as int].len() == n - 2,
                    forall|k: int|
                        0 <= k < n - 2 ==> (#[trigger] counters.deep_view()[s as int][k])
                            == counter_entry(n as int, s as int, k),
                    row.deep_view().len() == t,
                    forall|u: int|
                        0 <= u < t ==> (#[trigger] row.deep_view()[u]) == combined_entry(
                            n as int,
                            s as int,
                            u,
                        ),
                decreases fs - t,
            {
                let mut entry: Vec<u32> = Vec::new();
                let mut b: usize = 0;
                proof {
                    assert(perms.deep_view()[s as int] == perms@[s as int].deep_view());
                    assert(perms@[s as int].deep_view()[t as int] == perms@[s as int]@[t as int]@);
                    assert(counters.deep_view()[s as int] == counters@[s as int]@);
                }
                while b < factorial
                    invariant
                        b <= factorial,
                        s < perms@.len(),
                        t < perms@[s as int]@.len(),
                        perms@[s as int]@[t as int]@.len() == factorial,
                        entry@.len() == b,
                        forall|i: int|
                            0 <= i < b ==> (#[trigger] entry@[i]) == perms@[s as int]@[t as int]@[i],
                    decreases factorial - b,
                {
                    let value: u32 = perms[s][t][b];
                    entry.push(value);
                    b = b + 1;
                }
                let mut k: usize = 0;
                while k < n - 2
                    invariant
                        k <= n - 2,
                        s < counters@.len(),
                        counters@[s as int]@.len() == n - 2,
                        entry@.len() == factorial + k,
                        forall|i: int|
                            0 <= i < factorial ==> (#[trigger] entry@[i]) == perms@[s as int]@[t as int]@[i],
                        forall|i: int|
                            0 <= i < k ==> (#[trigger] entry@[factorial + i]) == counters@[s as int]@[i],
                        s < perms@.len(),
                        t < perms@[s as int]@.len(),
                        perms@[s as int]@[t as int]@.len() == factorial,
                    decreases n - 2 - k,
                {
                    let value: u32 = counters[s][k];
                    entry.push(value);
                    k = k + 1;
                }
                proof {
                    assert(perms.deep_view()[s as int][t as int] == perms@[s as int]@[t as int]@);
                    assert(entry@ =~= combined_entry(n as int, s as int, t as int));
                }
                let ghost prerow = row.deep_view();
                row.push(entry);
                proof {
                    assert(row.deep_view() =~~= prerow.push(entry@));
                }
                t = t + 1;
            }
            let ghost pre = rows.deep_view();
            rows.push(row);
            proof {
                assert(rows.deep_view() =~~= pre.push(row.deep_view()));
            }
            s = s + 1;
        }
        proof {
            assert forall|s: int, j: int, k: int|
                0 <= s < n - 1 && 0 <= j < rows.deep_view()[s].len() && 0 <= k < cap implies (
            #[trigger] rows.deep_view()[s][j][k]) < cap by {
                assert(rows.deep_view()[s][j] == combined_entry(n as int, s, j));
                if k < fact(n as nat) {
                    assert(perms.deep_view()[s][j][k] == mapped_rank(
                        n as int,
                        transposition_entry(n as int, s, j),
                        k,
                    ) as u32 && perms.deep_view()[s][j][k] < fact(n as nat));
                    assert(rows.deep_view()[s][j][k] < fact(n as nat));
                } else {
                    assert(rows.deep_view()[s][j][k] == counter_entry(n as int, s, k - fact(
                        n as nat,
                    )));
                }
            }
            assert forall|s: int| 0 <= s < n - 1 implies (#[trigger] rows.deep_view()[s]).len()
                >= 1 by {
                lemma_fact_pos(s as nat);
            }
            assert forall|s: int, j: int, k: int|
                0 <= s < n - 1 && 0 <= j < rows.deep_view()[s].len() && 0 <= k < cap - (n - 2)
                implies (#[trigger] rows.deep_view()[s][j][k]) < cap - (n - 2) by {
                assert(rows.deep_view()[s][j] == combined_entry(n as int, s, j));
                assert(perms.deep_view()[s][j][k] == mapped_rank(
                    n as int,
                    transposition_entry(n as int, s, j),
                    k,
                ) as u32 && perms.deep_view()[s][j][k] < fact(n as nat));
            }
            assert forall|s: int, j: int, k: int|
                0 <= s < n - 1 && 0 <= j < rows.deep_view()[s].len() && cap - (n - 2) <= k < cap
                implies ((#[trigger] rows.deep_view()[s][j][k]) == 0 || rows.deep_view()[s][j][k]
                >= cap - (n - 2)) by {
                assert(rows.deep_view()[s][j] == combined_entry(n as int, s, j));
                assert(rows.deep_view()[s][j][k] == counter_entry(n as int, s, k - fact(n as nat)));
            }
        }
        rows
    }

    /// The counter-region remappings, one row per appendable symbol.
    pub fn counter_mappings(n: usize) -> (r: Vec<Vec<u32>>)
        requires
            2 <= n,
            fact(n as nat) + n - 2 <= u32::MAX,
        ensures
            r.deep_view().len() == n - 1,
            forall|s: int| 0 <= s < n - 1 ==> (#[trigger] r.deep_view()[s]).len() == n - 2,
            forall|s: int, k: int|
                0 <= s < n - 1 && 0 <= k < n - 2 ==> (#[trigger] r.deep_view()[s][k])
                    == counter_entry(n as int, s, k),
    {
        proof {
            lemma_fact_pos(n as nat);
        }
        let f: usize = Util::factorial(n);
        let mut rows: Vec<Vec<u32>> = Vec::new();
        let mut s: usize = 0;
        while s < n - 1
            invariant
                2 <= n,
                f == fact(n as nat),
                f + n - 2 <= u32::MAX,
                s <= n - 1,
                rows.deep_view().len() == s,
                forall|q: int| 0 <= q < s ==> (#[trigger] rows.deep_view()[q]).len() == n - 2,
                forall|q: int, k: int|
                    0 <= q < s && 0 <= k < n - 2 ==> (#[trigger] rows.deep_view()[q][k])
                        == counter_entry(n as int, q, k),
            decreases n - 1 - s,
        {
            let mut row: Vec<u32> = Vec::new();
            let mut k: usize = 0;
            while k < n - 2
                invariant
                    2 <= n,
                    f == fact(n as nat),
                    f + n - 2 <= u32::MAX,
                    s < n - 1,
                    k <= n - 2,
                    row@.len() == k,
                    forall|j: int| 0 <= j < k ==> row@[j] == counter_entry(n as int, s as int, j),
                decreases n - 2 - k,
            {
                let value: u32 = if k < (n - 2) - s {
                    if k + 3 < n {
                        (f + k + 1) as u32
                    } else {
                        0u32
                    }
                } else {
                    f as u32
                };
                row.push(value);
                k = k + 1;
            }
            let ghost pre = rows.deep_view();
            rows.push(row);
            proof {
                assert(rows.deep_view() =~~= pre.push(row@));
            }
            s = s + 1;
        }
        rows
    }

    /// For one relabeling of the alphabet, where every permutation bit
    /// moves: position `i` holds the rank of the relabeled permutation of
    /// rank `i`.
    fn transposed_ranks(tr: &Vec<u8>, n: usize, factorial: usize) -> (row: Vec<u32>)
        requires
            2 <= n <= 12,
            tr@.len() == n,
            is_permutation(tr@, n as int),
            factorial == fact(n as nat),
            fact(n as nat) + n - 2 <= u32::MAX,
        ensures
            row@.len() == factorial,
            forall|i: int|
                0 <= i < factorial ==> (#[trigger] row@[i]) == mapped_rank(n as int, tr@, i) as u32
                    && row@[i] < factorial,
    {
        let inv = invert(tr, n);
        let mut row: Vec<u32> = Vec::new();
        let mut i: usize = 0;
        while i < factorial
            invariant
                2 <= n <= 12,
                tr@.len() == n,
                is_permutation(tr@, n as int),
                factorial == fact(n as nat),
                fact(n as nat) + n - 2 <= u32::MAX,
                inv@.len() == n,
                inv@ == inverse_perm(tr@),
                forall|x: int| 0 <= x < n ==> inv@[x] < n,
                forall|x: int| 0 <= x < n ==> tr@[#[trigger] inv@[x] as int] == x as u8,
                i <= factorial,
                row@.len() == i,
                forall|q: int|
                    0 <= q < i ==> (#[trigger] row@[q]) == mapped_rank(n as int, tr@, q) as u32
                        && row@[q] < factorial,
            decreases factorial - i,
        {
            let p = perm_of_rank(i, n);
            let mut mapped: Vec<u8> = Vec::new();
            let mut j: usize = 0;
            while j < n
                invariant
                    j <= n,
                    p@ == perm_of(i as int, n as int),
                    is_permutation(p@, n as int),
                    inv@.len() == n,
                    mapped@.len() == j,
                    forall|q: int|
                        0 <= q < j ==> (#[trigger] mapped@[q]) == inv@[p@[q] as int],
                decreases n - j,
            {
                let idx: usize = p[j] as usize;
                mapped.push(inv[idx]);
                j = j + 1;
            }
            proof {
                assert(mapped@ =~= transposed_perm(n as int, tr@, i as int));
                assert forall|a: int, b: int| 0 <= a < b < n implies mapped@[a] != mapped@[b] by {
                    if mapped@[a] == mapped@[b] {
                        assert(tr@[inv@[p@[a] as int] as int] == p@[a]);
                        assert(tr@[inv@[p@[b] as int] as int] == p@[b]);
                    }
                }
                assert(is_permutation(mapped@, n as int));
            }
            let r = rank_of_perm(&mapped);
            row.push(r as u32);
            i = i + 1;
        }
        row
    }

    /// The permutation-region remappings: for each appendable symbol, one
    /// full rank remapping per transposition of that symbol.
    pub fn permutation_mappings(n: usize) -> (r: Vec<Vec<Vec<u32>>>)
        requires
            2 <= n,
            fact(n as nat) + n - 2 <= u32::MAX,
        ensures
            r.deep_view().len() == n - 1,
            forall|s: int| 0 <= s < n - 1 ==> (#[trigger] r.deep_view()[s]).len() == fact(s as nat),
            forall|s: int, t: int|
                0 <= s < n - 1 && 0 <= t < fact(s as nat) ==> (#[trigger] r.deep_view()[s][t]).len()
                    == fact(n as nat),
            forall|s: int, t: int, i: int|
                0 <= s < n - 1 && 0 <= t < fact(s as nat) && 0 <= i < fact(n as nat) ==> (
                #[trigger] r.deep_view()[s][t][i]) == mapped_rank(
                    n as int,
                    transposition_entry(n as int, s, t),
                    i,
                ) as u32 && r.deep_view()[s][t][i] < fact(n as nat),
    {
        proof {
            lemma_alphabet_small(n as int);
        }
        let factorial: usize = Util::factorial(n);
        let trs = Self::transpositions(n);
        let mut rows: Vec<Vec<Vec<u32>>> = Vec::new();
        let mut s: usize = 0;
        while s < n - 1
            invariant
                2 <= n <= 12,
                factorial == fact(n as nat),
                fact(n as nat) + n - 2 <= u32::MAX,
                s <= n - 1,
                trs.deep_view().len() == n - 1,
                forall|q: int|
                    0 <= q < n - 1 ==> (#[trigger] trs.deep_view()[q]).len() == fact(q as nat),
                forall|q: int, t: int|
                    0 <= q < n - 1 && 0 <= t < fact(q as nat) ==> (#[trigger] trs.deep_view()[q][t])
                        == transposition_entry(n as int, q, t),
                forall|q: int, t: int|
                    0 <= q < n - 1 && 0 <= t < fact(q as nat) ==> is_permutation(
                        #[trigger] perm_of(t, q),
                        q,
                    ),
                rows.deep_view().len() == s,
                forall|q: int| 0 <= q < s ==> (#[trigger] rows.deep_view()[q]).len() == fact(
                    q as nat,
                ),
                forall|q: int, t: int|
                    0 <= q < s && 0 <= t < fact(q as nat) ==> (#[trigger] rows.deep_view()[q][t]).len()
                        == fact(n as nat),
                forall|q: int, t: int, i: int|
                    0 <= q < s && 0 <= t < fact(q as nat) && 0 <= i < fact(n as nat) ==> (
                    #[trigger] rows.deep_view()[q][t][i]) == mapped_rank(
                        n as int,
                        transposition_entry(n as int, q, t),
                        i,
                    ) as u32 && rows.deep_view()[q][t][i] < fact(n as nat),
            decreases n - 1 - s,
        {
            proof {
                lemma_fact_mono(s as nat, n as nat);
            }
            let fs: usize = Util::factorial(s);
            let mut row: Vec<Vec<u32>> = Vec::new();
            let mut t: usize = 0;
            while t < fs
                invariant
                    2 <= n <= 12,
                    s < n - 1,
                    factorial == fact(n as nat),
                    fs == fact(s as nat),
                    fact(s as nat) <= fact(n as nat),
                    fact(n as nat) + n - 2 <= u32::MAX,
                    t <= fs,
                    trs.deep_view().len() == n - 1,
                    forall|q: int, u: int|
                        0 <= q < n - 1 && 0 <= u < fact(q as nat) ==> (
                        #[trigger] trs.deep_view()[q][u]) == transposition_entry(n as int, q, u),
                    forall|q: int, u: int|
                        0 <= q < n - 1 && 0 <= u < fact(q as nat) ==> is_permutation(
                            #[trigger] perm_of(u, q),
                            q,
                        ),
                    trs.deep_view()[s as int].len() == fact(s as nat),
                    row.deep_view().len() == t,
                    forall|u: int| 0 <= u < t ==> (#[trigger] row.deep_view()[u]).len() == fact(
                        n as nat,
                    ),
                    forall|u: int, i: int|
                        0 <= u < t && 0 <= i < fact(n as nat) ==> (
                        #[trigger] row.deep_view()[u][i]) == mapped_rank(
                            n as int,
                            transposition_entry(n as int, s as int, u),
                            i,
                        ) as u32 && row.deep_view()[u][i] < fact(n as nat),
                decreases fs - t,
            {
                let tr = &trs[s][t];
                proof {
                    assert(trs.deep_view()[s as int] == trs@[s as int].deep_view());
                    assert(trs@[s as int].deep_view()[t as int] == trs@[s as int]@[t as int]@);
                    assert(tr@ == transposition_entry(n as int, s as int, t as int));
                    assert(is_permutation(perm_of(t as int, s as int), s as int));
                    lemma_transposition_is_permutation(n as int, s as int, t as int);
                }
                let ranks = Self::transposed_ranks(tr, n, factorial);
                let ghost prerow = row.deep_view();
                row.push(ranks);
                proof {
                    assert(row.deep_view() =~~= prerow.push(ranks@));
                }
                t = t + 1;
            }
            let ghost pre = rows.deep_view();
            rows.push(row);
            proof {
                assert(rows.deep_view() =~~= pre.push(row.deep_view()));
            }
            s = s + 1;
        }
        rows
    }

    /// The transpositions of each appendable symbol: every relabeling of
    /// the alphabet that is indistinguishable when that symbol is appended.
    pub fn transpositions(n: usize) -> (r: Vec<Vec<Vec<u8>>>)
        requires
            2 <= n,
            fact(n as nat) + n - 2 <= u32::MAX,
        ensures
            r.deep_view().len() == n - 1,
            forall|s: int| 0 <= s < n - 1 ==> (#[trigger] r.deep_view()[s]).len() == fact(s as nat),
            forall|s: int, t: int|
                0 <= s < n - 1 && 0 <= t < fact(s as nat) ==> (#[trigger] r.deep_view()[s][t])
                    == transposition_entry(n as int, s, t),
            forall|s: int, t: int|
                0 <= s < n - 1 && 0 <= t < fact(s as nat) ==> is_permutation(
                    #[trigger] perm_of(t, s),
                    s,
                ),
    {
        proof {
            lemma_alphabet_small(n as int);
        }
        let mut rows: Vec<Vec<Vec<u8>>> = Vec::new();
        let mut s: usize = 0;
        while s < n - 1
            invariant
                2 <= n <= 12,
                fact(n as nat) + n - 2 <= u32::MAX,
                s <= n - 1,
                rows.deep_view().len() == s,
                forall|q: int| 0 <= q < s ==> (#[trigger] rows.deep_view()[q]).len() == fact(
                    q as nat,
                ),
                forall|q: int, t: int|
                    0 <= q < s && 0 <= t < fact(q as nat) ==> (#[trigger] rows.deep_view()[q][t])
                        == transposition_entry(n as int, q, t),
                forall|q: int, t: int|
                    0 <= q < s && 0 <= t < fact(q as nat) ==> is_permutation(
                        #[trigger] perm_of(t, q),
                        q,
                    ),
            decreases n - 1 - s,
        {
            proof {
                lemma_fact_mono(s as nat, n as nat);
            }
            let fs: usize = Util::factorial(s);
            let mut row: Vec<Vec<u8>> = Vec::new();
            let mut t: usize = 0;
            while t < fs
                invariant
                    2 <= n <= 12,
                    s < n - 1,
                    fs == fact(s as nat),
                    fact(s as nat) <= fact(n as nat),
                    fact(n as nat) + n - 2 <= u32::MAX,
                    t <= fs,
                    row.deep_view().len() == t,
                    forall|q: int|
                        0 <= q < t ==> (#[trigger] row.deep_view()[q]) == transposition_entry(
                            n as int,
                            s as int,
                            q,
                        ),
                    forall|q: int| 0 <= q < t ==> is_permutation(#[trigger] perm_of(q, s as int), s as int),
                decreases fs - t,
            {
                let perm = perm_of_rank(t, s);
                let mut entry: Vec<u8> = Vec::new();
                let mut j: usize = 0;
                while j < s
                    invariant
                        j <= s < n <= 12,
                        perm@ == perm_of(t as int, s as int),
                        perm@.len() == s,
                        entry@.len() == j,
                        forall|q: int| 0 <= q < j ==> entry@[q] == perm_of(t as int, s as int)[q],
                    decreases s - j,
                {
                    entry.push(perm[j]);
                    j = j + 1;
                }
                let mut j: usize = s;
                while j < n - 1
                    invariant
                        s <= j <= n - 1,
                        n <= 12,
                        perm@ == perm_of(t as int, s as int),
                        entry@.len() == j,
                        forall|q: int| 0 <= q < s ==> entry@[q] == perm_of(t as int, s as int)[q],
                        forall|q: int| s <= q < j ==> entry@[q] == (q + 1) as u8,
                    decreases n - 1 - j,
                {
                    entry.push((j + 1) as u8);
                    j = j + 1;
                }
                entry.push(s as u8);
                proof {
                    assert(entry@ =~= transposition_entry(n as int, s as int, t as int));
                }
                let ghost prerow = row.deep_view();
                row.push(entry);
                proof {
                    assert(row.deep_view() =~~= prerow.push(entry@));
                }
                t = t + 1;
            }
            let ghost pre = rows.deep_view();
            rows.push(row);
            proof {
                assert(rows.deep_view() =~~= pre.push(row.deep_view()));
            }
            s = s + 1;
        }
        rows
    }
}

} // verus!
