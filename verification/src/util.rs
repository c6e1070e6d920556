//! Small arithmetic helpers shared by every module: the factorial function,
//! which sizes the permutation region of a candidate's bit-vector.

use vstd::prelude::*;

verus! {

/// Mathematical factorial, the reference for all capacity computations.
pub open spec fn fact(n: nat) -> nat
    decreases n,
{
    if n == 0 {
        1
    } else {
        n * fact((n - 1) as nat)
    }
}

/// Factorial is at least one.
pub proof fn lemma_fact_pos(n: nat)
    ensures
        fact(n) >= 1,
    decreases n,
{
    if n > 0 {
        lemma_fact_pos((n - 1) as nat);
        assert(fact(n) == n * fact((n - 1) as nat));
        assert(n * fact((n - 1) as nat) >= 1 * 1) by (nonlinear_arith)
            requires n >= 1 && fact((n - 1) as nat) >= 1;
    }
}

/// Factorial is monotone.
pub proof fn lemma_fact_mono(a: nat, b: nat)
    requires
        a <= b,
    ensures
        fact(a) <= fact(b),
    decreases b,
{
    if a < b {
        lemma_fact_mono(a, (b - 1) as nat);
        lemma_fact_pos((b - 1) as nat);
        assert(fact(b) == b * fact((b - 1) as nat));
        assert(b * fact((b - 1) as nat) >= 1 * fact((b - 1) as nat)) by (nonlinear_arith)
            requires b >= 1;
    }
}

pub struct Util {}

impl Util {
    /// Computes `n!`, the number of permutations of `n` symbols.
    pub fn factorial(n: usize) -> (r: usize)
        requires
            fact(n as nat) <= usize::MAX,
        ensures
            r == fact(n as nat),
    {
        let mut acc: usize = 1;
        let mut i: usize = 0;
        while i < n
            invariant
                i <= n,
                acc == fact(i as nat),
                fact(n as nat) <= usize::MAX,
            decreases n - i,
        {
            i = i + 1;
            proof {
                lemma_fact_mono(i as nat, n as nat);
                assert(fact(i as nat) == i * fact((i - 1) as nat));
                assert(acc * i == fact(i as nat)) by (nonlinear_arith)
                    requires
                        acc == fact((i - 1) as nat),
                        fact(i as nat) == i * fact((i - 1) as nat);
            }
            acc = acc * i;
        }
        acc
    }
}

} // verus!
