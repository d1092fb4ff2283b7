//! The binomial coefficient, by Pascal's rule, and its value in factorials.

use vstd::prelude::*;

verus! {

/// The number of `k`-element subsets of an `n`-element set.
pub open spec fn binomial(n: nat, k: nat) -> nat
    decreases n,
{
    if k == 0 {
        1
    } else if n == 0 {
        0
    } else {
        binomial((n - 1) as nat, (k - 1) as nat) + binomial((n - 1) as nat, k)
    }
}

/// No subset is larger than the set it is taken from.
pub proof fn lemma_binomial_zero(n: nat, k: nat)
    requires
        k > n,
    ensures
        binomial(n, k) == 0,
    decreases n,
{
    if n > 0 {
        lemma_binomial_zero((n - 1) as nat, (k - 1) as nat);
        lemma_binomial_zero((n - 1) as nat, k);
    }
}

/// The whole set is its only subset of full size.
pub proof fn lemma_binomial_full(n: nat)
    ensures
        binomial(n, n) == 1,
    decreases n,
{
    if n > 0 {
        lemma_binomial_full((n - 1) as nat);
        lemma_binomial_zero((n - 1) as nat, n);
    }
}

/// There is at least one subset of every size up to that of the set.
pub proof fn lemma_binomial_positive(n: nat, k: nat)
    requires
        k <= n,
    ensures
        binomial(n, k) >= 1,
    decreases n,
{
    if k > 0 && n > 0 {
        lemma_binomial_positive((n - 1) as nat, (k - 1) as nat);
    }
}

/// The product of the numbers from 1 to `n`.
pub open spec fn factorial(n: nat) -> nat
    decreases n,
{
    if n == 0 {
        1
    } else {
        n * factorial((n - 1) as nat)
    }
}

/// The binomial coefficient is `n! / (k! (n - k)!)`.
pub proof fn lemma_binomial_factorial(n: nat, k: nat)
    requires
        k <= n,
    ensures
        binomial(n, k) * factorial(k) * factorial((n - k) as nat) == factorial(n),
    decreases n,
{
    if k == 0 {
        assert(1 * 1 * factorial(n) == factorial(n));
    } else if k == n {
        lemma_binomial_full(n);
        assert(1 * factorial(n) * 1 == factorial(n));
    } else {
        let m = (n - 1) as nat;
        let j = (k - 1) as nat;
        let r = (n - k) as nat;
        let q = (r - 1) as nat;
        let a = binomial(m, j);
        let b = binomial(m, k);
        lemma_binomial_factorial(m, j);
        lemma_binomial_factorial(m, k);
        let fj = factorial(j);
        let fk = factorial(k);
        let fr = factorial(r);
        let fq = factorial(q);
        let fm = factorial(m);
        assert(fk == k * fj);
        assert(fr == r * fq);
        assert(a * fj * fr == fm);
        assert(b * fk * fq == fm);
        assert((a + b) * fk * fr == n * fm) by (nonlinear_arith)
            requires
                fk == k * fj,
                fr == r * fq,
                a * fj * fr == fm,
                b * fk * fq == fm,
                k + r == n,
        {
            assert(a * fk * fr == k * (a * fj * fr));
            assert(b * fk * fr == r * (b * fk * fq));
            assert((a + b) * fk * fr == a * fk * fr + b * fk * fr);
        }
    }
}

} // verus!
