//! Binomial coefficients: the number of basis blades of each grade.

use vstd::prelude::*;

verus! {

/// The binomial coefficient C(n, k), by Pascal's rule.
pub open spec fn binom(n: nat, k: nat) -> nat
    decreases n,
{
    if k == 0 {
        1
    } else if n == 0 {
        0
    } else {
        binom((n - 1) as nat, (k - 1) as nat) + binom((n - 1) as nat, k)
    }
}

/// The number of multiplicative steps that `binomial` performs: it works
/// with the smaller of `k` and `n - k`.
pub open spec fn binomial_steps(n: nat, k: nat) -> nat {
    if k > n {
        0
    } else if k <= n - k {
        k
    } else {
        (n - k) as nat
    }
}

/// No intermediate product `C(n, i) * (n - i)` of the computation overflows `usize`.
pub open spec fn binomial_fits(n: nat, k: nat) -> bool {
    forall|i: nat| i < binomial_steps(n, k) ==> #[trigger] binom(n, i) * (n - i) <= usize::MAX
}

pub proof fn lemma_binom_above(n: nat, k: nat)
    requires
        k > n,
    ensures
        binom(n, k) == 0,
    decreases n,
{
    if n > 0 {
        lemma_binom_above((n - 1) as nat, (k - 1) as nat);
        lemma_binom_above((n - 1) as nat, k);
    }
}

pub proof fn lemma_binom_diagonal(n: nat)
    ensures
        binom(n, n) == 1,
    decreases n,
{
    if n > 0 {
        lemma_binom_diagonal((n - 1) as nat);
        lemma_binom_above((n - 1) as nat, n);
    }
}

pub proof fn lemma_binom_one(n: nat)
    ensures
        binom(n, 1) == n,
    decreases n,
{
    if n > 0 {
        lemma_binom_one((n - 1) as nat);
        assert(binom((n - 1) as nat, 0) == 1);
    }
}

/// C(n, k) = C(n, n - k).
pub proof fn lemma_binom_symmetric(n: nat, k: nat)
    requires
        k <= n,
    ensures
        binom(n, k) == binom(n, (n - k) as nat),
    decreases n,
{
    if k == 0 {
        lemma_binom_diagonal(n);
    } else if k == n {
        lemma_binom_diagonal(n);
    } else {
        lemma_binom_symmetric((n - 1) as nat, (k - 1) as nat);
        lemma_binom_symmetric((n - 1) as nat, k);
        assert(binom(n, (n - k) as nat) == binom((n - 1) as nat, (n - k - 1) as nat) + binom(
            (n - 1) as nat,
            (n - k) as nat,
        ));
    }
}

/// (k + 1) C(n, k + 1) = n C(n - 1, k).
pub proof fn lemma_binom_absorb(n: nat, k: nat)
    requires
        n >= 1,
    ensures
        (k + 1) * binom(n, k + 1) == n * binom((n - 1) as nat, k),
    decreases n, k,
{
    if k == 0 {
        lemma_binom_one(n);
        assert(binom((n - 1) as nat, 0) == 1);
        assert(binom(n, k + 1) == n);
        assert((k + 1) * binom(n, k + 1) == n * binom((n - 1) as nat, k)) by (nonlinear_arith)
            requires
                k == 0,
                binom(n, k + 1) == n,
                binom((n - 1) as nat, k) == 1,
        ;
    } else if n == 1 {
        lemma_binom_above(0, k);
        lemma_binom_above(1, k + 1);
        assert((k + 1) * 0 == 0);
        assert((k + 1) * binom(n, k + 1) == n * binom((n - 1) as nat, k));
    } else {
        let a = binom((n - 1) as nat, k);
        let b = binom((n - 1) as nat, k + 1);
        let c = binom((n - 2) as nat, (k - 1) as nat);
        let d = binom((n - 2) as nat, k);
        lemma_binom_absorb((n - 1) as nat, k);
        lemma_binom_absorb(n, (k - 1) as nat);
        lemma_binom_absorb((n - 1) as nat, (k - 1) as nat);
        assert(binom(n, k + 1) == a + b);
        assert(a == c + d);
        assert((k + 1) * b == (n - 1) * d);
        assert(k * a == (n - 1) * c);
        assert((k + 1) * (a + b) == n * a) by (nonlinear_arith)
            requires
                (k + 1) * b == (n - 1) * d,
                k * a == (n - 1) * c,
                a == c + d,
                n >= 2,
        ;
        assert((k + 1) * binom(n, k + 1) == (k + 1) * (a + b));
        assert((k + 1) * binom(n, k + 1) == n * binom((n - 1) as nat, k));
    }
}

/// C(n, i) (n - i) = C(n, i + 1) (i + 1): one step of the multiplicative formula.
pub proof fn lemma_binom_step(n: nat, i: nat)
    requires
        i < n,
    ensures
        binom(n, i) * (n - i) == binom(n, i + 1) * (i + 1),
{
    let j = (n - i - 1) as nat;
    lemma_binom_absorb(n, i);
    lemma_binom_absorb(n, j);
    lemma_binom_symmetric(n, i);
    lemma_binom_symmetric((n - 1) as nat, i);
    assert((n - i) as nat == j + 1);
    assert((n - 1 - i) as nat == j);
    let x = binom(n, i);
    let y = binom(n, i + 1);
    let z = binom((n - 1) as nat, i);
    assert(x == binom(n, j + 1));
    assert((j + 1) * x == n * z);
    assert((i + 1) * y == n * z);
    assert(x * (n - i) == y * (i + 1)) by (nonlinear_arith)
        requires
            (n - i) == j + 1,
            (j + 1) * x == n * z,
            (i + 1) * y == n * z,
    ;
}

/// `C(n, k)`, or `None` when the computation would overflow `usize`.
pub fn checked_binomial(n: usize, k: usize) -> (res: Option<usize>)
    ensures
        res is Some <==> binomial_fits(n as nat, k as nat),
        res matches Some(v) ==> v == binom(n as nat, k as nat),
{
    if k > n {
        proof {
            lemma_binom_above(n as nat, k as nat);
        }
        return Some(0);
    }
    if k == 0 || k == n {
        proof {
            lemma_binom_diagonal(n as nat);
        }
        return Some(1);
    }
    let m = if k <= n - k {
        k
    } else {
        n - k
    };
    proof {
        if m != k {
            lemma_binom_symmetric(n as nat, k as nat);
        }
    }
    let mut result: usize = 1;
    let mut i: usize = 0;
    while i < m
        invariant
            0 < k < n,
            m == binomial_steps(n as nat, k as nat),
            m <= n,
            binom(n as nat, k as nat) == binom(n as nat, m as nat),
            i <= m,
            result == binom(n as nat, i as nat),
            forall|j: nat| j < i ==> #[trigger] binom(n as nat, j) * (n - j) <= usize::MAX,
        decreases m - i,
    {
        match result.checked_mul(n - i) {
            Some(p) => {
                proof {
                    lemma_binom_step(n as nat, i as nat);
                    vstd::arithmetic::div_mod::lemma_div_by_multiple(
                        binom(n as nat, (i + 1) as nat) as int,
                        (i + 1) as int,
                    );
                }
                result = p / (i + 1);
            },
            None => {
                return None;
            },
        }
        i = i + 1;
    }
    Some(result)
}

/// The binomial coefficient C(n, k): the number of k-element subsets of an
/// n-element set, and so the number of grade-k basis blades in n dimensions.
pub fn binomial(n: usize, k: usize) -> (res: usize)
    requires
        binomial_fits(n as nat, k as nat),
    ensures
        res == binom(n as nat, k as nat),
{
    match checked_binomial(n, k) {
        Some(v) => v,
        None => 0,
    }
}

} // verus!
