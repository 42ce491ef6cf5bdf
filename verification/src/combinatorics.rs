//! Binomial coefficients: the mathematical definition and the identities the
//! rest of the crate relies on.
use vstd::prelude::*;

verus! {

/// The number of ways to choose `k` items out of `n`, by Pascal's rule.
pub open spec fn binomial(n: nat, k: nat) -> nat
    decreases n,
{
    if k == 0 {
        1
    } else if n == 0 {
        0
    } else {
        binomial((n - 1) as nat, (k - 1) as nat) + binomial((n - 1) as nat, k)
    }
}

/// Choosing more items than there are gives no way at all.
pub proof fn lemma_binomial_zero_above(n: nat, k: nat)
    requires
        k > n,
    ensures
        binomial(n, k) == 0,
    decreases n,
{
    if n > 0 {
        lemma_binomial_zero_above((n - 1) as nat, (k - 1) as nat);
        lemma_binomial_zero_above((n - 1) as nat, k);
    }
}

/// Choosing at most `n` items out of `n` is always possible.
pub proof fn lemma_binomial_positive(n: nat, k: nat)
    requires
        k <= n,
    ensures
        binomial(n, k) >= 1,
    decreases n,
{
    if k > 0 {
        lemma_binomial_positive((n - 1) as nat, (k - 1) as nat);
    }
}

/// Choosing all `n` items can be done in exactly one way.
pub proof fn lemma_binomial_all(n: nat)
    ensures
        binomial(n, n) == 1,
    decreases n,
{
    if n > 0 {
        lemma_binomial_all((n - 1) as nat);
        lemma_binomial_zero_above((n - 1) as nat, n);
    }
}

/// Absorption: `(k + 1) * C(n, k + 1) == n * C(n - 1, k)`.
proof fn lemma_binomial_absorption(n: nat, k: nat)
    requires
        n >= 1,
    ensures
        (k + 1) * binomial(n, k + 1) == n * binomial((n - 1) as nat, k),
    decreases n,
{
    let m = (n - 1) as nat;
    if m == 0 {
        if k > 0 {
            lemma_binomial_zero_above(0, k);
            lemma_binomial_zero_above(1, k + 1);
            assert(binomial(n, k + 1) == 0);
            assert(binomial(m, k) == 0);
        } else {
            lemma_binomial_zero_above(0, 1);
            assert(binomial(n, 1) == 1);
        }
    } else {
        // C(n, k+1) = C(m, k) + C(m, k+1)
        lemma_binomial_absorption(m, k);
        // (k+1) * C(m, k+1) == m * C(m-1, k)
        if k == 0 {
            // C(n, 1) = C(m, 0) + C(m, 1) = 1 + m
            assert(binomial((m - 1) as nat, 0) == 1);
            assert(binomial(m, 1) == m) by (nonlinear_arith)
                requires
                    1 * binomial(m, 1) == m * binomial((m - 1) as nat, 0),
                    binomial((m - 1) as nat, 0) == 1,
            ;
            assert(binomial(n, 1) == 1 + binomial(m, 1));
            assert(binomial(m, 0) == 1);
        } else {
            lemma_binomial_absorption(m, (k - 1) as nat);
            // k * C(m, k) == m * C(m-1, k-1)
            let a = binomial(m, k);
            let b = binomial(m, k + 1);
            let c = binomial((m - 1) as nat, (k - 1) as nat);
            let d = binomial((m - 1) as nat, k);
            assert(binomial(n, k + 1) == a + b);
            assert(binomial(m, k) == c + d);
            assert((k + 1) * (a + b) == n * a) by (nonlinear_arith)
                requires
                    (k + 1) * b == m * d,
                    k * a == m * c,
                    a == c + d,
                    n == m + 1,
            ;
        }
    }
}

/// The multiplicative step of `comb`: `C(n, i) * (n - i) == C(n, i + 1) * (i + 1)`.
pub proof fn lemma_binomial_step(n: nat, i: nat)
    requires
        i < n,
    ensures
        binomial(n, i) * (n - i) == binomial(n, i + 1) * (i + 1),
{
    let m = (n - 1) as nat;
    lemma_binomial_absorption(n, i);
    // (n - i) * C(n, i) == n * C(m, i)
    let b = binomial(n, i + 1);
    let d = binomial(m, i);
    assert((i + 1) * b == n * d);
    if i == 0 {
        assert(binomial(n, 0) == 1);
        assert(binomial(m, 0) == 1);
        assert(binomial(n, i) * (n - i) == b * (i + 1)) by (nonlinear_arith)
            requires
                binomial(n, i) == 1,
                d == 1,
                i == 0,
                (i + 1) * b == n * d,
        ;
    } else {
        lemma_binomial_absorption(n, (i - 1) as nat);
        let a = binomial(n, i);
        let c = binomial(m, (i - 1) as nat);
        assert(a == c + d);
        assert(a * (n - i) == b * (i + 1)) by (nonlinear_arith)
            requires
                i * a == n * c,
                a == c + d,
                i < n,
                (i + 1) * b == n * d,
        ;
    }
}

/// Symmetry: `C(n, k) == C(n, n - k)`.
pub proof fn lemma_binomial_symmetry(n: nat, k: nat)
    requires
        k <= n,
    ensures
        binomial(n, k) == binomial(n, (n - k) as nat),
    decreases n,
{
    if k == 0 {
        lemma_binomial_all(n);
    } else if k == n {
        lemma_binomial_all(n);
    } else {
        let m = (n - 1) as nat;
        lemma_binomial_symmetry(m, (k - 1) as nat);
        lemma_binomial_symmetry(m, k);
        assert((n - k) as nat > 0);
        assert(binomial(n, (n - k) as nat) == binomial(m, (n - k - 1) as nat) + binomial(m, (n - k) as nat));
    }
}

/// Up to the middle of a row the coefficients grow: `C(n, i) <= C(n, k)`
/// for `i <= k <= n - k`.
pub proof fn lemma_binomial_increasing(n: nat, i: nat, k: nat)
    requires
        i <= k,
        k + k <= n,
    ensures
        binomial(n, i) <= binomial(n, k),
    decreases k - i,
{
    if i < k {
        lemma_binomial_increasing(n, i + 1, k);
        lemma_binomial_step(n, i);
        let a = binomial(n, i);
        let b = binomial(n, i + 1);
        assert(a <= b) by (nonlinear_arith)
            requires
                a * (n - i) == b * (i + 1),
                i + 1 <= n - i,
        ;
    }
}

/// One term of Vandermonde's convolution: choosing `x` of the `d` items from
/// a group of `m` and the rest from a group of `n`.
pub open spec fn vandermonde_term(m: nat, n: nat, d: nat, x: nat) -> nat {
    if x <= d {
        binomial(m, x) * binomial(n, (d - x) as nat)
    } else {
        0
    }
}

/// The first `j` terms of Vandermonde's convolution.
pub open spec fn vandermonde_sum(m: nat, n: nat, d: nat, j: nat) -> nat
    decreases j,
{
    if j == 0 {
        0
    } else {
        vandermonde_sum(m, n, d, (j - 1) as nat) + vandermonde_term(m, n, d, (j - 1) as nat)
    }
}

proof fn lemma_vandermonde_empty_group(n: nat, d: nat, j: nat)
    requires
        1 <= j <= d + 1,
    ensures
        vandermonde_sum(0, n, d, j) == binomial(n, d),
    decreases j,
{
    let x = (j - 1) as nat;
    let c = binomial(n, (d - x) as nat);
    assert(vandermonde_sum(0, n, d, j) == vandermonde_sum(0, n, d, x) + vandermonde_term(0, n, d, x));
    assert(vandermonde_term(0, n, d, x) == binomial(0, x) * c);
    if j > 1 {
        lemma_vandermonde_empty_group(n, d, x);
        lemma_binomial_zero_above(0, x);
        assert(binomial(0, x) * c == 0) by (nonlinear_arith)
            requires
                binomial(0, x) == 0,
        ;
    } else {
        assert(binomial(0, 0) * c == c) by (nonlinear_arith)
            requires
                binomial(0, 0) == 1,
        ;
    }
}

proof fn lemma_vandermonde_grow(m: nat, n: nat, d: nat, j: nat)
    requires
        d >= 1,
        1 <= j <= d + 1,
    ensures
        vandermonde_sum(m + 1, n, d, j) == vandermonde_sum(m, n, d, j) + vandermonde_sum(
            m,
            n,
            (d - 1) as nat,
            (j - 1) as nat,
        ),
    decreases j,
{
    if j > 1 {
        let x = (j - 1) as nat;
        lemma_vandermonde_grow(m, n, d, x);
        let c = binomial(n, (d - x) as nat);
        let u = binomial(m, (x - 1) as nat);
        let v = binomial(m, x);
        assert(binomial(m + 1, x) == u + v);
        assert(vandermonde_term(m + 1, n, d, x) == (u + v) * c);
        assert(vandermonde_term(m, n, d, x) == v * c);
        assert(vandermonde_term(m, n, (d - 1) as nat, (x - 1) as nat) == u * c);
        assert(vandermonde_sum(m + 1, n, d, j) == vandermonde_sum(m + 1, n, d, x)
            + vandermonde_term(m + 1, n, d, x));
        assert(vandermonde_sum(m, n, d, j) == vandermonde_sum(m, n, d, x) + vandermonde_term(m, n, d, x));
        assert(vandermonde_sum(m, n, (d - 1) as nat, x) == vandermonde_sum(m, n, (d - 1) as nat, (x - 1) as nat)
            + vandermonde_term(m, n, (d - 1) as nat, (x - 1) as nat));
        assert((u + v) * c == v * c + u * c) by (nonlinear_arith);
    } else {
        let c = binomial(n, d);
        assert(vandermonde_sum(m + 1, n, d, 0) == 0);
        assert(vandermonde_sum(m, n, d, 0) == 0);
        assert(vandermonde_sum(m, n, (d - 1) as nat, 0) == 0);
        assert(vandermonde_sum(m + 1, n, d, 1) == vandermonde_term(m + 1, n, d, 0));
        assert(vandermonde_sum(m, n, d, 1) == vandermonde_term(m, n, d, 0));
        assert(binomial(m + 1, 0) * c == binomial(m, 0) * c) by (nonlinear_arith)
            requires
                binomial(m + 1, 0) == 1,
                binomial(m, 0) == 1,
        ;
    }
}

/// Vandermonde's identity: `sum_x C(m, x) * C(n, d - x) == C(m + n, d)`.
pub proof fn lemma_vandermonde(m: nat, n: nat, d: nat)
    ensures
        vandermonde_sum(m, n, d, d + 1) == binomial(m + n, d),
    decreases m,
{
    if m == 0 {
        lemma_vandermonde_empty_group(n, d, d + 1);
    } else {
        let k = (m - 1) as nat;
        lemma_vandermonde(k, n, d);
        if d == 0 {
            assert(vandermonde_sum(m, n, 0, 0) == 0);
            assert(vandermonde_sum(m, n, 0, 1) == vandermonde_term(m, n, 0, 0));
            assert(vandermonde_term(m, n, 0, 0) == binomial(m, 0) * binomial(n, 0));
            assert(vandermonde_term(m, n, 0, 0) == 1) by (nonlinear_arith)
                requires
                    binomial(m, 0) == 1,
                    binomial(n, 0) == 1,
                    vandermonde_term(m, n, 0, 0) == binomial(m, 0) * binomial(n, 0),
            ;
        } else {
            lemma_vandermonde(k, n, (d - 1) as nat);
            lemma_vandermonde_grow(k, n, d, d + 1);
            assert(binomial(m + n, d) == binomial((m + n - 1) as nat, (d - 1) as nat) + binomial(
                (m + n - 1) as nat,
                d,
            ));
        }
    }
}

/// A single term never exceeds a partial sum that contains it.
pub proof fn lemma_vandermonde_term_le_sum(m: nat, n: nat, d: nat, x: nat, j: nat)
    requires
        x < j,
    ensures
        vandermonde_term(m, n, d, x) <= vandermonde_sum(m, n, d, j),
    decreases j,
{
    if x < j - 1 {
        lemma_vandermonde_term_le_sum(m, n, d, x, (j - 1) as nat);
    }
}

/// Partial sums grow with the number of terms.
pub proof fn lemma_vandermonde_sum_monotone(m: nat, n: nat, d: nat, i: nat, j: nat)
    requires
        i <= j,
    ensures
        vandermonde_sum(m, n, d, i) <= vandermonde_sum(m, n, d, j),
    decreases j,
{
    if i < j {
        lemma_vandermonde_sum_monotone(m, n, d, i, (j - 1) as nat);
    }
}

} // verus!
