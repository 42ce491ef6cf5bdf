//! Small exact helpers: binomial coefficients and running totals.
use vstd::prelude::*;
use vstd::arithmetic::div_mod::lemma_div_by_multiple;
use crate::combinatorics::{
    binomial, lemma_binomial_all, lemma_binomial_increasing, lemma_binomial_step, lemma_binomial_symmetry,
    lemma_binomial_zero_above,
};

verus! {

/// `C(n, k)` when it fits in a `u64`, `None` otherwise.
pub open spec fn exact_comb(n: nat, k: nat) -> Option<u64> {
    if binomial(n, k) <= u64::MAX {
        Some(binomial(n, k) as u64)
    } else {
        None
    }
}

/// The binomial coefficient `C(n, k)`, computed exactly, or `None` when it
/// does not fit in a `u64`. It is symmetric, 1 when choosing none or all,
/// and 0 when choosing more items than there are, for every `n`.
pub fn comb(n: u32, k: u32) -> (result: Option<u64>)
    ensures
        result == exact_comb(n as nat, k as nat),
        k <= n ==> result == exact_comb(n as nat, (n - k) as nat),
        k == 0 || k == n ==> result == Some(1u64),
        k > n ==> result == Some(0u64),
{
    proof {
        lemma_binomial_all(n as nat);
        if k <= n {
            lemma_binomial_symmetry(n as nat, k as nat);
        } else {
            lemma_binomial_zero_above(n as nat, k as nat);
        }
    }
    if k > n {
        return Some(0);
    }
    let m = if k < n - k { k } else { n - k };
    if m == 0 {
        return Some(1);
    }
    let mut result: u128 = 1;
    let mut i: u32 = 0;
    while i < m
        invariant
            i <= m,
            m <= n - m,
            k <= n,
            binomial(n as nat, m as nat) == binomial(n as nat, k as nat),
            binomial(n as nat, k as nat) == binomial(n as nat, (n - k) as nat),
            result == binomial(n as nat, i as nat),
            result <= u64::MAX,
        decreases m - i,
    {
        proof {
            lemma_binomial_step(n as nat, i as nat);
            let b = binomial(n as nat, (i + 1) as nat);
            assert(result * (n - i) <= 0xffff_ffff_ffff_ffff * 0xffff_ffff) by (nonlinear_arith)
                requires
                    result <= 0xffff_ffff_ffff_ffff,
                    n - i <= 0xffff_ffff,
            ;
            lemma_div_by_multiple(b as int, (i + 1) as int);
        }
        let next = result * ((n - i) as u128) / ((i + 1) as u128);
        if next > u64::MAX as u128 {
            proof {
                lemma_binomial_increasing(n as nat, (i + 1) as nat, m as nat);
            }
            return None;
        }
        result = next;
        i = i + 1;
    }
    Some(result as u64)
}

/// The sum of a list of costs.
pub open spec fn cost_sum(costs: Seq<u32>) -> nat
    decreases costs.len(),
{
    if costs.len() == 0 {
        0
    } else {
        cost_sum(costs.drop_last()) + costs.last() as nat
    }
}

/// A list whose entries are at most `max` sums to at most `max` per entry.
pub proof fn lemma_cost_sum_bound(costs: Seq<u32>, max: nat)
    requires
        forall|i: int| 0 <= i < costs.len() ==> costs[i] <= max,
    ensures
        cost_sum(costs) <= max * costs.len(),
    decreases costs.len(),
{
    if costs.len() > 0 {
        lemma_cost_sum_bound(costs.drop_last(), max);
        assert(max * (costs.len() - 1) + max == max * costs.len()) by (nonlinear_arith);
    }
}

/// The running totals of `costs`: entry `i` is the cost of the first `i`
/// items.
pub fn prefix_sums(costs: &[u32]) -> (prefix: Vec<u64>)
    requires
        cost_sum(costs@) <= u64::MAX,
    ensures
        prefix@.len() == costs@.len() + 1,
        forall|i: int| 0 <= i <= costs@.len() ==> #[trigger] prefix@[i] == cost_sum(costs@.take(i)),
{
    let mut prefix: Vec<u64> = Vec::new();
    prefix.push(0);
    let mut acc: u64 = 0;
    let mut i: usize = 0;
    assert(costs@.take(0) =~= Seq::<u32>::empty());
    while i < costs.len()
        invariant
            i <= costs@.len(),
            cost_sum(costs@) <= u64::MAX,
            acc == cost_sum(costs@.take(i as int)),
            prefix@.len() == i + 1,
            forall|k: int| 0 <= k <= i ==> #[trigger] prefix@[k] == cost_sum(costs@.take(k)),
        decreases costs@.len() - i,
    {
        proof {
            assert(costs@.take(i + 1).drop_last() =~= costs@.take(i as int));
            lemma_cost_sum_prefix(costs@, i + 1);
        }
        acc = acc + costs[i] as u64;
        prefix.push(acc);
        i = i + 1;
    }
    prefix
}

/// A prefix costs at most as much as the whole list.
pub proof fn lemma_cost_sum_prefix(costs: Seq<u32>, i: int)
    requires
        0 <= i <= costs.len(),
    ensures
        cost_sum(costs.take(i)) <= cost_sum(costs),
    decreases costs.len(),
{
    if i < costs.len() {
        lemma_cost_sum_prefix(costs.drop_last(), i);
        assert(costs.drop_last().take(i) =~= costs.take(i));
    } else {
        assert(costs.take(i) =~= costs);
    }
}

} // verus!
