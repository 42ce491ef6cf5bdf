//! How many plans the search goes through.
use vstd::prelude::*;
use vstd::set::{axiom_set_insert_len, axiom_set_union_finite};
use vstd::set_lib::lemma_set_disjoint_lens;
use crate::pmf::Plan;
use crate::plan::{plan_count, plan_valid, plans_below};

verus! {

/// The plans with `k_pf` proof formulations, `k_def` definitions and
/// `k_pp` full proofs, and fewer than `extras` other formulations.
spec fn extras_below(k_pf: u8, k_def: u8, k_pp: u8, extras: nat) -> Set<Plan> {
    Set::new(
        |q: Plan| q.k_pf == k_pf && q.k_def == k_def && q.k_pp == k_pp && q.k_extra < extras,
    )
}

/// The plans with `k_pf` proof formulations and `k_def` definitions, fewer
/// than `proofs` full proofs and fewer than `extras` other formulations.
spec fn proofs_below(k_pf: u8, k_def: u8, proofs: nat, extras: nat) -> Set<Plan> {
    Set::new(
        |q: Plan| q.k_pf == k_pf && q.k_def == k_def && q.k_pp < proofs && q.k_extra < extras,
    )
}

/// The plans with `k_pf` proof formulations, fewer than `defs` definitions,
/// fewer than `proofs` full proofs and fewer than `extras` other
/// formulations.
spec fn defs_below(k_pf: u8, defs: nat, proofs: nat, extras: nat) -> Set<Plan> {
    Set::new(|q: Plan| q.k_pf == k_pf && q.k_def < defs && q.k_pp < proofs && q.k_extra < extras)
}

/// The plans of the search with fewer than `end` proof formulations.
spec fn valid_below(end: nat) -> Set<Plan> {
    Set::new(|q: Plan| plan_valid(q) && q.k_pf < end)
}

proof fn lemma_extras_below(k_pf: u8, k_def: u8, k_pp: u8, extras: nat)
    requires
        extras <= 256,
    ensures
        extras_below(k_pf, k_def, k_pp, extras).finite(),
        extras_below(k_pf, k_def, k_pp, extras).len() == extras,
    decreases extras,
{
    let s = extras_below(k_pf, k_def, k_pp, extras);
    if extras == 0 {
        assert(s =~= Set::empty());
    } else {
        let e = (extras - 1) as nat;
        let fewer = extras_below(k_pf, k_def, k_pp, e);
        lemma_extras_below(k_pf, k_def, k_pp, e);
        let added = Plan { k_def, k_extra: e as u8, k_pf, k_pp };
        assert(s =~= fewer.insert(added));
        assert(!fewer.contains(added));
        axiom_set_insert_len(fewer, added);
    }
}

proof fn lemma_proofs_below(k_pf: u8, k_def: u8, proofs: nat, extras: nat)
    requires
        proofs <= 256,
        extras <= 256,
    ensures
        proofs_below(k_pf, k_def, proofs, extras).finite(),
        proofs_below(k_pf, k_def, proofs, extras).len() == proofs * extras,
    decreases proofs,
{
    let s = proofs_below(k_pf, k_def, proofs, extras);
    if proofs == 0 {
        assert(s =~= Set::empty());
    } else {
        let p = (proofs - 1) as nat;
        let fewer = proofs_below(k_pf, k_def, p, extras);
        let row = extras_below(k_pf, k_def, p as u8, extras);
        lemma_proofs_below(k_pf, k_def, p, extras);
        lemma_extras_below(k_pf, k_def, p as u8, extras);
        assert(s =~= fewer + row);
        assert(fewer.disjoint(row));
        axiom_set_union_finite(fewer, row);
        lemma_set_disjoint_lens(fewer, row);
        assert(p * extras + extras == proofs * extras) by (nonlinear_arith)
            requires
                p + 1 == proofs,
        ;
    }
}

proof fn lemma_defs_below(k_pf: u8, defs: nat, proofs: nat, extras: nat)
    requires
        defs <= 256,
        proofs <= 256,
        extras <= 256,
    ensures
        defs_below(k_pf, defs, proofs, extras).finite(),
        defs_below(k_pf, defs, proofs, extras).len() == defs * proofs * extras,
    decreases defs,
{
    let s = defs_below(k_pf, defs, proofs, extras);
    if defs == 0 {
        assert(s =~= Set::empty());
        assert(defs * proofs * extras == 0) by (nonlinear_arith)
            requires
                defs == 0,
        ;
    } else {
        let d = (defs - 1) as nat;
        let fewer = defs_below(k_pf, d, proofs, extras);
        let slab = proofs_below(k_pf, d as u8, proofs, extras);
        lemma_defs_below(k_pf, d, proofs, extras);
        lemma_proofs_below(k_pf, d as u8, proofs, extras);
        assert(s =~= fewer + slab);
        assert(fewer.disjoint(slab));
        axiom_set_union_finite(fewer, slab);
        lemma_set_disjoint_lens(fewer, slab);
        assert(d * proofs * extras + proofs * extras == defs * proofs * extras)
            by (nonlinear_arith)
            requires
                d + 1 == defs,
        ;
    }
}

proof fn lemma_valid_below(end: nat)
    requires
        end <= 34,
    ensures
        valid_below(end).finite(),
        valid_below(end).len() == plans_below(end),
    decreases end,
{
    let s = valid_below(end);
    if end == 0 {
        assert(s =~= Set::empty());
    } else {
        let p = (end - 1) as nat;
        let fewer = valid_below(p);
        let layer = defs_below(p as u8, 25, p + 1, (50 - p) as nat);
        lemma_valid_below(p);
        lemma_defs_below(p as u8, 25, p + 1, (50 - p) as nat);
        assert(s =~= fewer + layer);
        assert(fewer.disjoint(layer));
        axiom_set_union_finite(fewer, layer);
        lemma_set_disjoint_lens(fewer, layer);
    }
}

/// The plans the search goes through, `compute_best` among them, are
/// finitely many: `plan_count()` of them, the count that
/// `total_compute_iterations` returns.
pub proof fn lemma_plan_count()
    ensures
        Set::new(|q: Plan| plan_valid(q)).finite(),
        Set::new(|q: Plan| plan_valid(q)).len() == plan_count(),
{
    lemma_valid_below(34);
    assert(Set::new(|q: Plan| plan_valid(q)) =~= valid_below(34));
}

} // verus!
