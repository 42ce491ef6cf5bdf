//! The cheapest preparation plan for every score.
//!
//! Learning a card costs some effort; costs are counted in half-points so
//! that every cost is a whole number. Cards are learned in the order of the
//! cost tables, so learning `k` cards of a kind costs the sum of the first
//! `k` entries of its table.
use vstd::prelude::*;
use crate::helpers::{cost_sum, lemma_cost_sum_bound, prefix_sums};
use crate::progress::{count_completed, ProgressTracker};
use crate::pmf::{
    Plan, Outcome, check_score, def_outcomes, def_pmf, form_outcomes, forms_by_drawn,
    lemma_ticket_mass_bound, passing_score, ticket_cells, ticket_distribution, ticket_inputs,
    ticket_mass,
};

verus! {

/// Costs of the definitions, in half-points, in learning order.
pub const DEFS_COSTS: [u32; 24] = [
    2, 2, 2, 2, 2, 2, 2, 2, 2, 2, 2, 2, 2, 2, 4, 4, 4, 4, 4, 8, 8, 8, 8, 8,
];

/// Costs of the formulations that are not proofs, in half-points.
pub const FORMS_COSTS: [u32; 49] = [
    2, 2, 2, 2, 2, 2, 2, 2, 2, 2, 2, 2, 2, 2, 2, 2, 2, 2, 2, 2, 2, 2, 2, 2, 2, 4, 4, 4, 4, 4, 4, 4,
    4, 4, 4, 4, 4, 4, 4, 7, 7, 7, 7, 7, 7, 7, 7, 7, 7,
];

/// Costs of the proof formulations, in half-points.
pub const PROOFS_FORMS_COSTS: [u32; 33] = [
    2, 2, 2, 2, 2, 2, 2, 2, 2, 2, 2, 2, 2, 2, 2, 4, 4, 4, 4, 4, 4, 4, 4, 4, 4, 6, 6, 6, 6, 6, 6, 6,
    6,
];

/// Costs of the full proofs, in half-points.
pub const PROOFS_BODY_COSTS: [u32; 33] = [
    4, 4, 4, 4, 4, 4, 4, 4, 4, 4, 8, 8, 8, 8, 8, 8, 8, 8, 8, 8, 8, 8, 8, 14, 14, 14, 14, 14, 14, 14,
    14, 14, 14,
];

/// The cheapest plan found for a score, with its cost in half-points.
#[derive(Clone, Copy, Debug)]
pub struct BestEntry {
    pub cost: u64,
    pub k_def: u8,
    pub k_extra: u8,
    pub k_pf: u8,
    pub k_pp: u8,
}

/// The plan of an entry.
pub open spec fn entry_plan(entry: BestEntry) -> Plan {
    Plan { k_def: entry.k_def, k_extra: entry.k_extra, k_pf: entry.k_pf, k_pp: entry.k_pp }
}

/// The plans the search goes through: every count up to the size of its
/// cost table, with the full proofs among the proof formulations.
pub open spec fn plan_valid(plan: Plan) -> bool {
    &&& plan.k_def <= 24
    &&& plan.k_pf <= 33
    &&& plan.k_pp <= plan.k_pf
    &&& plan.k_extra + plan.k_pf <= 49
}

/// The cost of a plan, in half-points.
pub open spec fn plan_cost(plan: Plan) -> nat {
    cost_sum(DEFS_COSTS@.take(plan.k_def as int)) + cost_sum(
        PROOFS_FORMS_COSTS@.take(plan.k_pf as int),
    ) + cost_sum(PROOFS_BODY_COSTS@.take(plan.k_pp as int)) + cost_sum(
        FORMS_COSTS@.take(plan.k_extra as int),
    )
}

/// The highest score a plan reaches with probability at least 90%.
#[verifier::opaque]
pub open spec fn plan_score(plan: Plan) -> nat {
    passing_score(ticket_cells(plan))
}

/// `first` comes before `second` in the order of the search: by
/// definitions, then proof formulations, then full proofs, then other
/// formulations.
pub open spec fn plan_precedes(first: Plan, second: Plan) -> bool {
    precedes_counts(first, second.k_def as int, second.k_pf as int, second.k_pp as int, second.k_extra as int)
}

/// `plan` comes before the counts `(k_def, k_pf, k_pp, k_extra)` in the
/// order of the search.
pub open spec fn precedes_counts(plan: Plan, k_def: int, k_pf: int, k_pp: int, k_extra: int) -> bool {
    ||| plan.k_def < k_def
    ||| plan.k_def == k_def && plan.k_pf < k_pf
    ||| plan.k_def == k_def && plan.k_pf == k_pf && plan.k_pp < k_pp
    ||| plan.k_def == k_def && plan.k_pf == k_pf && plan.k_pp == k_pp && plan.k_extra < k_extra
}

/// `entry` holds, among the plans that come before the counts
/// `(k_def, k_pf, k_pp, k_extra)` in the order of the search, the cheapest
/// one that reaches `score`, the first one among equally cheap ones; it is
/// `None` when none of them reaches `score`.
pub open spec fn cheapest_before(
    entry: Option<BestEntry>,
    score: nat,
    k_def: int,
    k_pf: int,
    k_pp: int,
    k_extra: int,
) -> bool {
    match entry {
        None => forall|q: Plan|
            plan_valid(q) && precedes_counts(q, k_def, k_pf, k_pp, k_extra) ==> #[trigger] plan_score(q)
                != score,
        Some(e) => {
            &&& plan_valid(entry_plan(e))
            &&& precedes_counts(entry_plan(e), k_def, k_pf, k_pp, k_extra)
            &&& plan_score(entry_plan(e)) == score
            &&& e.cost == plan_cost(entry_plan(e))
            &&& forall|q: Plan|
                plan_valid(q) && precedes_counts(q, k_def, k_pf, k_pp, k_extra) && #[trigger] plan_score(q)
                    == score ==> e.cost <= plan_cost(q) && (plan_cost(q) == e.cost ==> !plan_precedes(
                    q,
                    entry_plan(e),
                ))
        },
    }
}

/// `entry` holds the cheapest plan that reaches `score`, the first one of
/// the search among equally cheap ones; it is `None` when no plan reaches
/// `score`.
pub open spec fn cheapest_for(entry: Option<BestEntry>, score: nat) -> bool {
    match entry {
        None => forall|q: Plan| plan_valid(q) ==> #[trigger] plan_score(q) != score,
        Some(e) => {
            &&& plan_valid(entry_plan(e))
            &&& plan_score(entry_plan(e)) == score
            &&& e.cost == plan_cost(entry_plan(e))
            &&& forall|q: Plan|
                plan_valid(q) && #[trigger] plan_score(q) == score ==> e.cost <= plan_cost(q) && (
                plan_cost(q) == e.cost ==> !plan_precedes(q, entry_plan(e)))
        },
    }
}

/// Moving the cursor of the search over counts that no plan has.
proof fn lemma_cheapest_moves(
    entry: Option<BestEntry>,
    score: nat,
    from: (int, int, int, int),
    to: (int, int, int, int),
)
    requires
        cheapest_before(entry, score, from.0, from.1, from.2, from.3),
        forall|q: Plan|
            plan_valid(q) ==> (precedes_counts(q, from.0, from.1, from.2, from.3) == precedes_counts(
                q,
                to.0,
                to.1,
                to.2,
                to.3,
            )),
    ensures
        cheapest_before(entry, score, to.0, to.1, to.2, to.3),
{
}

/// Once the search went through all counts, it went through every plan.
proof fn lemma_cheapest_done(entry: Option<BestEntry>, score: nat)
    requires
        cheapest_before(entry, score, 25, 0, 0, 0),
    ensures
        cheapest_for(entry, score),
{
    assert forall|q: Plan| plan_valid(q) implies precedes_counts(q, 25, 0, 0, 0) by {}
}

/// Recording the plan at the cursor: it replaces the entry of its score
/// when it is cheaper.
proof fn lemma_cheapest_record(
    old: Option<BestEntry>,
    new: Option<BestEntry>,
    score: nat,
    plan: Plan,
    cost: nat,
)
    requires
        cheapest_before(old, score, plan.k_def as int, plan.k_pf as int, plan.k_pp as int, plan.k_extra as int),
        plan_valid(plan),
        cost == plan_cost(plan),
        plan_score(plan) != score ==> new == old,
        plan_score(plan) == score ==> if (old matches Some(e) && e.cost <= cost) {
            new == old
        } else {
            new matches Some(e) && entry_plan(e) == plan && e.cost == cost
        },
    ensures
        cheapest_before(new, score, plan.k_def as int, plan.k_pf as int, plan.k_pp as int, plan.k_extra + 1),
{
    let (kd, kpf, kpp, ke) = (plan.k_def as int, plan.k_pf as int, plan.k_pp as int, plan.k_extra as int);
    assert forall|q: Plan| plan_valid(q) && precedes_counts(q, kd, kpf, kpp, ke + 1) implies precedes_counts(
        q,
        kd,
        kpf,
        kpp,
        ke,
    ) || q == plan by {}
    if let Some(e) = new {
        if plan_score(plan) == score && !(old matches Some(o) && o.cost <= cost) {
            assert(entry_plan(e) == plan);
            assert forall|q: Plan|
                plan_valid(q) && precedes_counts(q, kd, kpf, kpp, ke + 1) && #[trigger] plan_score(q) == score
                implies e.cost <= plan_cost(q) && (plan_cost(q) == e.cost ==> !plan_precedes(q, entry_plan(e))) by {
                if q != plan {
                    assert(precedes_counts(q, kd, kpf, kpp, ke));
                }
            }
        }
    }
}

/// Evaluates `plan` and records it when it is the cheapest plan found so far
/// for its score.
fn record_plan(
    best: &mut Vec<Option<BestEntry>>,
    plan: Plan,
    total_cost: u64,
    defs: &Vec<Outcome>,
    forms: &Vec<Vec<Outcome>>,
)
    requires
        old(best)@.len() == 19,
        plan_valid(plan),
        total_cost == plan_cost(plan),
        ticket_inputs(plan, defs@, forms@),
        forall|s: int|
            0 <= s < 19 ==> #[trigger] cheapest_before(
                old(best)@[s],
                s as nat,
                plan.k_def as int,
                plan.k_pf as int,
                plan.k_pp as int,
                plan.k_extra as int,
            ),
    ensures
        final(best)@.len() == 19,
        forall|s: int|
            0 <= s < 19 ==> #[trigger] cheapest_before(
                final(best)@[s],
                s as nat,
                plan.k_def as int,
                plan.k_pf as int,
                plan.k_pp as int,
                plan.k_extra + 1,
            ),
{
    let distribution = ticket_distribution(plan, defs, forms);
    let score = check_score(&distribution);
    proof {
        assert forall|s: int| 0 <= s < 19 implies ticket_mass(plan, s) < 0x1_0000_0000_0000_0000 by {
            lemma_ticket_mass_bound(plan, s);
        }
        assert(distribution@ =~= ticket_cells(plan));
        reveal(plan_score);
        assert(score == plan_score(plan));
    }
    let ghost old_best = best@;
    let keep = match best[score] {
        Some(entry) => entry.cost <= total_cost,
        None => false,
    };
    if !keep {
        let entry = BestEntry {
            cost: total_cost,
            k_def: plan.k_def,
            k_extra: plan.k_extra,
            k_pf: plan.k_pf,
            k_pp: plan.k_pp,
        };
        best.set(score, Some(entry));
    }
    proof {
        assert forall|s: int| 0 <= s < 19 implies #[trigger] cheapest_before(
            best@[s],
            s as nat,
            plan.k_def as int,
            plan.k_pf as int,
            plan.k_pp as int,
            plan.k_extra + 1,
        ) by {
            lemma_cheapest_record(old_best[s], best@[s], s as nat, plan, total_cost as nat);
        }
    }
}

/// The cheapest plan for every score from 0 to 18.
pub fn compute_best() -> (best: Vec<Option<BestEntry>>)
    ensures
        best@.len() == 19,
        forall|s: int| 0 <= s < 19 ==> #[trigger] cheapest_for(best@[s], s as nat),
{
    search_best(None)
}

/// The cheapest plan for every score from 0 to 18, counting every evaluated
/// plan in `progress.completed`.
pub fn compute_best_reporting(progress: &ProgressTracker) -> (best: Vec<Option<BestEntry>>)
    ensures
        best@.len() == 19,
        forall|s: int| 0 <= s < 19 ==> #[trigger] cheapest_for(best@[s], s as nat),
{
    search_best(Some(progress))
}

/// The search through every plan, in the order of `plan_precedes`.
fn search_best(progress: Option<&ProgressTracker>) -> (best: Vec<Option<BestEntry>>)
    ensures
        best@.len() == 19,
        forall|s: int| 0 <= s < 19 ==> #[trigger] cheapest_for(best@[s], s as nat),
{
    proof {
        lemma_cost_sum_bound(DEFS_COSTS@, 8);
        lemma_cost_sum_bound(FORMS_COSTS@, 7);
        lemma_cost_sum_bound(PROOFS_FORMS_COSTS@, 6);
        lemma_cost_sum_bound(PROOFS_BODY_COSTS@, 14);
    }
    let def_cost_prefix = prefix_sums(DEFS_COSTS.as_slice());
    let form_cost_prefix = prefix_sums(FORMS_COSTS.as_slice());
    let proof_form_cost_prefix = prefix_sums(PROOFS_FORMS_COSTS.as_slice());
    let proof_body_cost_prefix = prefix_sums(PROOFS_BODY_COSTS.as_slice());
    let mut best: Vec<Option<BestEntry>> = Vec::new();
    while best.len() < 19
        invariant
            best@.len() <= 19,
            forall|s: int| 0 <= s < best@.len() ==> #[trigger] best@[s] == None::<BestEntry>,
        decreases 19 - best@.len(),
    {
        best.push(None);
    }
    assert forall|s: int| 0 <= s < 19 implies #[trigger] cheapest_before(best@[s], s as nat, 0, 0, 0, 0) by {}
    let mut k_def: u8 = 0;
    while k_def <= 24
        invariant
            0 <= k_def <= 25,
            best@.len() == 19,
            def_cost_prefix@.len() == 25,
            forall|i: int| 0 <= i <= 24 ==> #[trigger] def_cost_prefix@[i] == cost_sum(DEFS_COSTS@.take(i)),
            form_cost_prefix@.len() == 50,
            forall|i: int| 0 <= i <= 49 ==> #[trigger] form_cost_prefix@[i] == cost_sum(FORMS_COSTS@.take(i)),
            proof_form_cost_prefix@.len() == 34,
            forall|i: int| 0 <= i <= 33 ==> #[trigger] proof_form_cost_prefix@[i] == cost_sum(PROOFS_FORMS_COSTS@.take(i)),
            proof_body_cost_prefix@.len() == 34,
            forall|i: int| 0 <= i <= 33 ==> #[trigger] proof_body_cost_prefix@[i] == cost_sum(PROOFS_BODY_COSTS@.take(i)),
            forall|s: int| 0 <= s < 19 ==> #[trigger] cheapest_before(best@[s], s as nat, k_def as int, 0, 0, 0),
        decreases 25 - k_def,
    {
        let defs = def_pmf(k_def);
        let def_cost = def_cost_prefix[k_def as usize];
        let mut k_pf: u8 = 0;
        while k_pf <= 33
            invariant
                0 <= k_def <= 24,
                0 <= k_pf <= 34,
                best@.len() == 19,
                defs@ == def_outcomes(k_def as nat),
                def_cost == cost_sum(DEFS_COSTS@.take(k_def as int)),
                form_cost_prefix@.len() == 50,
                forall|i: int| 0 <= i <= 49 ==> #[trigger] form_cost_prefix@[i] == cost_sum(FORMS_COSTS@.take(i)),
                proof_form_cost_prefix@.len() == 34,
                forall|i: int| 0 <= i <= 33 ==> #[trigger] proof_form_cost_prefix@[i] == cost_sum(PROOFS_FORMS_COSTS@.take(i)),
                proof_body_cost_prefix@.len() == 34,
                forall|i: int| 0 <= i <= 33 ==> #[trigger] proof_body_cost_prefix@[i] == cost_sum(PROOFS_BODY_COSTS@.take(i)),
                forall|s: int| 0 <= s < 19 ==> #[trigger] cheapest_before(best@[s], s as nat, k_def as int, k_pf as int, 0, 0),
            decreases 34 - k_pf,
        {
            let proof_form_cost = proof_form_cost_prefix[k_pf as usize];
            let mut forms_by_extra: Vec<Vec<Vec<Outcome>>> = Vec::new();
            let mut k_extra: u8 = 0;
            while k_extra <= 49 - k_pf
                invariant
                    k_pf <= 33,
                    k_extra <= 50 - k_pf,
                    forms_by_extra@.len() == k_extra,
                    forall|e: int| 0 <= e < k_extra ==> (#[trigger] forms_by_extra@[e])@.len() == 5,
                    forall|e: int, d: int| 0 <= e < k_extra && 0 <= d < 5 ==> (#[trigger] forms_by_extra@[e]@[d])@
                        == form_outcomes(k_pf as nat, e as nat, d as nat),
                decreases 50 - k_pf - k_extra,
            {
                forms_by_extra.push(forms_by_drawn(k_pf, k_extra));
                k_extra = k_extra + 1;
            }
            let mut k_pp: u8 = 0;
            while k_pp <= k_pf
                invariant
                    0 <= k_def <= 24,
                    0 <= k_pf <= 33,
                    0 <= k_pp <= k_pf + 1,
                    best@.len() == 19,
                    defs@ == def_outcomes(k_def as nat),
                    def_cost == cost_sum(DEFS_COSTS@.take(k_def as int)),
                    proof_form_cost == cost_sum(PROOFS_FORMS_COSTS@.take(k_pf as int)),
                    forms_by_extra@.len() == 50 - k_pf,
                    forall|e: int| 0 <= e < 50 - k_pf ==> (#[trigger] forms_by_extra@[e])@.len() == 5,
                    forall|e: int, d: int| 0 <= e < 50 - k_pf && 0 <= d < 5 ==> (#[trigger] forms_by_extra@[e]@[d])@
                        == form_outcomes(k_pf as nat, e as nat, d as nat),
                    form_cost_prefix@.len() == 50,
                    forall|i: int| 0 <= i <= 49 ==> #[trigger] form_cost_prefix@[i] == cost_sum(FORMS_COSTS@.take(i)),
                    proof_body_cost_prefix@.len() == 34,
                    forall|i: int| 0 <= i <= 33 ==> #[trigger] proof_body_cost_prefix@[i] == cost_sum(PROOFS_BODY_COSTS@.take(i)),
                    forall|s: int| 0 <= s < 19 ==> #[trigger] cheapest_before(best@[s], s as nat, k_def as int, k_pf as int, k_pp as int, 0),
                decreases k_pf + 1 - k_pp,
            {
                let proof_body_cost = proof_body_cost_prefix[k_pp as usize];
                let mut k_extra: u8 = 0;
                while k_extra <= 49 - k_pf
                    invariant
                        0 <= k_def <= 24,
                        0 <= k_pf <= 33,
                        0 <= k_pp <= k_pf,
                        0 <= k_extra <= 50 - k_pf,
                        best@.len() == 19,
                        defs@ == def_outcomes(k_def as nat),
                        def_cost == cost_sum(DEFS_COSTS@.take(k_def as int)),
                        proof_form_cost == cost_sum(PROOFS_FORMS_COSTS@.take(k_pf as int)),
                        proof_body_cost == cost_sum(PROOFS_BODY_COSTS@.take(k_pp as int)),
                        forms_by_extra@.len() == 50 - k_pf,
                        forall|e: int| 0 <= e < 50 - k_pf ==> (#[trigger] forms_by_extra@[e])@.len() == 5,
                        forall|e: int, d: int| 0 <= e < 50 - k_pf && 0 <= d < 5 ==> (#[trigger] forms_by_extra@[e]@[d])@
                            == form_outcomes(k_pf as nat, e as nat, d as nat),
                        form_cost_prefix@.len() == 50,
                        forall|i: int| 0 <= i <= 49 ==> #[trigger] form_cost_prefix@[i] == cost_sum(FORMS_COSTS@.take(i)),
                        forall|s: int| 0 <= s < 19 ==> #[trigger] cheapest_before(best@[s], s as nat, k_def as int, k_pf as int, k_pp as int, k_extra as int),
                    decreases 50 - k_pf - k_extra,
                {
                    let plan = Plan { k_def, k_extra, k_pf, k_pp };
                    proof {
                        lemma_cost_sum_bound(DEFS_COSTS@.take(k_def as int), 8);
                        lemma_cost_sum_bound(PROOFS_FORMS_COSTS@.take(k_pf as int), 6);
                        lemma_cost_sum_bound(PROOFS_BODY_COSTS@.take(k_pp as int), 14);
                        lemma_cost_sum_bound(FORMS_COSTS@.take(k_extra as int), 7);
                    }
                    let total_cost = def_cost + proof_form_cost + proof_body_cost + form_cost_prefix[k_extra as usize];
                    record_plan(&mut best, plan, total_cost, &defs, &forms_by_extra[k_extra as usize]);
                    if let Some(progress) = progress {
                        count_completed(progress);
                    }
                    k_extra = k_extra + 1;
                }
                proof {
                    assert forall|s: int| 0 <= s < 19 implies #[trigger] cheapest_before(best@[s], s as nat, k_def as int, k_pf as int, k_pp + 1, 0) by {
                        lemma_cheapest_moves(best@[s], s as nat, (k_def as int, k_pf as int, k_pp as int, k_extra as int), (k_def as int, k_pf as int, k_pp + 1, 0));
                    }
                }
                k_pp = k_pp + 1;
            }
            proof {
                assert forall|s: int| 0 <= s < 19 implies #[trigger] cheapest_before(best@[s], s as nat, k_def as int, k_pf + 1, 0, 0) by {
                    lemma_cheapest_moves(best@[s], s as nat, (k_def as int, k_pf as int, k_pp as int, 0), (k_def as int, k_pf + 1, 0, 0));
                }
            }
            k_pf = k_pf + 1;
        }
        proof {
            assert forall|s: int| 0 <= s < 19 implies #[trigger] cheapest_before(best@[s], s as nat, k_def + 1, 0, 0, 0) by {
                lemma_cheapest_moves(best@[s], s as nat, (k_def as int, k_pf as int, 0, 0), (k_def + 1, 0, 0, 0));
            }
        }
        k_def = k_def + 1;
    }
    proof {
        assert forall|s: int| 0 <= s < 19 implies #[trigger] cheapest_for(best@[s], s as nat) by {
            lemma_cheapest_done(best@[s], s as nat);
        }
    }
    best
}

/// For every count `k_pf` below `end` of proof formulations, 25 counts of
/// definitions, `k_pf + 1` counts of full proofs and `50 - k_pf` counts of
/// other formulations, summed.
pub open spec fn plans_below(end: nat) -> nat
    decreases end,
{
    if end == 0 {
        0
    } else {
        plans_below((end - 1) as nat) + 25 * end * ((51 - end) as nat)
    }
}

/// The number of plans of the search; `lemma_plan_count` shows that it is
/// the number of plans that `plan_valid` admits.
pub open spec fn plan_count() -> nat {
    plans_below(34)
}

/// The number of plans the search evaluates, one ticket distribution each.
pub fn total_compute_iterations() -> (count: u64)
    ensures
        count == plan_count(),
{
    let mut count: u64 = 0;
    let mut k_pf: u64 = 0;
    while k_pf <= 33
        invariant
            k_pf <= 34,
            count == plans_below(k_pf as nat),
            count <= k_pf * 25 * 34 * 50,
        decreases 34 - k_pf,
    {
        assert(25 * (k_pf + 1) * (50 - k_pf) <= 25 * 34 * 50) by (nonlinear_arith)
            requires k_pf <= 33;
        count = count + 25 * (k_pf + 1) * (50 - k_pf);
        k_pf = k_pf + 1;
    }
    count
}

} // verus!
