//! The score distribution of a ticket is complete: its weights add up to
//! all the tickets of the plan, that is to probability 1 whenever the known
//! formulations fit in the deck after the proofs.
use vstd::prelude::*;
use crate::pmf::{
    Outcome, Plan, PROBABILITY_SCALE, branch_mass, branch_total, def_outcomes, form_outcomes,
    grid_mass, grid_total, joint_weight_at, lemma_def_outcomes_facts, lemma_form_outcomes_facts,
    lemma_proof_draws_total, lemma_ticket_mass_bound, outcomes_bounded, plan_in_deck,
    proof_draw_weight, proof_grid_weight, proof_row_weight, row_mass, row_total, ticket_cells,
    ticket_mass, ticket_total, upper_tail, weight_at, weight_total,
};

verus! {

/// The values of `f` at the scores from `score` to 18, summed.
pub open spec fn mass_from(f: spec_fn(int) -> nat, score: int) -> nat
    decreases 19 - score,
{
    if 0 <= score < 19 {
        f(score) + mass_from(f, score + 1)
    } else {
        0
    }
}

pub(crate) proof fn lemma_mass_from_add(f: spec_fn(int) -> nat, g: spec_fn(int) -> nat, h: spec_fn(int) -> nat, score: int)
    requires
        forall|s: int| 0 <= s < 19 ==> #[trigger] h(s) == f(s) + g(s),
    ensures
        mass_from(h, score) == mass_from(f, score) + mass_from(g, score),
    decreases 19 - score,
{
    if 0 <= score < 19 {
        lemma_mass_from_add(f, g, h, score + 1);
    }
}

pub(crate) proof fn lemma_mass_from_scale(f: spec_fn(int) -> nat, h: spec_fn(int) -> nat, c: nat, score: int)
    requires
        forall|s: int| 0 <= s < 19 ==> #[trigger] h(s) == c * f(s),
    ensures
        mass_from(h, score) == c * mass_from(f, score),
    decreases 19 - score,
{
    if 0 <= score < 19 {
        lemma_mass_from_scale(f, h, c, score + 1);
        let a = f(score);
        let b = mass_from(f, score + 1);
        assert(c * a + c * b == c * (a + b)) by (nonlinear_arith);
    } else {
        assert(c * 0 == 0) by (nonlinear_arith);
    }
}

pub(crate) proof fn lemma_mass_from_zero(f: spec_fn(int) -> nat, score: int)
    requires
        forall|s: int| 0 <= s < 19 ==> #[trigger] f(s) == 0,
    ensures
        mass_from(f, score) == 0,
    decreases 19 - score,
{
    if 0 <= score < 19 {
        lemma_mass_from_zero(f, score + 1);
    }
}

pub(crate) proof fn lemma_mass_from_single(f: spec_fn(int) -> nat, at: int, w: nat, score: int)
    requires
        0 <= at < 19,
        0 <= score,
        forall|s: int| 0 <= s < 19 ==> #[trigger] f(s) == if s == at { w } else { 0 },
    ensures
        mass_from(f, score) == if score <= at { w } else { 0 },
    decreases 19 - score,
{
    if 0 <= score < 19 {
        lemma_mass_from_single(f, at, w, score + 1);
    }
}

pub(crate) proof fn lemma_mass_from_same(f: spec_fn(int) -> nat, g: spec_fn(int) -> nat, score: int)
    requires
        forall|s: int| 0 <= s < 19 ==> #[trigger] f(s) == g(s),
    ensures
        mass_from(f, score) == mass_from(g, score),
    decreases 19 - score,
{
    if 0 <= score < 19 {
        lemma_mass_from_same(f, g, score + 1);
    }
}

/// Shifted by `shift`, the outcomes of a list that stay within the scores
/// weigh as much as the whole list.
proof fn lemma_weight_at_sum(l: Seq<Outcome>, shift: int, max_score: nat)
    requires
        outcomes_bounded(l, max_score),
        0 <= shift,
        shift + max_score <= 18,
    ensures
        mass_from(|s: int| weight_at(l, s - shift), 0) == weight_total(l),
    decreases l.len(),
{
    if l.len() == 0 {
        lemma_mass_from_zero(|s: int| weight_at(l, s - shift), 0);
    } else {
        let rest = l.drop_last();
        assert(outcomes_bounded(rest, max_score)) by {
            assert forall|i: int| 0 <= i < rest.len() implies #[trigger] rest[i].0 <= max_score && rest[i].1 > 0 by {
                assert(rest[i] == l[i]);
            }
        }
        lemma_weight_at_sum(rest, shift, max_score);
        let last = l.last();
        assert(last == l[l.len() - 1]);
        let at = shift + last.0;
        let single = |s: int| if s == at { last.1 as nat } else { 0nat };
        lemma_mass_from_single(single, at, last.1 as nat, 0);
        lemma_mass_from_add(|s: int| weight_at(rest, s - shift), single, |s: int| weight_at(l, s - shift), 0);
    }
}

/// Shifted by `shift`, the pairs of a formulation list and a definition
/// list weigh as much as all pairs.
proof fn lemma_joint_sum(forms: Seq<Outcome>, defs: Seq<Outcome>, shift: int)
    requires
        outcomes_bounded(forms, 2),
        outcomes_bounded(defs, 3),
        0 <= shift <= 13,
    ensures
        mass_from(|s: int| joint_weight_at(forms, defs, s - shift), 0) == weight_total(forms)
            * weight_total(defs),
    decreases forms.len(),
{
    if forms.len() == 0 {
        lemma_mass_from_zero(|s: int| joint_weight_at(forms, defs, s - shift), 0);
        assert(0 * weight_total(defs) == 0) by (nonlinear_arith);
    } else {
        let rest = forms.drop_last();
        assert(outcomes_bounded(rest, 2)) by {
            assert forall|i: int| 0 <= i < rest.len() implies #[trigger] rest[i].0 <= 2 && rest[i].1 > 0 by {
                assert(rest[i] == forms[i]);
            }
        }
        lemma_joint_sum(rest, defs, shift);
        let last = forms.last();
        assert(last == forms[forms.len() - 1]);
        let f = last.1 as nat;
        let inner = |s: int| weight_at(defs, s - (shift + last.0));
        lemma_weight_at_sum(defs, shift + last.0, 3);
        let scaled = |s: int| f * weight_at(defs, s - shift - last.0);
        assert forall|s: int| 0 <= s < 19 implies #[trigger] scaled(s) == f * inner(s) by {
            assert(s - shift - last.0 == s - (shift + last.0));
        }
        lemma_mass_from_scale(inner, scaled, f, 0);
        lemma_mass_from_add(|s: int| joint_weight_at(rest, defs, s - shift), scaled, |s: int| joint_weight_at(forms, defs, s - shift), 0);
        let tr = weight_total(rest);
        let td = weight_total(defs);
        assert(tr * td + f * td == (tr + f) * td) by (nonlinear_arith);
    }
}

proof fn lemma_branch_mass_sum(plan: Plan, a: nat, b: nat)
    requires
        plan_in_deck(plan),
        a + b <= 4,
    ensures
        mass_from(|s: int| branch_mass(plan, a, b, s), 0) == branch_total(plan, a, b),
{
    let p = proof_draw_weight(plan.k_pf as nat, plan.k_pp as nat, a, b);
    let forms = form_outcomes(plan.k_pf as nat, plan.k_extra as nat, a + b);
    let defs = def_outcomes(plan.k_def as nat);
    lemma_def_outcomes_facts(plan.k_def as nat);
    lemma_form_outcomes_facts(plan.k_pf as nat, plan.k_extra as nat, a + b);
    let na = (4 - a) as nat;
    let c1: int = (3 * a + b + 1) as int;
    let c2: int = (3 * a + b) as int;
    let j1 = |s: int| joint_weight_at(forms, defs, s - c1);
    let j2 = |s: int| joint_weight_at(forms, defs, s - c2);
    let t = weight_total(forms) * weight_total(defs);
    lemma_joint_sum(forms, defs, c2);
    let with_body = |s: int| p * a * joint_weight_at(forms, defs, s - c1);
    let without_body = |s: int| p * na * joint_weight_at(forms, defs, s - c2);
    if a > 0 {
        lemma_joint_sum(forms, defs, c1);
        lemma_mass_from_scale(j1, with_body, p * a, 0);
    } else {
        assert forall|s: int| 0 <= s < 19 implies #[trigger] with_body(s) == 0 by {
            assert(p * a * joint_weight_at(forms, defs, s - c1) == 0) by (nonlinear_arith)
                requires a == 0;
        }
        lemma_mass_from_zero(with_body, 0);
    }
    lemma_mass_from_scale(j2, without_body, p * na, 0);
    lemma_mass_from_add(with_body, without_body, |s: int| branch_mass(plan, a, b, s), 0);
    assert(mass_from(with_body, 0) == p * a * t) by {
        if a == 0 {
            assert(p * a * t == 0) by (nonlinear_arith) requires a == 0;
        }
    }
    assert(p * a * t + p * na * t == 4 * p * weight_total(forms) * weight_total(defs)) by (nonlinear_arith)
        requires
            a + na == 4,
            t == weight_total(forms) * weight_total(defs),
    ;
}

proof fn lemma_row_mass_sum(plan: Plan, a: nat, end: nat)
    requires
        plan_in_deck(plan),
        a <= 4,
        end <= 5 - a,
    ensures
        mass_from(|s: int| row_mass(plan, a, end, s), 0) == row_total(plan, a, end),
    decreases end,
{
    if end == 0 {
        lemma_mass_from_zero(|s: int| row_mass(plan, a, end, s), 0);
    } else {
        let b = (end - 1) as nat;
        lemma_row_mass_sum(plan, a, b);
        lemma_branch_mass_sum(plan, a, b);
        lemma_mass_from_add(
            |s: int| row_mass(plan, a, b, s),
            |s: int| branch_mass(plan, a, b, s),
            |s: int| row_mass(plan, a, end, s),
            0,
        );
    }
}

proof fn lemma_grid_mass_sum(plan: Plan, end: nat)
    requires
        plan_in_deck(plan),
        end <= 5,
    ensures
        mass_from(|s: int| grid_mass(plan, end, s), 0) == grid_total(plan, end),
    decreases end,
{
    if end == 0 {
        lemma_mass_from_zero(|s: int| grid_mass(plan, end, s), 0);
    } else {
        let a = (end - 1) as nat;
        lemma_grid_mass_sum(plan, a);
        lemma_row_mass_sum(plan, a, (5 - a) as nat);
        lemma_mass_from_add(
            |s: int| grid_mass(plan, a, s),
            |s: int| row_mass(plan, a, (5 - a) as nat, s),
            |s: int| grid_mass(plan, end, s),
            0,
        );
    }
}

proof fn lemma_row_total_exact(plan: Plan, a: nat, end: nat)
    requires
        plan_in_deck(plan),
        plan.k_pf + plan.k_extra <= 45,
        a <= 4,
    ensures
        row_total(plan, a, end) == 8015040 * proof_row_weight(plan.k_pf as nat, plan.k_pp as nat, a, end),
    decreases end,
{
    if end > 0 {
        let b = (end - 1) as nat;
        lemma_row_total_exact(plan, a, b);
        lemma_def_outcomes_facts(plan.k_def as nat);
        lemma_form_outcomes_facts(plan.k_pf as nat, plan.k_extra as nat, a + b);
        let p = proof_draw_weight(plan.k_pf as nat, plan.k_pp as nat, a, b);
        let r = proof_row_weight(plan.k_pf as nat, plan.k_pp as nat, a, b);
        assert(8015040 * r + 4 * p * 990 * 2024 == 8015040 * (r + p)) by (nonlinear_arith);
    } else {
        assert(8015040 * 0 == 0) by (nonlinear_arith);
    }
}

proof fn lemma_grid_total_exact(plan: Plan, end: nat)
    requires
        plan_in_deck(plan),
        plan.k_pf + plan.k_extra <= 45,
        end <= 5,
    ensures
        grid_total(plan, end) == 8015040 * proof_grid_weight(plan.k_pf as nat, plan.k_pp as nat, end),
    decreases end,
{
    if end > 0 {
        let a = (end - 1) as nat;
        lemma_grid_total_exact(plan, a);
        lemma_row_total_exact(plan, a, (5 - a) as nat);
        let g = proof_grid_weight(plan.k_pf as nat, plan.k_pp as nat, a);
        let r = proof_row_weight(plan.k_pf as nat, plan.k_pp as nat, a, (5 - a) as nat);
        assert(8015040 * g + 8015040 * r == 8015040 * (g + r)) by (nonlinear_arith);
    } else {
        assert(8015040 * 0 == 0) by (nonlinear_arith);
    }
}

/// The scores of a ticket distribution account for all its tickets: they
/// add up to `ticket_total`, which is `PROBABILITY_SCALE` (probability 1)
/// whenever the known formulations fit in the deck after the proofs.
pub proof fn lemma_ticket_mass_complete(plan: Plan)
    requires
        plan_in_deck(plan),
    ensures
        mass_from(|s: int| ticket_mass(plan, s), 0) == ticket_total(plan),
        plan.k_pf + plan.k_extra <= 45 ==> ticket_total(plan) == PROBABILITY_SCALE,
{
    lemma_grid_mass_sum(plan, 5);
    lemma_mass_from_same(|s: int| ticket_mass(plan, s), |s: int| grid_mass(plan, 5, s), 0);
    if plan.k_pf + plan.k_extra <= 45 {
        lemma_grid_total_exact(plan, 5);
        lemma_proof_draws_total(plan.k_pf as nat, plan.k_pp as nat);
    }
}

pub(crate) proof fn lemma_upper_tail_cells(plan: Plan, score: int)
    requires
        plan_in_deck(plan),
        0 <= score,
    ensures
        upper_tail(ticket_cells(plan), score) == mass_from(|s: int| ticket_mass(plan, s), score),
    decreases 19 - score,
{
    if score < 19 {
        lemma_upper_tail_cells(plan, score + 1);
        lemma_ticket_mass_bound(plan, score);
    }
}

/// A ticket distribution adds up to all the tickets of its plan, that is to
/// `PROBABILITY_SCALE` (probability 1) whenever the known formulations fit
/// in the deck after the proofs: no ticket is lost or counted twice.
pub proof fn lemma_ticket_cells_total(plan: Plan)
    requires
        plan_in_deck(plan),
    ensures
        upper_tail(ticket_cells(plan), 0) == ticket_total(plan),
        ticket_total(plan) <= PROBABILITY_SCALE,
        plan.k_pf + plan.k_extra <= 45 ==> upper_tail(ticket_cells(plan), 0) == PROBABILITY_SCALE,
{
    lemma_upper_tail_cells(plan, 0);
    lemma_ticket_mass_complete(plan);
    lemma_ticket_mass_bound(plan, 0);
}
} // verus!
