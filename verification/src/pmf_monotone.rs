//! Learning more never hurts: with one more definition, or one more
//! formulation that still fits in the deck, every score is reached at least
//! as often as before.
use vstd::prelude::*;
use crate::combinatorics::{
    binomial, lemma_vandermonde, lemma_vandermonde_term_le_sum, vandermonde_term,
};
use crate::pmf::{
    Outcome, Plan, branch_mass, def_outcomes, draw_outcomes_upto, draw_weight, form_outcomes,
    grid_mass, joint_weight_at, known_forms_left, lemma_deck_sizes, lemma_def_outcomes_facts,
    lemma_form_outcomes_facts, lemma_passing_score_is_highest, meets_target, outcomes_bounded,
    passing_score, plan_in_deck, proof_draw_weight, row_mass, ticket_cells, ticket_mass,
    upper_tail, weight_at,
};
use crate::pmf_total::{
    lemma_mass_from_add, lemma_mass_from_same, lemma_mass_from_scale, lemma_mass_from_single,
    lemma_mass_from_zero, lemma_upper_tail_cells, mass_from,
};

verus! {

/// The weight of the outcomes of `l` that score at least `v`.
pub open spec fn tail_weight(l: Seq<Outcome>, v: int) -> nat
    decreases l.len(),
{
    if l.len() == 0 {
        0
    } else {
        tail_weight(l.drop_last(), v) + if l.last().0 >= v {
            l.last().1 as nat
        } else {
            0
        }
    }
}

/// The weight of the pairs of a formulation list and a definition list
/// whose scores add up to at least `v`.
pub open spec fn joint_tail(forms: Seq<Outcome>, defs: Seq<Outcome>, v: int) -> nat
    decreases forms.len(),
{
    if forms.len() == 0 {
        0
    } else {
        joint_tail(forms.drop_last(), defs, v) + (forms.last().1 as nat) * tail_weight(
            defs,
            v - forms.last().0,
        )
    }
}

proof fn lemma_bounded_rest(l: Seq<Outcome>, max_score: nat)
    requires
        outcomes_bounded(l, max_score),
        l.len() > 0,
    ensures
        outcomes_bounded(l.drop_last(), max_score),
        l.last().0 <= max_score,
{
    let rest = l.drop_last();
    assert forall|i: int| 0 <= i < rest.len() implies #[trigger] rest[i].0 <= max_score && rest[i].1
        > 0 by {
        assert(rest[i] == l[i]);
        assert(l[i].0 <= max_score && l[i].1 > 0);
    }
    assert(l.last() == l[l.len() - 1]);
}

/// Shifted by `shift`, the scores from `score` up of a list weigh its tail
/// from `score - shift`.
proof fn lemma_mass_of_weights(l: Seq<Outcome>, shift: int, max_score: nat, score: int)
    requires
        outcomes_bounded(l, max_score),
        0 <= shift,
        shift + max_score <= 18,
        0 <= score,
    ensures
        mass_from(|s: int| weight_at(l, s - shift), score) == tail_weight(l, score - shift),
    decreases l.len(),
{
    if l.len() == 0 {
        lemma_mass_from_zero(|s: int| weight_at(l, s - shift), score);
    } else {
        let rest = l.drop_last();
        lemma_bounded_rest(l, max_score);
        lemma_mass_of_weights(rest, shift, max_score, score);
        let last = l.last();
        let at = shift + last.0;
        let single = |s: int| if s == at { last.1 as nat } else { 0nat };
        lemma_mass_from_single(single, at, last.1 as nat, score);
        lemma_mass_from_add(
            |s: int| weight_at(rest, s - shift),
            single,
            |s: int| weight_at(l, s - shift),
            score,
        );
    }
}

/// Shifted by `shift`, the scores from `score` up of the pairs of two lists
/// weigh their joint tail from `score - shift`.
proof fn lemma_mass_of_joint(forms: Seq<Outcome>, defs: Seq<Outcome>, shift: int, score: int)
    requires
        outcomes_bounded(forms, 2),
        outcomes_bounded(defs, 3),
        0 <= shift <= 13,
        0 <= score,
    ensures
        mass_from(|s: int| joint_weight_at(forms, defs, s - shift), score) == joint_tail(
            forms,
            defs,
            score - shift,
        ),
    decreases forms.len(),
{
    if forms.len() == 0 {
        lemma_mass_from_zero(|s: int| joint_weight_at(forms, defs, s - shift), score);
    } else {
        let rest = forms.drop_last();
        lemma_bounded_rest(forms, 2);
        lemma_mass_of_joint(rest, defs, shift, score);
        let last = forms.last();
        let f = last.1 as nat;
        let inner = |s: int| weight_at(defs, s - (shift + last.0));
        lemma_mass_of_weights(defs, shift + last.0, 3, score);
        let scaled = |s: int| f * weight_at(defs, s - shift - last.0);
        assert forall|s: int| 0 <= s < 19 implies #[trigger] scaled(s) == f * inner(s) by {
            assert(s - shift - last.0 == s - (shift + last.0));
        }
        lemma_mass_from_scale(inner, scaled, f, score);
        lemma_mass_from_add(
            |s: int| joint_weight_at(rest, defs, s - shift),
            scaled,
            |s: int| joint_weight_at(forms, defs, s - shift),
            score,
        );
        assert(score - shift - last.0 == score - (shift + last.0));
    }
}

/// A tail from a lower score weighs at least as much.
proof fn lemma_tail_weight_antitone(l: Seq<Outcome>, low: int, high: int)
    requires
        low <= high,
    ensures
        tail_weight(l, high) <= tail_weight(l, low),
    decreases l.len(),
{
    if l.len() > 0 {
        lemma_tail_weight_antitone(l.drop_last(), low, high);
    }
}

/// A definition list with heavier tails gives heavier joint tails.
proof fn lemma_joint_tail_defs(forms: Seq<Outcome>, defs: Seq<Outcome>, more: Seq<Outcome>, v: int)
    requires
        forall|y: int| #[trigger] tail_weight(more, y) >= tail_weight(defs, y),
    ensures
        joint_tail(forms, more, v) >= joint_tail(forms, defs, v),
    decreases forms.len(),
{
    if forms.len() > 0 {
        lemma_joint_tail_defs(forms.drop_last(), defs, more, v);
        let f = forms.last().1 as nat;
        let y = v - forms.last().0;
        let a = tail_weight(defs, y);
        let b = tail_weight(more, y);
        assert(f * a <= f * b) by (nonlinear_arith)
            requires
                a <= b,
        ;
    }
}

/// A joint tail through the weights of the formulation scores 0, 1 and 2.
proof fn lemma_joint_tail_by_score(forms: Seq<Outcome>, defs: Seq<Outcome>, v: int)
    requires
        outcomes_bounded(forms, 2),
    ensures
        joint_tail(forms, defs, v) == weight_at(forms, 0) * tail_weight(defs, v) + weight_at(forms, 1)
            * tail_weight(defs, v - 1) + weight_at(forms, 2) * tail_weight(defs, v - 2),
        tail_weight(forms, 0) == weight_at(forms, 0) + weight_at(forms, 1) + weight_at(forms, 2),
        tail_weight(forms, 1) == weight_at(forms, 1) + weight_at(forms, 2),
        tail_weight(forms, 2) == weight_at(forms, 2),
    decreases forms.len(),
{
    if forms.len() == 0 {
        let h0 = tail_weight(defs, v);
        let h1 = tail_weight(defs, v - 1);
        let h2 = tail_weight(defs, v - 2);
        assert(0 * h0 + 0 * h1 + 0 * h2 == 0) by (nonlinear_arith);
    } else {
        let rest = forms.drop_last();
        lemma_bounded_rest(forms, 2);
        lemma_joint_tail_by_score(rest, defs, v);
        let last = forms.last();
        let f = last.1 as nat;
        let h0 = tail_weight(defs, v);
        let h1 = tail_weight(defs, v - 1);
        let h2 = tail_weight(defs, v - 2);
        let r0 = weight_at(rest, 0);
        let r1 = weight_at(rest, 1);
        let r2 = weight_at(rest, 2);
        if last.0 == 0 {
            assert(r0 * h0 + r1 * h1 + r2 * h2 + f * h0 == (r0 + f) * h0 + r1 * h1 + r2 * h2)
                by (nonlinear_arith);
        } else if last.0 == 1 {
            assert(r0 * h0 + r1 * h1 + r2 * h2 + f * h1 == r0 * h0 + (r1 + f) * h1 + r2 * h2)
                by (nonlinear_arith);
        } else {
            assert(r0 * h0 + r1 * h1 + r2 * h2 + f * h2 == r0 * h0 + r1 * h1 + (r2 + f) * h2)
                by (nonlinear_arith);
        }
    }
}

/// A formulation list with heavier tails gives heavier joint tails.
proof fn lemma_joint_tail_forms(forms: Seq<Outcome>, more: Seq<Outcome>, defs: Seq<Outcome>, v: int)
    requires
        outcomes_bounded(forms, 2),
        outcomes_bounded(more, 2),
        tail_weight(more, 0) >= tail_weight(forms, 0),
        tail_weight(more, 1) >= tail_weight(forms, 1),
        tail_weight(more, 2) >= tail_weight(forms, 2),
    ensures
        joint_tail(more, defs, v) >= joint_tail(forms, defs, v),
{
    lemma_joint_tail_by_score(forms, defs, v);
    lemma_joint_tail_by_score(more, defs, v);
    lemma_tail_weight_antitone(defs, v - 1, v);
    lemma_tail_weight_antitone(defs, v - 2, v - 1);
    let h0 = tail_weight(defs, v);
    let h1 = tail_weight(defs, v - 1);
    let h2 = tail_weight(defs, v - 2);
    let (a0, a1, a2) = (weight_at(forms, 0), weight_at(forms, 1), weight_at(forms, 2));
    let (b0, b1, b2) = (weight_at(more, 0), weight_at(more, 1), weight_at(more, 2));
    assert(a0 * h0 + a1 * h1 + a2 * h2 <= b0 * h0 + b1 * h1 + b2 * h2) by (nonlinear_arith)
        requires
            a0 + a1 + a2 <= b0 + b1 + b2,
            a1 + a2 <= b1 + b2,
            a2 <= b2,
            0 <= h0 <= h1 <= h2,
            a0 >= 0,
            a1 >= 0,
            a2 >= 0,
            b0 >= 0,
            b1 >= 0,
            b2 >= 0,
    ;
}

/// The number of draws of `draws` cards out of `total`, `good` of them
/// known, that hold at least `v` and fewer than `j` known cards.
pub open spec fn draw_tail(good: nat, total: nat, draws: nat, v: int, j: nat) -> nat
    decreases j,
{
    if j == 0 {
        0
    } else {
        draw_tail(good, total, draws, v, (j - 1) as nat) + if j - 1 >= v {
            draw_weight(good, total, draws, (j - 1) as nat)
        } else {
            0
        }
    }
}

/// Every outcome weight of a draw fits in a `u64`.
proof fn lemma_draw_weights_fit(good: nat, total: nat, draws: nat)
    requires
        good <= total,
        binomial(total, draws) < 0x1_0000_0000_0000_0000,
    ensures
        forall|x: nat| x <= draws ==> #[trigger] draw_weight(good, total, draws, x)
            < 0x1_0000_0000_0000_0000,
{
    lemma_vandermonde(good, (total - good) as nat, draws);
    assert forall|x: nat| x <= draws implies #[trigger] draw_weight(good, total, draws, x)
        < 0x1_0000_0000_0000_0000 by {
        lemma_vandermonde_term_le_sum(good, (total - good) as nat, draws, x, draws + 1);
    }
}

/// The tail of the outcome list of a draw counts the draws with enough
/// known cards.
proof fn lemma_tail_of_draw(good: nat, total: nat, draws: nat, v: int, j: nat)
    requires
        j <= draws + 1,
        draws < 255,
        forall|x: nat| x <= draws ==> #[trigger] draw_weight(good, total, draws, x)
            < 0x1_0000_0000_0000_0000,
    ensures
        tail_weight(draw_outcomes_upto(good, total, draws, j), v) == draw_tail(good, total, draws, v, j),
    decreases j,
{
    if j > 0 {
        let x = (j - 1) as nat;
        lemma_tail_of_draw(good, total, draws, v, x);
        let prev = draw_outcomes_upto(good, total, draws, x);
        let w = draw_weight(good, total, draws, x);
        if w > 0 {
            let cur = prev.push((x as u8, w as u64));
            assert(cur.drop_last() =~= prev);
            assert(draw_weight(good, total, draws, x) < 0x1_0000_0000_0000_0000);
        }
    }
}

/// Draws with the extra known card drawn and `x` other known cards.
spec fn swap_side(m: nat, n: nat, d: nat, x: int) -> nat {
    if 0 <= x < d {
        binomial(m, x as nat) * binomial((n - 1) as nat, (d - 1 - x) as nat)
    } else {
        0
    }
}

/// Turning one unknown card of the deck into a known one moves, at each
/// count `x` of known cards, the draws that hold that card from `x` to
/// `x + 1`.
proof fn lemma_swap_step(m: nat, n: nat, d: nat, x: nat)
    requires
        n >= 1,
        x <= d,
    ensures
        vandermonde_term(m + 1, (n - 1) as nat, d, x) + swap_side(m, n, d, x as int)
            == vandermonde_term(m, n, d, x) + swap_side(m, n, d, x - 1),
{
    let n1 = (n - 1) as nat;
    let e = (d - x) as nat;
    let new_term = vandermonde_term(m + 1, n1, d, x);
    let old_term = vandermonde_term(m, n, d, x);
    let side_here = swap_side(m, n, d, x as int);
    let side_below = swap_side(m, n, d, x - 1);
    let same = binomial(m, x);
    let keep = binomial(n1, e);
    assert(new_term == binomial(m + 1, x) * keep);
    assert(old_term == same * binomial(n, e));
    if x == 0 {
        assert(binomial(m + 1, 0) == 1 && same == 1);
        assert(side_below == 0);
        if d > 0 {
            let drop = binomial(n1, (e - 1) as nat);
            assert(binomial(n, e) == drop + keep);
            assert(side_here == same * drop);
            assert(1 * keep + 1 * drop == 1 * (drop + keep)) by (nonlinear_arith);
        } else {
            assert(binomial(n, 0) == 1 && keep == 1);
            assert(side_here == 0);
        }
    } else {
        let up = binomial(m, (x - 1) as nat);
        assert(binomial(m + 1, x) == up + same);
        assert((d - 1 - (x - 1)) as nat == e);
        assert(side_below == up * keep);
        if x < d {
            let drop = binomial(n1, (e - 1) as nat);
            assert(binomial(n, e) == drop + keep);
            assert((d - 1 - x) as nat == (e - 1) as nat);
            assert(side_here == same * drop);
            assert((up + same) * keep + same * drop == same * (drop + keep) + up * keep)
                by (nonlinear_arith);
        } else {
            assert(binomial(n, 0) == 1 && keep == 1);
            assert(side_here == 0);
            assert((up + same) * 1 == same * 1 + up * 1) by (nonlinear_arith);
        }
    }
}

/// The telescoping sum of the moves: up to `j`, the tail with one more
/// known card gains the draws moved in at its lower end and loses those
/// moved out at `j`.
proof fn lemma_swap_tail(m: nat, total: nat, d: nat, v: int, j: nat)
    requires
        m < total,
        j <= d + 1,
    ensures
        (if v < 0 { 0 } else { v }) < j ==> draw_tail(m + 1, total, d, v, j) + swap_side(
            m,
            (total - m) as nat,
            d,
            j - 1,
        ) == draw_tail(m, total, d, v, j) + swap_side(
            m,
            (total - m) as nat,
            d,
            (if v < 0 { 0 } else { v }) - 1,
        ),
        (if v < 0 { 0 } else { v }) >= j ==> draw_tail(m + 1, total, d, v, j) == 0 && draw_tail(
            m,
            total,
            d,
            v,
            j,
        ) == 0,
    decreases j,
{
    let n = (total - m) as nat;
    let lo: int = if v < 0 { 0 } else { v };
    if j > 0 {
        let x = (j - 1) as nat;
        lemma_swap_tail(m, total, d, v, x);
        assert((total - (m + 1)) as nat == (n - 1) as nat);
        if lo <= x {
            lemma_swap_step(m, n, d, x);
        }
    }
}

/// One more known card in the deck: every tail of the draw is at least as
/// heavy.
proof fn lemma_draw_tail_grows(m: nat, total: nat, d: nat, v: int)
    requires
        m < total,
    ensures
        draw_tail(m + 1, total, d, v, d + 1) >= draw_tail(m, total, d, v, d + 1),
{
    lemma_swap_tail(m, total, d, v, d + 1);
}

/// One more learned definition: every tail of the definitions on a ticket
/// is at least as heavy.
proof fn lemma_def_tail_grows(k_def: nat, y: int)
    requires
        k_def < 24,
    ensures
        tail_weight(def_outcomes(k_def + 1), y) >= tail_weight(def_outcomes(k_def), y),
{
    lemma_deck_sizes();
    lemma_draw_weights_fit(k_def, 24, 3);
    lemma_draw_weights_fit(k_def + 1, 24, 3);
    lemma_tail_of_draw(k_def, 24, 3, y, 4);
    lemma_tail_of_draw(k_def + 1, 24, 3, y, 4);
    lemma_draw_tail_grows(k_def, 24, 3, y);
}

/// The draw tail of no known formulation: every draw holds none.
proof fn lemma_no_known_forms(y: int)
    ensures
        tail_weight(seq![(0u8, 990u64)], y) == draw_tail(0, 45, 2, y, 3),
{
    lemma_deck_sizes();
    let l = seq![(0u8, 990u64)];
    assert(l.drop_last() =~= Seq::<Outcome>::empty());
    crate::combinatorics::lemma_binomial_zero_above(0, 1);
    crate::combinatorics::lemma_binomial_zero_above(0, 2);
    assert(draw_weight(0, 45, 2, 0) == 990) by {
        assert(binomial(0, 0) == 1);
        assert(binomial(0, 0) * binomial(45, 2) == 990) by (nonlinear_arith)
            requires
                binomial(0, 0) == 1,
                binomial(45, 2) == 990,
        ;
    }
    assert(draw_weight(0, 45, 2, 1) == 0) by {
        assert(binomial(0, 1) * binomial(45, 1) == 0) by (nonlinear_arith)
            requires
                binomial(0, 1) == 0,
        ;
    }
    assert(draw_weight(0, 45, 2, 2) == 0) by {
        assert(binomial(0, 2) * binomial(45, 0) == 0) by (nonlinear_arith)
            requires
                binomial(0, 2) == 0,
        ;
    }
    assert(draw_tail(0, 45, 2, y, 0) == 0);
    assert(draw_tail(0, 45, 2, y, 1) == if 0 >= y { 990nat } else { 0nat });
    assert(tail_weight(Seq::<Outcome>::empty(), y) == 0);
    assert(l.last() == (0u8, 990u64));
    assert(draw_tail(0, 45, 2, y, 2) == draw_tail(0, 45, 2, y, 1));
    assert(draw_tail(0, 45, 2, y, 3) == draw_tail(0, 45, 2, y, 2));
}

/// The tail of the known formulations on a ticket, as a draw tail.
proof fn lemma_form_tail(k_pf: nat, k_extra: nat, drawn: nat, y: int)
    requires
        known_forms_left(k_pf, k_extra, drawn) <= 45,
    ensures
        tail_weight(form_outcomes(k_pf, k_extra, drawn), y) == draw_tail(
            known_forms_left(k_pf, k_extra, drawn),
            45,
            2,
            y,
            3,
        ),
{
    let left = known_forms_left(k_pf, k_extra, drawn);
    if left == 0 {
        lemma_no_known_forms(y);
    } else {
        lemma_deck_sizes();
        lemma_draw_weights_fit(left, 45, 2);
        lemma_tail_of_draw(left, 45, 2, y, 3);
    }
}

/// One more learned formulation that still fits in the deck: every tail of
/// the formulations on a ticket is at least as heavy.
proof fn lemma_form_tail_grows(k_pf: nat, k_extra: nat, drawn: nat, y: int)
    requires
        known_forms_left(k_pf, k_extra, drawn) < 45,
    ensures
        tail_weight(form_outcomes(k_pf, k_extra + 1, drawn), y) >= tail_weight(
            form_outcomes(k_pf, k_extra, drawn),
            y,
        ),
{
    let left = known_forms_left(k_pf, k_extra, drawn);
    assert(known_forms_left(k_pf, k_extra + 1, drawn) == left + 1);
    lemma_form_tail(k_pf, k_extra, drawn, y);
    lemma_form_tail(k_pf, k_extra + 1, drawn, y);
    lemma_draw_tail_grows(left, 45, 2, y);
}

/// `plan` with one more definition learned.
pub open spec fn with_one_more_def(plan: Plan) -> Plan {
    Plan { k_def: (plan.k_def + 1) as u8, k_extra: plan.k_extra, k_pf: plan.k_pf, k_pp: plan.k_pp }
}

/// `plan` with one more formulation, not a proof, learned.
pub open spec fn with_one_more_form(plan: Plan) -> Plan {
    Plan { k_def: plan.k_def, k_extra: (plan.k_extra + 1) as u8, k_pf: plan.k_pf, k_pp: plan.k_pp }
}

/// `more` is `plan` with one more definition, or with one more formulation
/// while the known formulations still fit in the deck after the proofs.
spec fn learns_one_more(plan: Plan, more: Plan) -> bool {
    ||| plan.k_def < 24 && more == with_one_more_def(plan)
    ||| plan.k_pf + plan.k_extra < 45 && more == with_one_more_form(plan)
}

/// The scores from `score` up of one branch, through joint tails.
proof fn lemma_branch_tail(plan: Plan, a: nat, b: nat, score: int)
    requires
        plan_in_deck(plan),
        a + b <= 4,
        0 <= score,
    ensures
        mass_from(|s: int| branch_mass(plan, a, b, s), score) == proof_draw_weight(
            plan.k_pf as nat,
            plan.k_pp as nat,
            a,
            b,
        ) * a * joint_tail(
            form_outcomes(plan.k_pf as nat, plan.k_extra as nat, a + b),
            def_outcomes(plan.k_def as nat),
            score - (3 * a + b + 1),
        ) + proof_draw_weight(plan.k_pf as nat, plan.k_pp as nat, a, b) * ((4 - a) as nat)
            * joint_tail(
            form_outcomes(plan.k_pf as nat, plan.k_extra as nat, a + b),
            def_outcomes(plan.k_def as nat),
            score - (3 * a + b),
        ),
{
    let p = proof_draw_weight(plan.k_pf as nat, plan.k_pp as nat, a, b);
    let forms = form_outcomes(plan.k_pf as nat, plan.k_extra as nat, a + b);
    let defs = def_outcomes(plan.k_def as nat);
    lemma_def_outcomes_facts(plan.k_def as nat);
    lemma_form_outcomes_facts(plan.k_pf as nat, plan.k_extra as nat, a + b);
    let na = (4 - a) as nat;
    let c1: int = (3 * a + b + 1) as int;
    let c2: int = (3 * a + b) as int;
    let j1 = |s: int| joint_weight_at(forms, defs, s - c1);
    let j2 = |s: int| joint_weight_at(forms, defs, s - c2);
    lemma_mass_of_joint(forms, defs, c1, score);
    lemma_mass_of_joint(forms, defs, c2, score);
    let with_body = |s: int| p * a * joint_weight_at(forms, defs, s - c1);
    let without_body = |s: int| p * na * joint_weight_at(forms, defs, s - c2);
    lemma_mass_from_scale(j1, with_body, p * a, score);
    lemma_mass_from_scale(j2, without_body, p * na, score);
    lemma_mass_from_add(with_body, without_body, |s: int| branch_mass(plan, a, b, s), score);
}

/// One branch: learning one more card never lowers a tail.
proof fn lemma_branch_grows(plan: Plan, more: Plan, a: nat, b: nat, score: int)
    requires
        plan_in_deck(plan),
        learns_one_more(plan, more),
        a + b <= 4,
        0 <= score,
    ensures
        mass_from(|s: int| branch_mass(more, a, b, s), score) >= mass_from(
            |s: int| branch_mass(plan, a, b, s),
            score,
        ),
{
    lemma_branch_tail(plan, a, b, score);
    lemma_branch_tail(more, a, b, score);
    let p = proof_draw_weight(plan.k_pf as nat, plan.k_pp as nat, a, b);
    let forms = form_outcomes(plan.k_pf as nat, plan.k_extra as nat, a + b);
    let defs = def_outcomes(plan.k_def as nat);
    let more_forms = form_outcomes(more.k_pf as nat, more.k_extra as nat, a + b);
    let more_defs = def_outcomes(more.k_def as nat);
    let v1 = score - (3 * a + b + 1);
    let v2 = score - (3 * a + b);
    if plan.k_def < 24 && more == with_one_more_def(plan) {
        assert forall|y: int| #[trigger] tail_weight(more_defs, y) >= tail_weight(defs, y) by {
            lemma_def_tail_grows(plan.k_def as nat, y);
        }
        lemma_joint_tail_defs(forms, defs, more_defs, v1);
        lemma_joint_tail_defs(forms, defs, more_defs, v2);
    } else {
        lemma_form_outcomes_facts(plan.k_pf as nat, plan.k_extra as nat, a + b);
        lemma_form_outcomes_facts(more.k_pf as nat, more.k_extra as nat, a + b);
        lemma_form_tail_grows(plan.k_pf as nat, plan.k_extra as nat, a + b, 0);
        lemma_form_tail_grows(plan.k_pf as nat, plan.k_extra as nat, a + b, 1);
        lemma_form_tail_grows(plan.k_pf as nat, plan.k_extra as nat, a + b, 2);
        lemma_joint_tail_forms(forms, more_forms, defs, v1);
        lemma_joint_tail_forms(forms, more_forms, defs, v2);
    }
    let na = (4 - a) as nat;
    let x1 = joint_tail(forms, defs, v1);
    let x2 = joint_tail(forms, defs, v2);
    let y1 = joint_tail(more_forms, more_defs, v1);
    let y2 = joint_tail(more_forms, more_defs, v2);
    assert(p * a * x1 + p * na * x2 <= p * a * y1 + p * na * y2) by (nonlinear_arith)
        requires
            x1 <= y1,
            x2 <= y2,
    ;
}

proof fn lemma_row_grows(plan: Plan, more: Plan, a: nat, end: nat, score: int)
    requires
        plan_in_deck(plan),
        learns_one_more(plan, more),
        a <= 4,
        end <= 5 - a,
        0 <= score,
    ensures
        mass_from(|s: int| row_mass(more, a, end, s), score) >= mass_from(
            |s: int| row_mass(plan, a, end, s),
            score,
        ),
    decreases end,
{
    if end == 0 {
        lemma_mass_from_zero(|s: int| row_mass(more, a, end, s), score);
        lemma_mass_from_zero(|s: int| row_mass(plan, a, end, s), score);
    } else {
        let b = (end - 1) as nat;
        lemma_row_grows(plan, more, a, b, score);
        lemma_branch_grows(plan, more, a, b, score);
        lemma_mass_from_add(
            |s: int| row_mass(plan, a, b, s),
            |s: int| branch_mass(plan, a, b, s),
            |s: int| row_mass(plan, a, end, s),
            score,
        );
        lemma_mass_from_add(
            |s: int| row_mass(more, a, b, s),
            |s: int| branch_mass(more, a, b, s),
            |s: int| row_mass(more, a, end, s),
            score,
        );
    }
}

proof fn lemma_grid_grows(plan: Plan, more: Plan, end: nat, score: int)
    requires
        plan_in_deck(plan),
        learns_one_more(plan, more),
        end <= 5,
        0 <= score,
    ensures
        mass_from(|s: int| grid_mass(more, end, s), score) >= mass_from(
            |s: int| grid_mass(plan, end, s),
            score,
        ),
    decreases end,
{
    if end == 0 {
        lemma_mass_from_zero(|s: int| grid_mass(more, end, s), score);
        lemma_mass_from_zero(|s: int| grid_mass(plan, end, s), score);
    } else {
        let a = (end - 1) as nat;
        lemma_grid_grows(plan, more, a, score);
        lemma_row_grows(plan, more, a, (5 - a) as nat, score);
        lemma_mass_from_add(
            |s: int| grid_mass(plan, a, s),
            |s: int| row_mass(plan, a, (5 - a) as nat, s),
            |s: int| grid_mass(plan, end, s),
            score,
        );
        lemma_mass_from_add(
            |s: int| grid_mass(more, a, s),
            |s: int| row_mass(more, a, (5 - a) as nat, s),
            |s: int| grid_mass(more, end, s),
            score,
        );
    }
}

proof fn lemma_ticket_grows(plan: Plan, more: Plan, score: int)
    requires
        plan_in_deck(plan),
        learns_one_more(plan, more),
    ensures
        upper_tail(ticket_cells(more), score) >= upper_tail(ticket_cells(plan), score),
{
    if score >= 0 {
        assert(plan_in_deck(more));
        lemma_grid_grows(plan, more, 5, score);
        lemma_mass_from_same(|s: int| ticket_mass(plan, s), |s: int| grid_mass(plan, 5, s), score);
        lemma_mass_from_same(|s: int| ticket_mass(more, s), |s: int| grid_mass(more, 5, s), score);
        lemma_upper_tail_cells(plan, score);
        lemma_upper_tail_cells(more, score);
    }
}

proof fn lemma_passing_score_grows(plan: Plan, more: Plan)
    requires
        plan_in_deck(plan),
        learns_one_more(plan, more),
    ensures
        passing_score(ticket_cells(more)) >= passing_score(ticket_cells(plan)),
{
    let r = passing_score(ticket_cells(plan));
    lemma_passing_score_is_highest(ticket_cells(plan));
    lemma_passing_score_is_highest(ticket_cells(more));
    if r > 0 {
        lemma_ticket_grows(plan, more, r as int);
        assert(meets_target(ticket_cells(more), r as int));
    }
}

/// Learning more never hurts: with one more definition, or with one more
/// formulation while the known formulations still fit in the deck after the
/// proofs, every score is reached at least as often, and the score reached
/// with probability 90% is at least as high.
pub proof fn lemma_learning_more_never_hurts(plan: Plan, score: int)
    requires
        plan_in_deck(plan),
    ensures
        plan.k_def < 24 ==> upper_tail(ticket_cells(with_one_more_def(plan)), score) >= upper_tail(
            ticket_cells(plan),
            score,
        ),
        plan.k_def < 24 ==> passing_score(ticket_cells(with_one_more_def(plan))) >= passing_score(
            ticket_cells(plan),
        ),
        plan.k_pf + plan.k_extra < 45 ==> upper_tail(ticket_cells(with_one_more_form(plan)), score)
            >= upper_tail(ticket_cells(plan), score),
        plan.k_pf + plan.k_extra < 45 ==> passing_score(ticket_cells(with_one_more_form(plan)))
            >= passing_score(ticket_cells(plan)),
{
    if plan.k_def < 24 {
        lemma_ticket_grows(plan, with_one_more_def(plan), score);
        lemma_passing_score_grows(plan, with_one_more_def(plan));
    }
    if plan.k_pf + plan.k_extra < 45 {
        lemma_ticket_grows(plan, with_one_more_form(plan), score);
        lemma_passing_score_grows(plan, with_one_more_form(plan));
    }
}

} // verus!
